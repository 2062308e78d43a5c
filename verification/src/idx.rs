//! Pack index files: the ids of a pack's objects, sorted, with the offset of
//! each in the pack.

use vstd::prelude::*;

use crate::errors::GitError;
use crate::git::{is_id_of, ID};
use crate::text::{
    ascii_chars, ascii_string, decimal, decimal_bytes, hex_digit, hex_encode, hex_string, hex_text,
    lemma_decimal_digits, push_all, zero_pad, zero_padded_hex,
};
use crate::utils::be_u32;

verus! {

/// One object of an index: its id, the CRC-32 of its packed bytes as
/// hexadecimal text, and its offset in the pack.
pub struct IdxItem {
    pub id: ID,
    pub crc32: String,
    pub offset: usize,
}

/// A decoded index: its version, its number of objects, how many objects
/// each first id byte has (by the byte's hexadecimal text), its objects, and
/// the checksums of the pack and of the index.
pub struct Idx {
    pub version: u32,
    pub number_of_objects: usize,
    pub map_of_prefix: Vec<(String, usize)>,
    pub idx_items: Vec<IdxItem>,
    pub pack_signature: ID,
    pub idx_signature: ID,
}

/// The magic bytes at the start of an index of version 2.
pub open spec fn idx_header() -> Seq<u8> {
    seq![0xffu8, 0x74u8, 0x4fu8, 0x63u8]
}

/// Entry `k` of the fan-out table: the number of objects whose id starts
/// with a byte up to `k`.
pub open spec fn fanout(data: Seq<u8>, k: int) -> nat {
    be_u32(data.subrange(8 + 4 * k, 12 + 4 * k)) as nat
}

/// The fan-out entry before entry `k`, 0 before the first.
pub open spec fn fanout_prev(data: Seq<u8>, k: int) -> nat {
    if k == 0 {
        0
    } else {
        fanout(data, k - 1)
    }
}

/// The number of objects of the index: the last fan-out entry.
pub open spec fn idx_count(data: Seq<u8>) -> nat {
    fanout(data, 255)
}

/// Where the CRC table, the offset table and the checksums start.
pub open spec fn crc_start(n: nat) -> nat {
    1032 + 20 * n
}

pub open spec fn offsets_start(n: nat) -> nat {
    1032 + 24 * n
}

pub open spec fn trailer_start(n: nat) -> nat {
    1032 + 28 * n
}

/// The index `data` can be read: it holds a header, and after a valid
/// header a fan-out table that never decreases and all that it announces.
pub open spec fn idx_decodable(data: Seq<u8>) -> bool {
    &&& data.len() >= 4
    &&& data.take(4) == idx_header() ==> {
        &&& data.len() >= 1032
        &&& forall|k: int| 0 <= k < 256 ==> fanout_prev(data, k) <= #[trigger] fanout(data, k)
        &&& data.len() >= trailer_start(idx_count(data)) + 20
    }
}

/// The text of the first id byte `k` in the prefix table: its hexadecimal
/// digits, with a leading zero when there is one digit.
pub open spec fn prefix_text(k: nat) -> Seq<char> {
    ascii_chars(zero_pad(hex_text(k), 2))
}

/// `i` is the first entry of `s` with `key`.
pub open spec fn first_with_key(s: Seq<(Seq<char>, usize)>, key: Seq<char>, i: int) -> bool {
    &&& 0 <= i < s.len()
    &&& s[i].0 == key
    &&& forall|j: int| 0 <= j < i ==> (#[trigger] s[j]).0 != key
}

/// The prefix table `s` after setting `key` to `v`: the first entry with that
/// key takes the value, or a new entry is appended.
pub open spec fn prefix_insert(s: Seq<(Seq<char>, usize)>, key: Seq<char>, v: usize) -> Seq<(Seq<char>, usize)> {
    if exists|i: int| #[trigger] first_with_key(s, key, i) {
        let i = choose|i: int| #[trigger] first_with_key(s, key, i);
        s.update(i, (key, v))
    } else {
        s.push((key, v))
    }
}

/// The prefix table `s` after the fan-out entries before `k`: each entry
/// that differs from the one before sets the count of its byte.
pub open spec fn prefix_upto(s: Seq<(Seq<char>, usize)>, data: Seq<u8>, k: nat) -> Seq<(Seq<char>, usize)>
    decreases k,
{
    if k == 0 {
        s
    } else {
        let prev = prefix_upto(s, data, (k - 1) as nat);
        let j = k - 1;
        if fanout(data, j) != fanout_prev(data, j) {
            prefix_insert(prev, prefix_text(j as nat), (fanout(data, j) - fanout_prev(data, j)) as usize)
        } else {
            prev
        }
    }
}

/// The sum of the counts of a prefix table.
pub open spec fn prefix_total(s: Seq<(Seq<char>, usize)>) -> int
    decreases s.len(),
{
    if s.len() == 0 {
        0
    } else {
        prefix_total(s.drop_last()) + s.last().1
    }
}

/// The text of a byte is its two hexadecimal digits.
proof fn lemma_prefix_text_digits(k: nat)
    requires
        k < 256,
    ensures
        zero_pad(hex_text(k), 2) == seq![hex_digit((k / 16) as u8), hex_digit((k % 16) as u8)],
{
    if k < 16 {
        assert(hex_text(k) == seq![hex_digit(k as u8)]);
        assert(hex_digit(0) == 0x30);
        assert(zero_pad(hex_text(k), 2) =~= seq![0x30u8, hex_digit(k as u8)]);
    } else {
        assert(hex_text(k / 16) == seq![hex_digit((k / 16) as u8)]);
        assert(hex_text(k) =~= seq![hex_digit((k / 16) as u8), hex_digit((k % 16) as u8)]);
    }
}

/// Two bytes with the same text are the same byte.
proof fn lemma_prefix_text_injective(a: nat, b: nat)
    requires
        a < 256,
        b < 256,
        prefix_text(a) == prefix_text(b),
    ensures
        a == b,
{
    lemma_prefix_text_digits(a);
    lemma_prefix_text_digits(b);
    let ta = zero_pad(hex_text(a), 2);
    let tb = zero_pad(hex_text(b), 2);
    assert(ta.len() == 2 && tb.len() == 2);
    assert(prefix_text(a) == ascii_chars(ta));
    assert(prefix_text(b) == ascii_chars(tb));
    assert(ascii_chars(ta)[0] == ta[0] as char);
    assert(ascii_chars(ta)[1] == ta[1] as char);
    assert(ascii_chars(tb)[0] == tb[0] as char);
    assert(ascii_chars(tb)[1] == tb[1] as char);
    assert(prefix_text(a)[0] == prefix_text(b)[0]);
    assert(prefix_text(a)[1] == prefix_text(b)[1]);
    assert(ta[0] as char == tb[0] as char);
    assert(ta[1] as char == tb[1] as char);
    assert(ta[0] == tb[0]);
    assert(ta[1] == tb[1]);
    assert(a / 16 == b / 16);
    assert(a % 16 == b % 16);
}

/// The prefix table after the fan-out entries before `k`, from an empty one.
proof fn lemma_prefix_counts_upto(data: Seq<u8>, k: nat)
    requires
        k <= 256,
        data.len() >= 1032,
        forall|j: int| 0 <= j < 256 ==> fanout_prev(data, j) <= #[trigger] fanout(data, j),
    ensures
        ({
            let t = prefix_upto(seq![], data, k);
            &&& forall|i: int, m: nat|
                0 <= i < t.len() && k <= m < 256 ==> #[trigger] t[i].0 != #[trigger] prefix_text(m)
            &&& forall|i: int, j: int| 0 <= i < j < t.len() ==> #[trigger] t[i].0 != #[trigger] t[j].0
            &&& forall|i: int| 0 <= i < t.len() ==> #[trigger] t[i].1 > 0
            &&& prefix_total(t) == fanout_prev(data, k as int)
        }),
    decreases k,
{
    let t = prefix_upto(seq![], data, k);
    if k > 0 {
        let j = (k - 1) as int;
        lemma_prefix_counts_upto(data, (k - 1) as nat);
        let prev = prefix_upto(seq![], data, (k - 1) as nat);
        assert(fanout_prev(data, j) <= fanout(data, j));
        assert(fanout_prev(data, k as int) == fanout(data, j));
        if fanout(data, j) != fanout_prev(data, j) {
            let key = prefix_text(j as nat);
            let v = (fanout(data, j) - fanout_prev(data, j)) as usize;
            assert(fanout(data, j) <= u32::MAX);
            assert(v == fanout(data, j) - fanout_prev(data, j));
            assert(!exists|i: int| #[trigger] first_with_key(prev, key, i)) by {
                if exists|i: int| #[trigger] first_with_key(prev, key, i) {
                    let i = choose|i: int| #[trigger] first_with_key(prev, key, i);
                    assert(prev[i].0 != prefix_text(j as nat));
                }
            }
            assert(t == prev.push((key, v)));
            assert(t.drop_last() =~= prev);
            assert forall|i: int, m: nat| 0 <= i < t.len() && k <= m < 256 implies #[trigger] t[i].0
                != #[trigger] prefix_text(m) by {
                if i < prev.len() {
                    assert(t[i] == prev[i]);
                } else if key == prefix_text(m) {
                    lemma_prefix_text_injective(j as nat, m);
                }
            }
            assert forall|a: int, b: int| 0 <= a < b < t.len() implies #[trigger] t[a].0
                != #[trigger] t[b].0 by {
                assert(t[a] == prev[a]);
                if b < prev.len() {
                    assert(t[b] == prev[b]);
                } else {
                    assert(prev[a].0 != prefix_text(j as nat));
                }
            }
            assert forall|i: int| 0 <= i < t.len() implies #[trigger] t[i].1 > 0 by {
                if i < prev.len() {
                    assert(t[i] == prev[i]);
                }
            }
        } else {
            assert(t == prev);
        }
    }
}

/// The prefix table of an index read into an empty table holds each first id
/// byte at most once, each with a count above zero, and the counts add up to
/// the number of objects of the index.
pub proof fn lemma_prefix_counts(data: Seq<u8>)
    requires
        idx_decodable(data),
        data.take(4) == idx_header(),
    ensures
        ({
            let t = prefix_upto(seq![], data, 256);
            &&& forall|i: int, j: int| 0 <= i < j < t.len() ==> #[trigger] t[i].0 != #[trigger] t[j].0
            &&& forall|i: int| 0 <= i < t.len() ==> #[trigger] t[i].1 > 0
            &&& prefix_total(t) == idx_count(data)
        }),
{
    lemma_prefix_counts_upto(data, 256);
}

/// The view of a prefix table.
pub open spec fn prefix_view(v: Seq<(String, usize)>) -> Seq<(Seq<char>, usize)> {
    v.map_values(|p: (String, usize)| (p.0@, p.1))
}

/// Object `i` of the index `data` with `n` objects: its id, the hexadecimal
/// text of its CRC-32 and its offset.
pub open spec fn item_ok(it: IdxItem, data: Seq<u8>, n: nat, i: int) -> bool {
    &&& is_id_of(it.id, data.subrange(1032 + 20 * i, 1052 + 20 * i))
    &&& it.crc32@ == ascii_chars(hex_encode(data.subrange(crc_start(n) + 4 * i, crc_start(n) + 4 * i + 4)))
    &&& it.offset == be_u32(data.subrange(offsets_start(n) + 4 * i, offsets_start(n) + 4 * i + 4))
}

/// The message of a bad index header: the four bytes as a list in decimal.
pub open spec fn idx_header_message(m: Seq<u8>) -> Seq<u8> {
    "Invalid idx header: ["@.map_values(|c: char| c as u8) + decimal(m[0] as nat) + seq![0x2cu8, 0x20u8]
        + decimal(m[1] as nat) + seq![0x2cu8, 0x20u8] + decimal(m[2] as nat) + seq![0x2cu8, 0x20u8]
        + decimal(m[3] as nat) + seq![0x5du8]
}

/// Reads the four bytes at `at` in network byte order.
fn be_u32_at(data: &[u8], at: usize) -> (res: u32)
    requires
        at + 4 <= data@.len(),
    ensures
        res == be_u32(data@.subrange(at as int, at + 4)),
{
    data[at] as u32 * 0x1000000 + data[at + 1] as u32 * 0x10000 + data[at + 2] as u32 * 0x100
        + data[at + 3] as u32
}

/// Sets `key` to `v` in the prefix table.
fn insert_prefix(table: &mut Vec<(String, usize)>, key: String, v: usize)
    ensures
        prefix_view(final(table)@) == prefix_insert(prefix_view(old(table)@), key@, v),
{
    let ghost s = prefix_view(table@);
    assert(s == prefix_view(old(table)@));
    let mut i: usize = 0;
    while i < table.len()
        invariant
            i <= table@.len(),
            s == prefix_view(table@),
            s == prefix_view(old(table)@),
            forall|j: int| 0 <= j < i ==> (#[trigger] s[j]).0 != key@,
        decreases table@.len() - i,
    {
        if table[i].0 == key {
            proof {
                assert(first_with_key(s, key@, i as int));
                let c = choose|j: int| #[trigger] first_with_key(s, key@, j);
                if c < i {
                    assert(s[c].0 != key@);
                } else if c > i {
                    assert(s[i as int].0 != key@);
                }
                assert(c == i);
                assert(prefix_insert(s, key@, v) == s.update(i as int, (key@, v)));
            }
            let ghost kv = key@;
            table.set(i, (key, v));
            assert(prefix_view(table@) =~= s.update(i as int, (kv, v)));
            return;
        }
        i = i + 1;
    }
    assert(!exists|j: int| #[trigger] first_with_key(s, key@, j));
    table.push((key, v));
    assert(prefix_view(table@) =~= s.push((key@, v)));
}

/// The message of a bad index header whose first four bytes are those of
/// `d`.
fn idx_header_error_text(d: &[u8]) -> (res: String)
    requires
        d@.len() >= 4,
    ensures
        res@ == ascii_chars(idx_header_message(d@.take(4))),
{
    let mut m: Vec<u8> = vec![
        0x49, 0x6e, 0x76, 0x61, 0x6c, 0x69, 0x64, 0x20, 0x69, 0x64, 0x78, 0x20, 0x68, 0x65,
        0x61, 0x64, 0x65, 0x72, 0x3a, 0x20, 0x5b,
    ];
    let ghost lead = m@;
    let d0 = decimal_bytes(d[0] as u64);
    let d1 = decimal_bytes(d[1] as u64);
    let d2 = decimal_bytes(d[2] as u64);
    let d3 = decimal_bytes(d[3] as u64);
    push_all(&mut m, d0.as_slice());
    m.push(0x2c);
    m.push(0x20);
    push_all(&mut m, d1.as_slice());
    m.push(0x2c);
    m.push(0x20);
    push_all(&mut m, d2.as_slice());
    m.push(0x2c);
    m.push(0x20);
    push_all(&mut m, d3.as_slice());
    m.push(0x5d);
    proof {
        reveal_strlit("Invalid idx header: [");
        assert(lead =~= "Invalid idx header: ["@.map_values(|c: char| c as u8));
        assert(m@ =~= idx_header_message(d@.take(4)));
        lemma_decimal_digits(d[0] as nat);
        lemma_decimal_digits(d[1] as nat);
        lemma_decimal_digits(d[2] as nat);
        lemma_decimal_digits(d[3] as nat);
        let l0 = lead.len() as int;
        let a = l0 + d0@.len();
        let b = a + 2 + d1@.len();
        let c = b + 2 + d2@.len();
        assert forall|k: int| 0 <= k < m@.len() implies m@[k] < 0x80 by {
            if k < l0 {
            } else if k < a {
                assert(m@[k] == d0@[k - l0]);
            } else if k < a + 2 {
            } else if k < b {
                assert(m@[k] == d1@[k - a - 2]);
            } else if k < b + 2 {
            } else if k < c {
                assert(m@[k] == d2@[k - b - 2]);
            } else if k < c + 2 {
            } else if k < c + 2 + d3@.len() {
                assert(m@[k] == d3@[k - c - 2]);
            }
        }
    }
    ascii_string(m)
}

impl Idx {
    /// An empty index.
    pub fn new() -> (res: Idx)
        ensures
            res.version == 0,
            res.number_of_objects == 0,
            res.map_of_prefix@.len() == 0,
            res.idx_items@.len() == 0,
            res.pack_signature.bytes@.len() == 0,
            res.pack_signature.hash@.len() == 0,
            res.idx_signature.bytes@.len() == 0,
            res.idx_signature.hash@.len() == 0,
    {
        Idx {
            version: 0,
            number_of_objects: 0,
            map_of_prefix: Vec::new(),
            idx_items: Vec::new(),
            pack_signature: ID::from_bytes(&[]),
            idx_signature: ID::from_bytes(&[]),
        }
    }

    /// Decodes the index `data` into this index: its version, the count of
    /// objects of each first id byte, its objects (appended to those already
    /// held) and the two checksums. A bad header gives an error and changes
    /// nothing.
    #[verifier::rlimit(50)]
    pub fn decode(&mut self, data: Vec<u8>) -> (res: Result<(), GitError>)
        requires
            idx_decodable(data@),
        ensures
            data@.take(4) != idx_header() ==> (res matches Err(GitError::InvalidIdxFile(m)) && m@
                == ascii_chars(idx_header_message(data@.take(4))) && *final(self) == *old(self)),
            data@.take(4) == idx_header() ==> ({
                let n = idx_count(data@);
                let t = trailer_start(n);
                let k0 = old(self).idx_items@.len();
                &&& res is Ok
                &&& final(self).version == be_u32(data@.subrange(4, 8))
                &&& final(self).number_of_objects == (if n != 0 {
                    n
                } else {
                    old(self).number_of_objects as nat
                })
                &&& prefix_view(final(self).map_of_prefix@) == prefix_upto(
                    prefix_view(old(self).map_of_prefix@),
                    data@,
                    256,
                )
                &&& final(self).idx_items@.len() == k0 + n
                &&& forall|i: int| 0 <= i < k0 ==> #[trigger] final(self).idx_items@[i] == old(
                    self,
                ).idx_items@[i]
                &&& forall|i: int|
                    0 <= i < n ==> item_ok(#[trigger] final(self).idx_items@[k0 + i], data@, n, i)
                &&& is_id_of(final(self).pack_signature, data@.subrange(t as int, t + 20int))
                &&& is_id_of(final(self).idx_signature, data@.skip(t + 20int))
            }),
    {
        let d = data.as_slice();
        if !(d[0] == 0xff && d[1] == 0x74 && d[2] == 0x4f && d[3] == 0x63) {
            assert(data@.take(4) != idx_header()) by {
                if data@.take(4) == idx_header() {
                    assert(d@[0] == 0xff && d@[1] == 0x74 && d@[2] == 0x4f && d@[3] == 0x63);
                }
            }
            return Err(GitError::InvalidIdxFile(idx_header_error_text(d)));
        }
        assert(data@.take(4) =~= idx_header());
        self.version = be_u32_at(d, 4);
        let n = self.read_fanout(d);
        self.read_items(d, n);
        let t = 1032 + 28 * n;
        self.pack_signature = ID::from_bytes(vstd::slice::slice_subrange(d, t, t + 20));
        self.idx_signature = ID::from_bytes(vstd::slice::slice_subrange(d, t + 20, d.len()));
        assert(d@.subrange(t + 20, d@.len() as int) =~= data@.skip(t + 20));
        Ok(())
    }

    /// Reads the fan-out table of `d` into the prefix table and the number of
    /// objects; returns the number of objects of the index.
    fn read_fanout(&mut self, d: &[u8]) -> (n: usize)
        requires
            d@.len() >= 1032,
            forall|j: int| 0 <= j < 256 ==> fanout_prev(d@, j) <= #[trigger] fanout(d@, j),
        ensures
            n == idx_count(d@),
            prefix_view(final(self).map_of_prefix@) == prefix_upto(
                prefix_view(old(self).map_of_prefix@),
                d@,
                256,
            ),
            final(self).number_of_objects == (if n != 0 {
                n as nat
            } else {
                old(self).number_of_objects as nat
            }),
            final(self).version == old(self).version,
            final(self).idx_items == old(self).idx_items,
            final(self).pack_signature == old(self).pack_signature,
            final(self).idx_signature == old(self).idx_signature,
    {
        let ghost old_view = prefix_view(self.map_of_prefix@);
        let ghost old_count = self.number_of_objects;
        let mut n: usize = 0;
        let mut k: usize = 0;
        while k < 256
            invariant
                k <= 256,
                d@.len() >= 1032,
                forall|j: int| 0 <= j < 256 ==> fanout_prev(d@, j) <= #[trigger] fanout(d@, j),
                n == fanout_prev(d@, k as int),
                prefix_view(self.map_of_prefix@) == prefix_upto(old_view, d@, k as nat),
                self.number_of_objects == (if fanout_prev(d@, k as int) != 0 {
                    fanout_prev(d@, k as int)
                } else {
                    old_count as nat
                }),
                self.version == old(self).version,
                self.idx_items == old(self).idx_items,
                self.pack_signature == old(self).pack_signature,
                self.idx_signature == old(self).idx_signature,
                old_view == prefix_view(old(self).map_of_prefix@),
                old_count == old(self).number_of_objects,
            decreases 256 - k,
        {
            let m = be_u32_at(d, 8 + 4 * k) as usize;
            assert(fanout(d@, k as int) == m);
            assert(fanout_prev(d@, k + 1) == m);
            if m != n {
                let key = self.sha1_prefix(k);
                insert_prefix(&mut self.map_of_prefix, key, m - n);
                self.number_of_objects = m;
                n = m;
            }
            k = k + 1;
        }
        n
    }

    /// Appends the `n` objects of the index `d` to the held ones.
    fn read_items(&mut self, d: &[u8], n: usize)
        requires
            n == idx_count(d@),
            d@.len() >= trailer_start(n as nat) + 20,
        ensures
            final(self).idx_items@.len() == old(self).idx_items@.len() + n,
            forall|j: int| 0 <= j < old(self).idx_items@.len() ==> #[trigger] final(self).idx_items@[j] == old(
                self,
            ).idx_items@[j],
            forall|j: int|
                0 <= j < n ==> item_ok(#[trigger] final(self).idx_items@[old(self).idx_items@.len() + j], d@, n as nat, j),
            final(self).version == old(self).version,
            final(self).number_of_objects == old(self).number_of_objects,
            final(self).map_of_prefix == old(self).map_of_prefix,
            final(self).pack_signature == old(self).pack_signature,
            final(self).idx_signature == old(self).idx_signature,
    {
        let ghost k0 = self.idx_items@.len();
        let ghost before = self.idx_items@;
        let dl = d.len();
        assert(1032 + 28 * n + 20 <= dl);
        let crc0 = 1032 + 20 * n;
        let off0 = 1032 + 24 * n;
        let mut i: usize = 0;
        while i < n
            invariant
                n == idx_count(d@),
                off0 + 4 * n + 20 <= d.len(),
                crc0 == crc_start(n as nat),
                off0 == offsets_start(n as nat),
                crc0 + 4 * n == off0,
                i <= n,
                k0 == old(self).idx_items@.len(),
                before == old(self).idx_items@,
                self.idx_items@.len() == k0 + i,
                forall|j: int| 0 <= j < k0 ==> #[trigger] self.idx_items@[j] == before[j],
                forall|j: int| 0 <= j < i ==> item_ok(#[trigger] self.idx_items@[k0 + j], d@, n as nat, j),
                self.version == old(self).version,
                self.number_of_objects == old(self).number_of_objects,
                self.map_of_prefix == old(self).map_of_prefix,
                self.pack_signature == old(self).pack_signature,
                self.idx_signature == old(self).idx_signature,
            decreases n - i,
        {
            let id = ID::from_bytes(vstd::slice::slice_subrange(d, 1032 + 20 * i, 1052 + 20 * i));
            let crc32 = hex_string(vstd::slice::slice_subrange(d, crc0 + 4 * i, crc0 + 4 * i + 4));
            let offset = be_u32_at(d, off0 + 4 * i) as usize;
            let item = IdxItem { id, crc32, offset };
            assert(item_ok(item, d@, n as nat, i as int));
            self.idx_items.push(item);
            assert(self.idx_items@[k0 + i] == item);
            i = i + 1;
        }
    }

    /// The text of the first id byte `n`: its hexadecimal digits, with a
    /// leading zero when there is one digit.
    pub fn sha1_prefix(&self, n: usize) -> (res: String)
        ensures
            res@ == ascii_chars(zero_pad(hex_text(n as nat), 2)),
    {
        ascii_string(zero_padded_hex(n as u64, 2))
    }
}

impl IdxItem {
    /// The text of the entry: its offset, its id and, in parentheses, its
    /// checksum.
    pub fn to_string(&self) -> (res: String)
        ensures
            res@ == ascii_chars(decimal(self.offset as nat)) + " "@ + self.id.hash@ + " ("@
                + self.crc32@ + ")"@,
    {
        let mut r = crate::text::decimal_string(self.offset as u64);
        r.append(" ");
        r.append(self.id.hash.as_str());
        r.append(" (");
        r.append(self.crc32.as_str());
        r.append(")");
        r
    }
}

} // verus!
