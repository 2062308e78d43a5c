//! The metadata of a git object: its type, id, size and data, and the two
//! byte forms in which it is stored: loose, and as an entry of a pack.

use vstd::prelude::*;
use vstd::utf8::*;

use crate::errors::{GitError, GustError};
use crate::hash::{sha1, sha1_digest, HashType};
use crate::object::types::{is_base_type, kind_name, type_number, ObjectType};
use crate::text::{
    copy_range, decimal, decimal_bytes, find_byte, lemma_decimal_digits, push_all, string_from_utf8,
};
use crate::utils::{
    base128_encode, first_index_of, le_base128, lemma_first_index_of, lemma_shr7_decreases,
    lemma_size_encoding_roundtrip, varint_len,
};
use crate::zlib::{inflates_back, zlib_compress, zlib_decompress, zlib_deflate, zlib_inflate};

verus! {

/// The header of the stored form of an object: its type name, a space, the
/// decimal length of its data and a NUL byte.
pub open spec fn object_header(t: ObjectType, len: nat) -> Seq<u8> {
    kind_name(t) + seq![0x20u8] + decimal(len) + seq![0u8]
}

/// The id of an object: the digest of its header and data.
pub open spec fn object_hash(t: ObjectType, data: Seq<u8>) -> Seq<u8> {
    sha1_digest(object_header(t, data.len()) + data)
}

/// The metadata of git object.
#[derive(PartialEq, Eq, Debug, Hash, Ord, PartialOrd, Clone)]
pub struct Metadata {
    pub t: ObjectType,
    pub h: HashType,
    pub id: crate::hash::Hash,
    pub size: usize,
    pub data: Vec<u8>,
    pub delta_header: Vec<u8>,
}

/// `m` is the metadata that `Metadata::new` builds for an object of type `t`
/// with `data`.
pub open spec fn is_new_metadata(m: Metadata, t: ObjectType, data: Seq<u8>) -> bool {
    &&& m.t == t
    &&& m.h == HashType::Sha1
    &&& m.id.0@ == object_hash(t, data)
    &&& m.size == data.len()
    &&& m.data@ == data
    &&& m.delta_header@ == Seq::<u8>::empty()
}

/// A copy of the bytes of `v`.
pub fn copy_vec(v: &Vec<u8>) -> (res: Vec<u8>)
    ensures
        res@ == v@,
{
    copy_range(v.as_slice(), 0, v.len())
}

/// The header of the stored form of an object of type `t` with `len` bytes.
pub fn object_header_bytes(t: ObjectType, len: usize) -> (res: Vec<u8>)
    ensures
        res@ == object_header(t, len as nat),
{
    let mut out = t.to_bytes();
    out.push(0x20);
    let digits = decimal_bytes(len as u64);
    push_all(&mut out, digits.as_slice());
    out.push(0);
    out
}

impl crate::hash::Hash {
    /// The id of the object that `meta` describes.
    pub fn from_meta(meta: &Metadata) -> (res: crate::hash::Hash)
        requires
            is_base_type(meta.t),
        ensures
            res.0@ == object_hash(meta.t, meta.data@),
    {
        let mut stored = object_header_bytes(meta.t, meta.data.len());
        push_all(&mut stored, meta.data.as_slice());
        crate::hash::Hash(sha1(stored.as_slice()))
    }
}

/// The first byte of the header of a packed object: the continuation flag,
/// the type number in bits 4 to 6 and the low four bits of the size.
pub open spec fn pack_header_first(tn: u8, size: u64) -> u8 {
    ((0x80u8 | (tn << 4u8)) + ((size & 0x0f) as u8)) as u8
}

/// The bytes after the first of the header of a packed object: the rest of
/// the size as a size encoding, or one zero byte when the rest is zero.
pub open spec fn pack_size_rest(m: u64) -> Seq<u8> {
    if m == 0 {
        seq![0u8]
    } else {
        base128_encode(m)
    }
}

/// The header of a packed object of type number `tn` and `size` bytes.
pub open spec fn pack_object_header(tn: u8, size: u64) -> Seq<u8> {
    seq![pack_header_first(tn, size)] + pack_size_rest(size >> 4u64)
}

/// The first bytes of the stored form of a loose object that `decoded`
/// holds parse: a space, then a NUL after it, between them a size that
/// `str::parse::<usize>` accepts, and before the space valid UTF-8.
pub open spec fn loose_parsable(decoded: Seq<u8>) -> bool {
    &&& first_index_of(decoded, 0x20) is Some
    &&& first_index_of(decoded, 0) is Some
    &&& first_index_of(decoded, 0).unwrap() > first_index_of(decoded, 0x20).unwrap()
    &&& parse_usize_spec(
        decoded.subrange(
            first_index_of(decoded, 0x20).unwrap() + 1,
            first_index_of(decoded, 0).unwrap(),
        ),
    ) is Some
    &&& valid_utf8(decoded.subrange(0, first_index_of(decoded, 0x20).unwrap()))
}

/// The type name of a loose object: the bytes before the first space.
pub open spec fn loose_type_name(decoded: Seq<u8>) -> Seq<u8> {
    decoded.subrange(0, first_index_of(decoded, 0x20).unwrap())
}

/// The data of a loose object: the bytes after the first NUL.
pub open spec fn loose_data(decoded: Seq<u8>) -> Seq<u8> {
    decoded.subrange(first_index_of(decoded, 0).unwrap() + 1, decoded.len() as int)
}

/// The value of decimal digits.
pub open spec fn digits_value(s: Seq<u8>) -> nat
    decreases s.len(),
{
    if s.len() == 0 {
        0
    } else {
        digits_value(s.drop_last()) * 10 + (s.last() - 0x30) as nat
    }
}

/// Every byte is a decimal digit.
pub open spec fn all_digits(s: Seq<u8>) -> bool {
    forall|i: int| 0 <= i < s.len() ==> 0x30 <= #[trigger] s[i] <= 0x39
}

/// What `parse_decimal` makes of `s`: the value of its digits when every
/// byte is a digit and the value fits a `usize`.
pub open spec fn decimal_parse(s: Seq<u8>) -> Option<nat> {
    if all_digits(s) && digits_value(s) <= usize::MAX {
        Some(digits_value(s))
    } else {
        None
    }
}

/// What `str::parse::<usize>` makes of the characters of `s`: an optional
/// plus sign, then at least one digit, with a value that fits a `usize`.
pub open spec fn parse_usize_spec(s: Seq<u8>) -> Option<nat> {
    let d = if s.len() > 0 && s[0] == 0x2b {
        s.drop_first()
    } else {
        s
    };
    if d.len() > 0 {
        decimal_parse(d)
    } else {
        None
    }
}

/// Parses decimal digits with no sign; no digits give zero.
pub fn parse_decimal(decimal_str: &[u8]) -> (res: Option<usize>)
    ensures
        match decimal_parse(decimal_str@) {
            Some(v) => res == Some(v as usize),
            None => res is None,
        },
{
    let mut value: usize = 0;
    let mut i: usize = 0;
    while i < decimal_str.len()
        invariant
            i <= decimal_str@.len(),
            all_digits(decimal_str@.subrange(0, i as int)),
            value == digits_value(decimal_str@.subrange(0, i as int)),
        decreases decimal_str@.len() - i,
    {
        let ghost pre = decimal_str@.subrange(0, i as int);
        let ghost next = decimal_str@.subrange(0, i + 1);
        assert(next.drop_last() =~= pre);
        let char_value = match decimal_char_value(decimal_str[i]) {
            Some(v) => v,
            None => {
                assert(!all_digits(decimal_str@)) by {
                    assert(decimal_str@[i as int] == decimal_str@[i as int]);
                }
                return None;
            },
        };
        let m = value.checked_mul(10);
        let m = match m {
            Some(m) => m,
            None => {
                proof {
                    if all_digits(decimal_str@) {
                        lemma_digits_value_prefix(decimal_str@, i + 1);
                    }
                }
                return None;
            },
        };
        value = match m.checked_add(char_value as usize) {
            Some(v) => v,
            None => {
                proof {
                    if all_digits(decimal_str@) {
                        lemma_digits_value_prefix(decimal_str@, i + 1);
                    }
                }
                return None;
            },
        };
        i = i + 1;
        assert(all_digits(decimal_str@.subrange(0, i as int)));
    }
    assert(decimal_str@.subrange(0, i as int) =~= decimal_str@);
    Some(value)
}

/// A prefix of digits has no larger a value than the whole.
proof fn lemma_digits_value_prefix(s: Seq<u8>, k: int)
    requires
        0 <= k <= s.len(),
        all_digits(s),
    ensures
        digits_value(s.subrange(0, k)) <= digits_value(s),
        all_digits(s.subrange(0, k)),
    decreases s.len() - k,
{
    if k < s.len() {
        lemma_digits_value_prefix(s, k + 1);
        assert(s.subrange(0, k + 1).drop_last() =~= s.subrange(0, k));
    } else {
        assert(s.subrange(0, k) =~= s);
    }
}

/// The value of a decimal digit.
pub fn decimal_char_value(decimal_char: u8) -> (res: Option<u8>)
    ensures
        (0x30 <= decimal_char <= 0x39) ==> res == Some((decimal_char - 0x30) as u8),
        !(0x30 <= decimal_char <= 0x39) ==> res is None,
{
    if 0x30 <= decimal_char && decimal_char <= 0x39 {
        Some(decimal_char - 0x30)
    } else {
        None
    }
}

/// Parses a size as `str::parse::<usize>` does.
pub fn parse_usize(s: &[u8]) -> (res: Option<usize>)
    ensures
        match parse_usize_spec(s@) {
            Some(v) => res == Some(v as usize),
            None => res is None,
        },
{
    let start: usize = if s.len() > 0 && s[0] == 0x2b {
        1
    } else {
        0
    };
    if start >= s.len() {
        return None;
    }
    let digits = copy_range(s, start, s.len());
    if start == 1 {
        assert(digits@ =~= s@.drop_first());
    } else {
        assert(digits@ =~= s@);
    }
    parse_decimal(digits.as_slice())
}

impl Metadata {
    /// The id of the object.
    pub fn hash(&self) -> (res: crate::hash::Hash)
        requires
            is_base_type(self.t),
        ensures
            res.0@ == object_hash(self.t, self.data@),
    {
        crate::hash::Hash::from_meta(&self)
    }

    /// The metadata of an object of type `object_type` with `data`, with its
    /// id computed.
    pub fn new(object_type: ObjectType, data: &Vec<u8>) -> (res: Metadata)
        requires
            is_base_type(object_type),
        ensures
            is_new_metadata(res, object_type, data@),
    {
        let mut metadata = Metadata {
            t: object_type,
            h: HashType::Sha1,
            id: crate::hash::Hash::default(),
            size: data.len(),
            data: copy_vec(data),
            delta_header: Vec::new(),
        };
        metadata.id = metadata.hash();
        metadata
    }

    /// The entry of the object in a pack file: the type-and-size header, the
    /// delta header of a delta, then the data as a zlib stream.
    pub fn convert_to_vec(&self) -> (res: Result<Vec<u8>, GustError>)
        ensures
            res matches Ok(v) && v@ == pack_object_header(type_number(self.t), self.size as u64)
                + (if self.t is OffsetDelta || self.t is HashDelta {
                self.delta_header@
            } else {
                Seq::<u8>::empty()
            }) + zlib_deflate(self.data@),
            inflates_back(self.data@),
    {
        let tn = self.t.type2_number();
        let sz = self.size;
        assert(tn <= 7);
        let mut size = sz >> 4;
        let ghost rest = (sz as u64) >> 4u64;
        assert((0x80u8 | (tn << 4u8)) <= 0xf0 && (sz & 0x0f) <= 15 && size as u64 == rest && (sz
            & 0x0f) as u8 == ((sz as u64) & 0x0f) as u8) by (bit_vector)
            requires
                tn <= 7,
                size == sz >> 4usize,
                rest == (sz as u64) >> 4u64,
        ;
        let first = (0x80 | (tn << 4)) + (sz & 0x0f) as u8;
        let mut compressed_data: Vec<u8> = vec![first];
        if size > 0 {
            let ghost orig = size as u64;
            while size > 0
                invariant_except_break
                    size > 0,
                    compressed_data@.drop_first() + base128_encode(size as u64) == base128_encode(orig),
                invariant
                    compressed_data@.len() >= 1,
                    compressed_data@[0] == first,
                ensures
                    compressed_data@.drop_first() == base128_encode(orig),
                decreases size,
            {
                let ghost before = compressed_data@;
                let ghost su = size as u64;
                proof {
                    lemma_shr7_decreases(su);
                }
                assert((size >> 7usize > 0) == (su >> 7u64 > 0) && (0x80 | size) as u8 == ((su & 0x7f) as u8)
                    | 0x80 && (size >> 7usize) as u64 == su >> 7u64 && (!(su >> 7u64 > 0) ==> size as u8
                    == (su & 0x7f) as u8)) by (bit_vector)
                    requires
                        su == size as u64,
                ;
                if size >> 7 > 0 {
                    compressed_data.push((0x80 | size) as u8);
                    assert(compressed_data@.drop_first() + base128_encode(su >> 7u64) =~= before.drop_first() + base128_encode(su));
                    let s0 = size;
                    size >>= 7;
                } else {
                    compressed_data.push(size as u8);
                    assert(compressed_data@.drop_first() =~= before.drop_first() + base128_encode(su));
                    break ;
                }
            }
        } else {
            compressed_data.push(0);
        }
        assert(compressed_data@ =~= pack_object_header(tn, sz as u64));
        match self.t {
            ObjectType::OffsetDelta => {
                push_all(&mut compressed_data, self.delta_header.as_slice());
            },
            ObjectType::HashDelta => {
                push_all(&mut compressed_data, self.delta_header.as_slice());
            },
            _ => {},
        }
        let compressed = zlib_compress(self.data.as_slice());
        assert(inflates_back(self.data@)) by {
            assert forall|rest: Seq<u8>| #[trigger] zlib_inflate(zlib_deflate(self.data@) + rest) == Some(
                (self.data@, zlib_deflate(self.data@).len()),
            ) by {
                assert(zlib_inflate(compressed@ + rest) == Some((self.data@, compressed@.len())));
            }
        }
        push_all(&mut compressed_data, compressed.as_slice());
        Ok(compressed_data)
    }

    /// Makes the object a delta of kind `types` with instructions `changed`
    /// and delta header `header`.
    pub fn change_to_delta(&mut self, types: ObjectType, changed: Vec<u8>, header: Vec<u8>)
        ensures
            final(self).t == types,
            final(self).data@ == changed@,
            final(self).size == changed@.len(),
            final(self).delta_header@ == header@,
            final(self).id == old(self).id,
            final(self).h == old(self).h,
    {
        self.t = types;
        self.data = changed;
        self.size = self.data.len();
        self.delta_header = header;
    }

    /// The zlib stream of the stored form of a loose object: header and data.
    pub fn loose_object_bytes(&self) -> (res: Vec<u8>)
        ensures
            res@ == zlib_deflate(object_header(self.t, self.data@.len()) + self.data@),
    {
        let mut stored = object_header_bytes(self.t, self.data.len());
        push_all(&mut stored, self.data.as_slice());
        zlib_compress(stored.as_slice())
    }

    /// Parses the stored form of a loose object, header and data, and
    /// computes its id.
    pub fn parse_loose_object(decoded: &[u8]) -> (res: Result<Metadata, GitError>)
        requires
            loose_parsable(decoded@),
        ensures
            ({
                let name = loose_type_name(decoded@);
                match res {
                    Ok(m) => is_base_type(m.t) && kind_name(m.t) == name && is_new_metadata(
                        m,
                        m.t,
                        loose_data(decoded@),
                    ),
                    Err(e) => (e matches GitError::InvalidObjectType(s) && s@ == decode_utf8(name))
                        && forall|t: ObjectType| is_base_type(t) ==> kind_name(t) != name,
                }
            }),
    {
        let type_index = match find_byte(decoded, 0x20) {
            Some(i) => i,
            None => 0,
        };
        let size_index = match find_byte(decoded, 0) {
            Some(i) => i,
            None => 0,
        };
        proof {
            lemma_first_index_of(decoded@, 0x20);
            lemma_first_index_of(decoded@, 0);
        }
        assert(type_index as int == first_index_of(decoded@, 0x20).unwrap());
        assert(size_index as int == first_index_of(decoded@, 0).unwrap());
        let size_text = copy_range(decoded, type_index + 1, size_index);
        let _size = parse_usize(size_text.as_slice());
        assert(size_index < decoded.len());
        let data = copy_range(decoded, size_index + 1, decoded.len());
        let t = copy_range(decoded, 0, type_index);
        let name = match string_from_utf8(t) {
            Some(s) => s,
            None => String::new(),
        };
        proof {
            decode_utf8_encode_utf8(loose_type_name(decoded@));
        }
        match ObjectType::from_string(name.as_str()) {
            Ok(object_type) => Ok(Metadata::new(object_type, &data)),
            Err(e) => Err(e),
        }
    }

    /// Decompresses and parses a loose object; an error when the data is not
    /// a zlib stream or its header does not parse.
    pub fn read_object_from_data(compressed: &[u8]) -> (res: Result<Metadata, GitError>)
        ensures
            match zlib_inflate(compressed@) {
                None => res matches Err(GitError::Other(m)) && m@ == "corrupt deflate stream"@,
                Some((decoded, _)) => if loose_parsable(decoded) {
                    match res {
                        Ok(m) => is_base_type(m.t) && kind_name(m.t) == loose_type_name(decoded)
                            && is_new_metadata(m, m.t, loose_data(decoded)),
                        Err(e) => (e matches GitError::InvalidObjectType(s) && s@ == decode_utf8(
                            loose_type_name(decoded),
                        )) && forall|t: ObjectType|
                            is_base_type(t) ==> kind_name(t) != loose_type_name(decoded),
                    }
                } else {
                    res matches Err(GitError::InvalidObjectInfo(m)) && m@
                        == "invalid loose object header"@
                },
            },
    {
        let decoded = match zlib_decompress(compressed) {
            Some((d, _)) => d,
            None => {
                return Err(GitError::Other(String::from_str("corrupt deflate stream")));
            },
        };
        if !loose_parsable_exec(decoded.as_slice()) {
            return Err(GitError::InvalidObjectInfo(String::from_str("invalid loose object header")));
        }
        Metadata::parse_loose_object(decoded.as_slice())
    }
}

/// Whether the header of a loose object parses.
pub fn loose_parsable_exec(decoded: &[u8]) -> (res: bool)
    ensures
        res == loose_parsable(decoded@),
{
    proof {
        lemma_first_index_of(decoded@, 0x20);
        lemma_first_index_of(decoded@, 0);
    }
    let type_index = match find_byte(decoded, 0x20) {
        Some(i) => i,
        None => {
            return false;
        },
    };
    let size_index = match find_byte(decoded, 0) {
        Some(i) => i,
        None => {
            return false;
        },
    };
    assert(type_index as int == first_index_of(decoded@, 0x20).unwrap());
    assert(size_index as int == first_index_of(decoded@, 0).unwrap());
    if size_index <= type_index {
        return false;
    }
    let size_text = copy_range(decoded, type_index + 1, size_index);
    if parse_usize(size_text.as_slice()).is_none() {
        return false;
    }
    let t = copy_range(decoded, 0, type_index);
    string_from_utf8(t).is_some()
}

/// The first occurrence in `a + b` lies in `b` when `a` does not hold it.
pub proof fn lemma_first_index_of_concat(a: Seq<u8>, b: Seq<u8>, x: u8)
    requires
        forall|i: int| 0 <= i < a.len() ==> a[i] != x,
    ensures
        first_index_of(a + b, x) == (match first_index_of(b, x) {
            Some(j) => Some(j + a.len()),
            None => None::<int>,
        }),
    decreases a.len(),
{
    if a.len() == 0 {
        assert(a + b =~= b);
    } else {
        assert((a + b).drop_first() =~= a.drop_first() + b);
        lemma_first_index_of_concat(a.drop_first(), b, x);
    }
}

/// Decimal text reads back as its number.
pub proof fn lemma_decimal_value(n: nat)
    ensures
        all_digits(decimal(n)),
        digits_value(decimal(n)) == n,
        decimal(n).len() >= 1,
    decreases n,
{
    lemma_decimal_digits(n);
    if n >= 10 {
        lemma_decimal_value(n / 10);
        assert(decimal(n).drop_last() =~= decimal(n / 10));
        assert(decimal(n).last() == ((n % 10 + 0x30) as u8));
        assert(n % 10 < 10);
        assert((((n % 10 + 0x30) as u8) - 0x30) as nat == n % 10);
        assert(digits_value(decimal(n)) == digits_value(decimal(n / 10)) * 10 + n % 10);
        assert(n == (n / 10) * 10 + n % 10) by (nonlinear_arith);
    } else {
        assert(decimal(n).drop_last() =~= Seq::<u8>::empty());
        assert(decimal(n).last() == ((n + 0x30) as u8));
        assert(digits_value(decimal(n)) == digits_value(Seq::<u8>::empty()) * 10 + n);
    }
}

/// The stored form of an object parses back to its type and data: the first
/// space ends the type name, the first NUL ends the size, and the size is the
/// length of the data.
pub proof fn lemma_loose_roundtrip(t: ObjectType, data: Seq<u8>)
    requires
        is_base_type(t),
        data.len() <= usize::MAX,
    ensures
        loose_parsable(object_header(t, data.len()) + data),
        loose_type_name(object_header(t, data.len()) + data) == kind_name(t),
        loose_data(object_header(t, data.len()) + data) == data,
        parse_usize_spec(decimal(data.len())) == Some(data.len()),
{
    let n = data.len();
    let name = kind_name(t);
    let digits = decimal(n);
    let d = object_header(t, n) + data;
    lemma_decimal_value(n);
    assert(d =~= name + (seq![0x20u8] + digits + seq![0u8] + data));
    assert forall|i: int| 0 <= i < name.len() implies name[i] != 0x20 && name[i] != 0 && name[i]
        < 0x80 by {}
    lemma_first_index_of_concat(name, seq![0x20u8] + digits + seq![0u8] + data, 0x20);
    assert(first_index_of(seq![0x20u8] + digits + seq![0u8] + data, 0x20) == Some(0int));
    let pre = name + seq![0x20u8] + digits;
    assert(d =~= pre + (seq![0u8] + data));
    assert forall|i: int| 0 <= i < pre.len() implies pre[i] != 0 by {
        if i >= name.len() + 1 {
            assert(pre[i] == digits[i - name.len() - 1]);
        }
    }
    lemma_first_index_of_concat(pre, seq![0u8] + data, 0);
    assert(first_index_of(seq![0u8] + data, 0) == Some(0int));
    assert(d.subrange(name.len() + 1int, pre.len() as int) =~= digits);
    assert(digits[0] != 0x2b);
    assert(d.subrange(0, name.len() as int) =~= name);
    crate::text::lemma_ascii_utf8(name);
    assert(d.subrange(pre.len() + 1int, d.len() as int) =~= data);
}

/// The header of a packed object reads back, as a size encoding of at most
/// ten bytes, as its type number and size, for sizes below 2^61.
pub proof fn lemma_pack_header_roundtrip(tn: u8, size: u64)
    requires
        tn <= 7,
        size < 0x2000_0000_0000_0000,
    ensures
        ({
            let h = pack_object_header(tn, size);
            let v = le_base128(h);
            &&& 1 <= h.len() <= 10
            &&& varint_len(h) == h.len()
            &&& ((v >> 4u64) & 7) as u8 == tn
            &&& (v & 0xf) | ((v >> 7u64) << 4u64) == size
        }),
{
    let h = pack_object_header(tn, size);
    let b0 = pack_header_first(tn, size);
    let m = size >> 4u64;
    let rest = pack_size_rest(m);
    let vv = ((b0 & 0x7f) as u64) | (m << 7u64);
    assert((0u8 & 0x7f) as u64 | (0u64 << 7u64) == 0 && m >> 56u64 < 128 && b0 >= 0x80 && (b0 & 0x7f)
        as u64 == ((tn as u64) << 4u64) | (size & 0xf) && ((vv >> 4u64) & 7) as u8 == tn && (vv & 0xf) | ((vv
        >> 7u64) << 4u64) == size) by (bit_vector)
        requires
            m == size >> 4u64,
            b0 == ((0x80u8 | (tn << 4u8)) + ((size & 0x0f) as u8)) as u8,
            vv == ((b0 & 0x7f) as u64) | (m << 7u64),
            tn <= 7,
            size < 0x2000_0000_0000_0000,
    ;
    assert(h.drop_first() =~= rest);
    assert(h[0] == b0);
    let r: u64 = if m == 0 {
        0
    } else {
        m
    };
    if m == 0 {
        assert(rest =~= seq![0u8]);
        assert(rest.drop_first() =~= Seq::<u8>::empty());
        assert(varint_len(rest) == 1);
        assert(le_base128(rest.drop_first()) == 0);
        assert(le_base128(rest) == 0);
    } else {
        lemma_size_encoding_roundtrip(m);
        crate::utils::lemma_base128_encode_len_pub(m, 8);
    }
    assert(le_base128(rest) == m);
    let v = le_base128(h);
    assert(v == vv);
}

} // verus!
