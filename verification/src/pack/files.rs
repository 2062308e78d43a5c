//! Finding the pack files of a pack directory by their names, which read
//! `pack-<40 hexadecimal digits>.pack`.

use vstd::prelude::*;
use vstd::utf8::*;

use crate::text::{all_ascii, ascii_chars, ascii_string, copy_range, hex_decode};

verus! {

/// The bytes `pack`.
pub open spec fn pack_suffix() -> Seq<u8> {
    seq![0x70u8, 0x61, 0x63, 0x6b]
}

/// A file name, as bytes, that ends in `pack`.
pub open spec fn is_pack_name(b: Seq<u8>) -> bool {
    b.len() >= 4 && b.subrange(b.len() - 4, b.len() as int) == pack_suffix()
}

/// The text of the id in a pack file name: its bytes 5 to 45.
pub open spec fn name_hash_text(b: Seq<u8>) -> Seq<u8> {
    b.subrange(5, 45)
}

/// A name that the directory scan accepts: longer than 25 bytes, and for a
/// pack file the 40 bytes after the first five are the hexadecimal text of
/// an id.
pub open spec fn name_ok(b: Seq<u8>) -> bool {
    &&& b.len() > 25
    &&& is_pack_name(b) ==> (b.len() >= 45 && (hex_decode(name_hash_text(b)) matches Some(h)
        && h.len() == 20))
}

/// The pack files among `names`: the index of each and the id its name
/// holds, in the order of `names`.
pub open spec fn pack_entries(names: Seq<Seq<u8>>) -> Seq<(nat, Seq<u8>)>
    decreases names.len(),
{
    if names.len() == 0 {
        seq![]
    } else {
        let prev = pack_entries(names.drop_last());
        let b = names.last();
        if is_pack_name(b) {
            prev.push(((names.len() - 1) as nat, hex_decode(name_hash_text(b)).unwrap()))
        } else {
            prev
        }
    }
}

/// The names as bytes.
pub open spec fn names_bytes(names: Seq<String>) -> Seq<Seq<u8>> {
    Seq::new(names.len(), |i: int| encode_utf8(names[i]@))
}

/// The text of the id in the name of a pack file: the 40 bytes after the
/// first five.
pub fn get_hash_form_filename(filename: &str) -> (res: String)
    requires
        encode_utf8(filename@).len() >= 45,
        all_ascii(name_hash_text(encode_utf8(filename@))),
    ensures
        res@ == ascii_chars(name_hash_text(encode_utf8(filename@))),
{
    let b = filename.as_bytes();
    let part = copy_range(b, 5, 45);
    ascii_string(part)
}

/// Whether the file name `b` ends in `pack`.
pub fn ends_in_pack(b: &[u8]) -> (res: bool)
    ensures
        res == is_pack_name(b@),
{
    let n = b.len();
    if n < 4 {
        return false;
    }
    let r = b[n - 4] == 0x70 && b[n - 3] == 0x61 && b[n - 2] == 0x63 && b[n - 1] == 0x6b;
    if r {
        assert(b@.subrange(n - 4, n as int) =~= pack_suffix());
    } else {
        assert(b@.subrange(n - 4, n as int) != pack_suffix()) by {
            let t = b@.subrange(n - 4, n as int);
            if t == pack_suffix() {
                assert(t[0] == b@[n - 4]);
                assert(t[1] == b@[n - 3]);
                assert(t[2] == b@[n - 2]);
                assert(t[3] == b@[n - 1]);
            }
        }
    }
    r
}

/// The pack files among the names of a directory's files: the index of each
/// name that ends in `pack` and the id that name holds.
pub fn find_pack_files(names: &Vec<String>) -> (res: Vec<(usize, crate::hash::Hash)>)
    requires
        forall|i: int| 0 <= i < names@.len() ==> name_ok(#[trigger] encode_utf8(names@[i]@)),
    ensures
        ({
            let e = pack_entries(names_bytes(names@));
            &&& res@.len() == e.len()
            &&& forall|k: int| 0 <= k < e.len() ==> res@[k].0 == e[k].0 && (#[trigger] res@[k]).1.0@
                == e[k].1
        }),
{
    let ghost all = names_bytes(names@);
    let mut out: Vec<(usize, crate::hash::Hash)> = Vec::new();
    let mut i: usize = 0;
    assert(all.subrange(0, 0) =~= Seq::<Seq<u8>>::empty());
    while i < names.len()
        invariant
            i <= names@.len(),
            all == names_bytes(names@),
            forall|j: int| 0 <= j < names@.len() ==> name_ok(#[trigger] encode_utf8(names@[j]@)),
            out@.len() == pack_entries(all.subrange(0, i as int)).len(),
            forall|k: int| 0 <= k < out@.len() ==> out@[k].0 == pack_entries(all.subrange(0, i as int))[k].0
                && (#[trigger] out@[k]).1.0@ == pack_entries(all.subrange(0, i as int))[k].1,
        decreases names@.len() - i,
    {
        let b = names[i].as_str().as_bytes();
        assert(b@ == all[i as int]);
        assert(name_ok(encode_utf8(names@[i as int]@)));
        let ghost prefix = all.subrange(0, i + 1);
        assert(prefix.drop_last() =~= all.subrange(0, i as int));
        assert(prefix.last() == b@);
        if ends_in_pack(b) {
            let text = copy_range(b, 5, 45);
            let h = match crate::hash::Hash::from_bytes(text.as_slice()) {
                Some(h) => h,
                None => crate::hash::Hash([0u8; 20]),
            };
            out.push((i, h));
        }
        i = i + 1;
    }
    assert(all.subrange(0, i as int) =~= all);
    out
}

} // verus!
