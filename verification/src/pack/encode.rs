//! Writing a pack file from objects.

use vstd::prelude::*;

use crate::hash::sha1_digest;
use crate::object::metadata::{is_new_metadata, pack_object_header, Metadata};
use crate::object::types::{is_base_type, type_number, ObjectType};
use crate::pack::cache::{lists_each_once, objects_view};
use crate::pack::{pack_magic, Pack};
use crate::text::push_all;
use crate::object::metadata::object_hash;
use crate::object::Object;
use crate::pack::cache::cache_empty;
use crate::pack::roundtrip::{
    insert_all, lemma_insert_all_hashes, lemma_pack_roundtrip, pack_body, packable, starts_below_4g,
};
use crate::pack::{pack_outcome, PackOutcome};
use crate::zlib::{inflates_back, zlib_deflate};

verus! {

/// The entry of an object in a pack: its type-and-size header, the delta
/// header of a delta, then its data as a zlib stream.
pub open spec fn meta_entry(m: Metadata) -> Seq<u8> {
    pack_object_header(type_number(m.t), m.size as u64) + (if m.t is OffsetDelta || m.t is HashDelta {
        m.delta_header@
    } else {
        Seq::<u8>::empty()
    }) + zlib_deflate(m.data@)
}

/// The entries of `ms`, one after the other.
pub open spec fn entries_bytes(ms: Seq<Metadata>) -> Seq<u8>
    decreases ms.len(),
{
    if ms.len() == 0 {
        Seq::empty()
    } else {
        entries_bytes(ms.drop_last()) + meta_entry(ms.last())
    }
}

/// The entry of a whole object of type `t` with `contents`.
pub open spec fn object_entry(t: ObjectType, contents: Seq<u8>) -> Seq<u8> {
    pack_object_header(type_number(t), contents.len() as u64) + zlib_deflate(contents)
}

/// The entries of the whole objects `objs`, one after the other.
pub open spec fn objects_bytes(objs: Seq<(ObjectType, Seq<u8>)>) -> Seq<u8>
    decreases objs.len(),
{
    if objs.len() == 0 {
        Seq::empty()
    } else {
        objects_bytes(objs.drop_last()) + object_entry(objs.last().0, objs.last().1)
    }
}

/// Four bytes of `n` in network byte order.
pub open spec fn be32_bytes(n: u32) -> Seq<u8> {
    seq![(n >> 24u32) as u8, ((n >> 16u32) & 0xff) as u8, ((n >> 8u32) & 0xff) as u8, (n & 0xff) as u8]
}

/// A pack of `count` objects whose entries are `entries`: the magic, the
/// version 2, the count, the entries, then the digest of all of these.
pub open spec fn pack_file_bytes(count: u32, entries: Seq<u8>) -> Seq<u8> {
    let body = pack_magic() + seq![0u8, 0u8, 0u8, 2u8] + be32_bytes(count) + entries;
    body + sha1_digest(body)
}

proof fn lemma_entries_push(ms: Seq<Metadata>, m: Metadata)
    ensures
        entries_bytes(ms.push(m)) == entries_bytes(ms) + meta_entry(m),
{
    assert(ms.push(m).drop_last() =~= ms);
}

proof fn lemma_objects_push(objs: Seq<(ObjectType, Seq<u8>)>, o: (ObjectType, Seq<u8>))
    ensures
        objects_bytes(objs.push(o)) == objects_bytes(objs) + object_entry(o.0, o.1),
{
    assert(objs.push(o).drop_last() =~= objs);
}

/// Whole objects that a pack written from them carries back: each below 2^61
/// bytes, and each entry starting below 2^32, the decoder's own limit.
pub open spec fn decodable_sizes(objs: Seq<(ObjectType, Seq<u8>)>) -> bool {
    &&& forall|i: int| 0 <= i < objs.len() ==> (#[trigger] objs[i]).1.len() < 0x2000_0000_0000_0000
    &&& starts_below_4g(objs, 12)
}

/// Writes the header of a pack of `count` objects.
fn pack_header(count: u32) -> (res: Vec<u8>)
    ensures
        res@ == pack_magic() + seq![0u8, 0u8, 0u8, 2u8] + be32_bytes(count),
{
    let mut result: Vec<u8> = vec![0x50, 0x41, 0x43, 0x4b, 0, 0, 0, 2];
    result.push((count >> 24) as u8);
    result.push(((count >> 16) & 0xff) as u8);
    result.push(((count >> 8) & 0xff) as u8);
    result.push((count & 0xff) as u8);
    assert(result@ =~= pack_magic() + seq![0u8, 0u8, 0u8, 2u8] + be32_bytes(count));
    result
}

impl Pack {
    /// Writes the objects `meta_vec` as a pack file: the header, the entry of
    /// each object, and the digest of all before it.
    pub fn encode_metadata(meta_vec: &Vec<Metadata>) -> (res: Vec<u8>)
        requires
            meta_vec@.len() < 0x1_0000_0000,
        ensures
            res@ == pack_file_bytes(meta_vec@.len() as u32, entries_bytes(meta_vec@)),
            res@.len() == 32 + entries_bytes(meta_vec@).len(),
            forall|i: int| 0 <= i < meta_vec@.len() ==> inflates_back(#[trigger] meta_vec@[i].data@),
    {
        let mut result = pack_header(meta_vec.len() as u32);
        let ghost head = result@;
        let mut i: usize = 0;
        assert(meta_vec@.take(0) =~= Seq::<Metadata>::empty());
        while i < meta_vec.len()
            invariant
                i <= meta_vec@.len(),
                result@ == head + entries_bytes(meta_vec@.take(i as int)),
                head.len() == 12,
                forall|j: int| 0 <= j < i ==> inflates_back(#[trigger] meta_vec@[j].data@),
            decreases meta_vec@.len() - i,
        {
            let entry = match meta_vec[i].convert_to_vec() {
                Ok(v) => v,
                Err(_) => Vec::new(),
            };
            push_all(&mut result, entry.as_slice());
            proof {
                assert(meta_vec@.take(i + 1) =~= meta_vec@.take(i as int).push(meta_vec@[i as int]));
                lemma_entries_push(meta_vec@.take(i as int), meta_vec@[i as int]);
            }
            i = i + 1;
        }
        assert(meta_vec@.take(i as int) =~= meta_vec@);
        let checksum = crate::hash::Hash::new(&result);
        let ghost body = result@;
        push_all(&mut result, &checksum.0);
        assert(result@ =~= body + sha1_digest(body));
        assert(checksum.0@.len() == 20);
        result
    }

    /// Writes a pack file: of the objects `meta_vec` when given, else of the
    /// objects this pack holds, each id once.
    pub fn encode(&self, meta_vec: Option<Vec<Metadata>>) -> (res: Vec<u8>)
        requires
            self.result.wf(),
            meta_vec matches Some(v) ==> v@.len() < 0x1_0000_0000,
            meta_vec is None ==> self.result.model().hashes.dom().len() < 0x1_0000_0000,
        ensures
            meta_vec matches Some(v) ==> res@ == pack_file_bytes(v@.len() as u32, entries_bytes(v@)),
            meta_vec is None ==> exists|objs: Seq<(ObjectType, Seq<u8>)>|
                lists_each_once(objs, self.result.model().hashes) && res@ == pack_file_bytes(
                    objs.len() as u32,
                    objects_bytes(objs),
                ) && (decodable_sizes(objs) ==> forall|loose: Seq<Object>|
                    #[trigger] pack_outcome(res@, loose) matches PackOutcome::Decoded(n, c, _) && n
                        == objs.len() && c.hashes == self.result.model().hashes),
    {
        match meta_vec {
            Some(v) => Pack::encode_metadata(&v),
            None => {
                let objs = self.result.distinct_objects();
                let ghost ov = objects_view(objs@);
                proof {
                    crate::pack::cache::lemma_lists_count(ov, self.result.model().hashes);
                }
                let mut metas: Vec<Metadata> = Vec::new();
                let mut i: usize = 0;
                while i < objs.len()
                    invariant
                        i <= objs@.len(),
                        ov == objects_view(objs@),
                        forall|a: int| 0 <= a < objs@.len() ==> is_base_type(#[trigger] objs@[a].object_type),
                        metas@.len() == i,
                        entries_bytes(metas@) == objects_bytes(ov.take(i as int)),
                        forall|a: int| 0 <= a < i ==> (#[trigger] metas@[a]).data@ == ov[a].1,
                    decreases objs@.len() - i,
                {
                    let m = objs[i].to_metadata();
                    let ghost before = metas@;
                    metas.push(m);
                    proof {
                        assert(is_new_metadata(m, objs@[i as int].object_type, objs@[i as int].contents@));
                        lemma_entries_push(before, m);
                        assert(metas@ =~= before.push(m));
                        assert(ov.take(i + 1) =~= ov.take(i as int).push(ov[i as int]));
                        lemma_objects_push(ov.take(i as int), ov[i as int]);
                        assert(meta_entry(m) == object_entry(ov[i as int].0, ov[i as int].1));
                    }
                    i = i + 1;
                }
                assert(ov.take(i as int) =~= ov);
                let res = Pack::encode_metadata(&metas);
                proof {
                    let h = self.result.model().hashes;
                    if decodable_sizes(ov) {
                        assert(packable(ov)) by {
                            assert forall|a: int| 0 <= a < ov.len() implies is_base_type(#[trigger] ov[a].0)
                                && ov[a].1.len() < 0x2000_0000_0000_0000 && inflates_back(ov[a].1) by {
                                assert(metas@[a].data@ == ov[a].1);
                                assert(inflates_back(metas@[a].data@));
                            }
                        }
                        let body = pack_body(ov);
                        let sig = sha1_digest(body);
                        assert(res@ =~= body + sig);
                        assert forall|loose: Seq<Object>| #[trigger] pack_outcome(res@, loose) matches PackOutcome::Decoded(
                            n,
                            c,
                            _,
                        ) && n == ov.len() && c.hashes == h by {
                            lemma_pack_roundtrip(ov, sig, loose);
                            lemma_insert_all_hashes(cache_empty(), ov, 12);
                            let c = insert_all(cache_empty(), ov, 12);
                            assert(c.hashes =~= h) by {
                                assert forall|k: Seq<u8>| c.hashes.contains_key(k) <==> h.contains_key(k) by {
                                    if h.contains_key(k) {
                                        assert(exists|a: int| 0 <= a < ov.len() && object_hash(ov[a].0, #[trigger] ov[a].1) == k);
                                    }
                                }
                                assert forall|k: Seq<u8>| c.hashes.contains_key(k) implies c.hashes[k] == h[k] by {
                                    let a = choose|a: int| 0 <= a < ov.len() && object_hash(ov[a].0, ov[a].1) == k;
                                    assert(c.hashes[object_hash(ov[a].0, ov[a].1)] == ov[a]);
                                }
                            }
                        }
                    }
                }
                res
            },
        }
    }
}

} // verus!
