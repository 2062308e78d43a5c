//! What a pack written from whole objects reads back as.

use vstd::prelude::*;

use crate::object::Object;
use crate::object::metadata::{lemma_pack_header_roundtrip, object_hash, pack_object_header};
use crate::object::types::{is_base_type, number_to_type, type_number, ObjectType};
use crate::pack::cache::{cache_empty, cache_insert, CacheModel};
use crate::pack::encode::{be32_bytes, object_entry, objects_bytes};
use crate::pack::{decode_objects, object_at, pack_magic, pack_outcome, PackDecode, PackOutcome, PackRead};
use crate::utils::{be_u32, le_base128, varint_len};
use crate::zlib::{inflates_back, zlib_deflate, zlib_inflate};

verus! {

/// The cache `c` with each object of `objs` recorded: the first at offset
/// `pos`, each next one where the entry of the one before it ends.
pub open spec fn insert_all(c: CacheModel, objs: Seq<(ObjectType, Seq<u8>)>, pos: nat) -> CacheModel
    decreases objs.len(),
{
    if objs.len() == 0 {
        c
    } else {
        insert_all(
            cache_insert(c, pos as u64, objs[0].0, objs[0].1),
            objs.drop_first(),
            pos + object_entry(objs[0].0, objs[0].1).len(),
        )
    }
}

/// Whole objects that a pack carries and reads back: of a base type, below
/// 2^61 bytes, with a zlib stream that reads back.
pub open spec fn packable(objs: Seq<(ObjectType, Seq<u8>)>) -> bool {
    forall|i: int|
        0 <= i < objs.len() ==> is_base_type(#[trigger] objs[i].0) && objs[i].1.len()
            < 0x2000_0000_0000_0000 && inflates_back(objs[i].1)
}

/// Every entry of `objs` starts below 2^32 when the entries begin at `pos`.
pub open spec fn starts_below_4g(objs: Seq<(ObjectType, Seq<u8>)>, pos: nat) -> bool {
    forall|k: int| 0 <= k < objs.len() ==> pos + (#[trigger] objects_bytes(objs.take(k))).len() < 0x1_0000_0000
}

/// The body of a pack of the whole objects `objs`: magic, version 2, the
/// number of objects, and their entries.
pub open spec fn pack_body(objs: Seq<(ObjectType, Seq<u8>)>) -> Seq<u8> {
    pack_magic() + seq![0u8, 0u8, 0u8, 2u8] + be32_bytes(objs.len() as u32) + objects_bytes(objs)
}

/// The entries of objects, taken from the front.
pub proof fn lemma_objects_bytes_front(objs: Seq<(ObjectType, Seq<u8>)>)
    requires
        objs.len() > 0,
    ensures
        objects_bytes(objs) == object_entry(objs[0].0, objs[0].1) + objects_bytes(objs.drop_first()),
    decreases objs.len(),
{
    if objs.len() == 1 {
        assert(objs.drop_last() =~= Seq::<(ObjectType, Seq<u8>)>::empty());
        assert(objs.drop_first() =~= Seq::<(ObjectType, Seq<u8>)>::empty());
        assert(objects_bytes(objs) =~= object_entry(objs[0].0, objs[0].1) + objects_bytes(objs.drop_first()));
    } else {
        let d = objs.drop_last();
        lemma_objects_bytes_front(d);
        assert(objs.drop_first().drop_last() =~= d.drop_first());
        assert(objs.drop_first().last() == objs.last());
        assert(d[0] == objs[0]);
        assert(objects_bytes(objs) =~= object_entry(objs[0].0, objs[0].1) + objects_bytes(objs.drop_first()));
    }
}

/// A group sequence that fills `h` is read the same with bytes after it.
proof fn lemma_varint_prefix(h: Seq<u8>, t: Seq<u8>)
    requires
        h.len() >= 1,
        varint_len(h) == h.len(),
    ensures
        varint_len(h + t) == h.len(),
    decreases h.len(),
{
    assert((h + t)[0] == h[0]);
    if h[0] >= 0x80 {
        assert(varint_len(h.drop_first()) == h.len() - 1);
        lemma_varint_prefix(h.drop_first(), t);
        assert((h + t).drop_first() =~= h.drop_first() + t);
    }
}

/// The four bytes of `n` read back as `n`.
proof fn lemma_be32(n: u32)
    ensures
        be_u32(be32_bytes(n)) == n,
{
    let b = be32_bytes(n);
    assert(b[0] as int * 0x1000000 + b[1] as int * 0x10000 + b[2] as int * 0x100 + b[3] as int == n) by {
        assert((n >> 24u32) as u8 as int * 0x1000000 + ((n >> 16u32) & 0xff) as u8 as int * 0x10000 + ((n
            >> 8u32) & 0xff) as u8 as int * 0x100 + (n & 0xff) as u8 as int == n as int) by (bit_vector);
    }
}

/// The entry of a whole object reads back as that object.
proof fn lemma_read_entry(
    data: Seq<u8>,
    offset: nat,
    t: ObjectType,
    contents: Seq<u8>,
    tail: Seq<u8>,
    c: CacheModel,
    loose: Seq<Object>,
)
    requires
        offset <= data.len(),
        offset < 0x1_0000_0000,
        data.skip(offset as int) == object_entry(t, contents) + tail,
        is_base_type(t),
        contents.len() < 0x2000_0000_0000_0000,
        inflates_back(contents),
    ensures
        object_at(data, offset as u64, c, loose) == PackRead::Read(
            t,
            contents,
            offset + object_entry(t, contents).len(),
            cache_insert(c, offset as u64, t, contents),
        ),
{
    let tn = type_number(t);
    let size = contents.len() as u64;
    let h = pack_object_header(tn, size);
    let z = zlib_deflate(contents);
    lemma_pack_header_roundtrip(tn, size);
    let rest = data.skip(offset as int);
    assert(rest =~= h + (z + tail));
    lemma_varint_prefix(h, z + tail);
    assert(rest.take(h.len() as int) =~= h);
    let pos = offset + h.len();
    assert(rest.skip(h.len() as int) =~= z + tail);
    assert(data.skip(pos as int) =~= rest.skip(h.len() as int));
    assert(zlib_inflate(z + tail) == Some((contents, z.len())));
    assert(number_to_type(tn) == t);
}

/// The entries of whole objects read back as those objects, each recorded
/// where its entry starts.
proof fn lemma_decode_entries(
    data: Seq<u8>,
    pos: nat,
    objs: Seq<(ObjectType, Seq<u8>)>,
    tail: Seq<u8>,
    c: CacheModel,
    loose: Seq<Object>,
)
    requires
        pos <= data.len(),
        data.skip(pos as int) == objects_bytes(objs) + tail,
        packable(objs),
        starts_below_4g(objs, pos),
    ensures
        decode_objects(data, pos, objs.len(), c, loose) == PackDecode::Done(
            pos + objects_bytes(objs).len(),
            insert_all(c, objs, pos),
        ),
    decreases objs.len(),
{
    if objs.len() > 0 {
        let o = objs[0];
        let r = objs.drop_first();
        let e = object_entry(o.0, o.1);
        lemma_objects_bytes_front(objs);
        assert(objs.take(0) =~= Seq::<(ObjectType, Seq<u8>)>::empty());
        assert(objects_bytes(objs.take(0)).len() == 0);
        assert(pos < 0x1_0000_0000);
        assert(is_base_type(objs[0].0));
        assert(data.skip(pos as int) =~= e + (objects_bytes(r) + tail));
        lemma_read_entry(data, pos, o.0, o.1, objects_bytes(r) + tail, c, loose);
        let next = pos + e.len();
        let whole = data.skip(pos as int);
        assert(whole.skip(e.len() as int) =~= objects_bytes(r) + tail);
        assert(data.skip(next as int) =~= whole.skip(e.len() as int));
        assert(packable(r)) by {
            assert forall|i: int| 0 <= i < r.len() implies is_base_type(#[trigger] r[i].0) && r[i].1.len()
                < 0x2000_0000_0000_0000 && inflates_back(r[i].1) by {
                assert(r[i] == objs[i + 1]);
            }
        }
        assert(starts_below_4g(r, next)) by {
            assert forall|k: int| 0 <= k < r.len() implies next + (#[trigger] objects_bytes(r.take(k))).len()
                < 0x1_0000_0000 by {
                let p = objs.take(k + 1);
                lemma_objects_bytes_front(p);
                assert(p.drop_first() =~= r.take(k));
                assert(p[0] == o);
                assert(objects_bytes(objs.take(k + 1)).len() < 0x1_0000_0000 - pos);
            }
        }
        lemma_decode_entries(data, next, r, tail, cache_insert(c, pos as u64, o.0, o.1), loose);
    }
}

/// A pack written from whole objects reads back: a pack of the objects
/// `objs` followed by any 20-byte checksum decodes to that number of
/// objects, each recorded at the offset where its entry starts, and to that
/// checksum. An object must be below 2^61 bytes, its zlib stream must read
/// back, and its entry must start below 2^32, the decoder's own limit.
pub proof fn lemma_pack_roundtrip(objs: Seq<(ObjectType, Seq<u8>)>, sig: Seq<u8>, loose: Seq<Object>)
    requires
        packable(objs),
        objs.len() < 0x1_0000_0000,
        starts_below_4g(objs, 12),
        sig.len() == 20,
    ensures
        pack_outcome(pack_body(objs) + sig, loose) == PackOutcome::Decoded(
            objs.len() as u32,
            insert_all(cache_empty(), objs, 12),
            sig,
        ),
{
    let n = objs.len() as u32;
    let data = pack_body(objs) + sig;
    lemma_be32(n);
    lemma_be32(2);
    assert(data.take(4) =~= pack_magic());
    assert(data.subrange(4, 8) =~= seq![0u8, 0u8, 0u8, 2u8]);
    assert(be32_bytes(2) =~= seq![0u8, 0u8, 0u8, 2u8]) by {
        assert((2u32 >> 24u32) as u8 == 0 && ((2u32 >> 16u32) & 0xff) as u8 == 0 && ((2u32 >> 8u32) & 0xff) as u8
            == 0 && (2u32 & 0xff) as u8 == 2) by (bit_vector);
    }
    assert(data.subrange(8, 12) =~= be32_bytes(n));
    assert(data.skip(12) =~= objects_bytes(objs) + sig);
    lemma_decode_entries(data, 12, objs, sig, cache_empty(), loose);
    let end = 12 + objects_bytes(objs).len();
    assert(data.subrange(end as int, end + 20int) =~= sig);
}

/// Objects with distinct ids are all found again by id once recorded, and
/// the ids of other objects keep what they had.
pub proof fn lemma_insert_all_hashes(c: CacheModel, objs: Seq<(ObjectType, Seq<u8>)>, pos: nat)
    requires
        forall|i: int, j: int|
            0 <= i < j < objs.len() ==> object_hash(objs[i].0, #[trigger] objs[i].1) != object_hash(
                objs[j].0,
                #[trigger] objs[j].1,
            ),
    ensures
        forall|k: Seq<u8>| #[trigger]
            insert_all(c, objs, pos).hashes.contains_key(k) <==> (c.hashes.contains_key(k) || exists|i: int|
                0 <= i < objs.len() && object_hash(objs[i].0, objs[i].1) == k),
        forall|i: int|
            0 <= i < objs.len() ==> insert_all(c, objs, pos).hashes[object_hash(
                objs[i].0,
                #[trigger] objs[i].1,
            )] == objs[i],
    decreases objs.len(),
{
    if objs.len() > 0 {
        let o = objs[0];
        let r = objs.drop_first();
        let c2 = cache_insert(c, pos as u64, o.0, o.1);
        let p2 = pos + object_entry(o.0, o.1).len();
        assert forall|i: int, j: int| 0 <= i < j < r.len() implies object_hash(r[i].0, #[trigger] r[i].1)
            != object_hash(r[j].0, #[trigger] r[j].1) by {
            assert(r[i] == objs[i + 1] && r[j] == objs[j + 1]);
        }
        lemma_insert_all_hashes(c2, r, p2);
        let res = insert_all(c, objs, pos);
        assert(res == insert_all(c2, r, p2));
        assert forall|k: Seq<u8>| #[trigger] res.hashes.contains_key(k) <==> (c.hashes.contains_key(k)
            || exists|i: int| 0 <= i < objs.len() && object_hash(objs[i].0, objs[i].1) == k) by {
            if res.hashes.contains_key(k) {
                assert(insert_all(c2, r, p2).hashes.contains_key(k));
                if !c.hashes.contains_key(k) && k != object_hash(o.0, o.1) {
                    assert(!c2.hashes.contains_key(k));
                    assert(exists|i: int| 0 <= i < r.len() && object_hash(r[i].0, r[i].1) == k);
                    let i = choose|i: int| 0 <= i < r.len() && object_hash(r[i].0, r[i].1) == k;
                    assert(objs[i + 1] == r[i]);
                    assert(0 <= i + 1 < objs.len() && object_hash(objs[i + 1].0, objs[i + 1].1) == k);
                }
                if k == object_hash(o.0, o.1) {
                    assert(objs[0] == o);
                    assert(0 <= 0 < objs.len() && object_hash(objs[0].0, objs[0].1) == k);
                }
            } else {
                assert(!insert_all(c2, r, p2).hashes.contains_key(k));
                assert(!c2.hashes.contains_key(k));
                assert forall|i: int| 0 <= i < objs.len() implies object_hash(objs[i].0, objs[i].1) != k by {
                    if i > 0 {
                        assert(r[i - 1] == objs[i]);
                        if object_hash(objs[i].0, objs[i].1) == k {
                            assert(0 <= i - 1 < r.len() && object_hash(r[i - 1].0, r[i - 1].1) == k);
                        }
                    }
                }
            }
            if exists|i: int| 0 <= i < objs.len() && object_hash(objs[i].0, objs[i].1) == k {
                let i = choose|i: int| 0 <= i < objs.len() && object_hash(objs[i].0, objs[i].1) == k;
                if i > 0 {
                    assert(r[i - 1] == objs[i]);
                }
            }
        }
        assert forall|i: int| 0 <= i < objs.len() implies res.hashes[object_hash(
            objs[i].0,
            #[trigger] objs[i].1,
        )] == objs[i] by {
            if i > 0 {
                assert(r[i - 1] == objs[i]);
            } else {
                let k = object_hash(o.0, o.1);
                assert forall|j: int| 0 <= j < r.len() implies object_hash(r[j].0, r[j].1) != k by {
                    assert(r[j] == objs[j + 1]);
                    assert(object_hash(objs[0].0, objs[0].1) != object_hash(objs[j + 1].0, objs[j + 1].1));
                }
                if exists|j: int| 0 <= j < r.len() && object_hash(r[j].0, r[j].1) == k {
                    let j = choose|j: int| 0 <= j < r.len() && object_hash(r[j].0, r[j].1) == k;
                    assert(false);
                }
                lemma_insert_all_keeps(c2, r, p2, k);
            }
        }
    }
}

/// An id that none of `objs` has keeps what it had.
proof fn lemma_insert_all_keeps(c: CacheModel, objs: Seq<(ObjectType, Seq<u8>)>, pos: nat, k: Seq<u8>)
    requires
        forall|j: int| 0 <= j < objs.len() ==> object_hash(objs[j].0, #[trigger] objs[j].1) != k,
    ensures
        insert_all(c, objs, pos).hashes[k] == c.hashes[k],
    decreases objs.len(),
{
    if objs.len() > 0 {
        let o = objs[0];
        let r = objs.drop_first();
        assert(object_hash(objs[0].0, objs[0].1) != k);
        assert forall|j: int| 0 <= j < r.len() implies object_hash(r[j].0, #[trigger] r[j].1) != k by {
            assert(r[j] == objs[j + 1]);
        }
        lemma_insert_all_keeps(
            cache_insert(c, pos as u64, o.0, o.1),
            r,
            pos + object_entry(o.0, o.1).len(),
            k,
        );
    }
}

} // verus!
