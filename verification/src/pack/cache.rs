//! The objects already read from a pack, found again by their offset in the
//! pack or by their id.

use std::collections::HashMap;

use vstd::prelude::*;

use crate::object::metadata::object_hash;
use crate::object::types::{bytes_eq, is_base_type, ObjectType};
use crate::object::Object;

verus! {

/// What a cache holds: the objects by offset and by id, each as its type and
/// contents.
pub struct CacheModel {
    pub offsets: Map<u64, (ObjectType, Seq<u8>)>,
    pub hashes: Map<Seq<u8>, (ObjectType, Seq<u8>)>,
}

/// The cache `c` after recording an object of type `t` with `contents`, read
/// at `offset`.
pub open spec fn cache_insert(c: CacheModel, offset: u64, t: ObjectType, contents: Seq<u8>) -> CacheModel {
    CacheModel {
        offsets: c.offsets.insert(offset, (t, contents)),
        hashes: c.hashes.insert(object_hash(t, contents), (t, contents)),
    }
}

/// The empty cache.
pub open spec fn cache_empty() -> CacheModel {
    CacheModel { offsets: Map::empty(), hashes: Map::empty() }
}

/// One recorded object, with the offset it was read at and its id.
pub struct CacheEntry {
    pub offset: u64,
    pub hash: crate::hash::Hash,
    pub object: Object,
}

/// The cache that the entries `s` build, recorded in order.
pub open spec fn entries_model(s: Seq<CacheEntry>) -> CacheModel
    decreases s.len(),
{
    if s.len() == 0 {
        cache_empty()
    } else {
        let e = s.last();
        cache_insert(entries_model(s.drop_last()), e.offset, e.object.object_type, e.object.contents@)
    }
}

/// An entry holds an object of a base type and its id.
pub open spec fn entry_ok(e: CacheEntry) -> bool {
    &&& is_base_type(e.object.object_type)
    &&& e.hash.0@ == object_hash(e.object.object_type, e.object.contents@)
}

/// `j` is the last entry of `s` read at `k`.
pub open spec fn last_at(s: Seq<CacheEntry>, k: u64, j: int) -> bool {
    &&& 0 <= j < s.len()
    &&& s[j].offset == k
    &&& forall|m: int| j < m < s.len() ==> (#[trigger] s[m]).offset != k
}

/// The objects read from a pack, by offset and by id: the entries in the
/// order they were recorded, and for each offset the place of its last entry.
pub struct PackObjectCache {
    entries: Vec<CacheEntry>,
    by_offset: HashMap<u64, usize>,
}

proof fn lemma_offset_found(s: Seq<CacheEntry>, k: u64, j: int)
    requires
        0 <= j < s.len(),
        s[j].offset == k,
        forall|m: int| j < m < s.len() ==> (#[trigger] s[m]).offset != k,
    ensures
        entries_model(s).offsets.contains_key(k),
        entries_model(s).offsets[k] == (s[j].object.object_type, s[j].object.contents@),
    decreases s.len(),
{
    if j < s.len() - 1 {
        let t = s.drop_last();
        assert forall|m: int| j < m < t.len() implies (#[trigger] t[m]).offset != k by {
            assert(t[m] == s[m]);
        }
        lemma_offset_found(t, k, j);
        assert(s[s.len() - 1].offset != k);
    }
}

proof fn lemma_offset_absent(s: Seq<CacheEntry>, k: u64)
    requires
        forall|m: int| 0 <= m < s.len() ==> (#[trigger] s[m]).offset != k,
    ensures
        !entries_model(s).offsets.contains_key(k),
    decreases s.len(),
{
    if s.len() > 0 {
        let t = s.drop_last();
        assert forall|m: int| 0 <= m < t.len() implies (#[trigger] t[m]).offset != k by {
            assert(t[m] == s[m]);
        }
        lemma_offset_absent(t, k);
        assert(s[s.len() - 1].offset != k);
    }
}

proof fn lemma_hash_found(s: Seq<CacheEntry>, k: Seq<u8>, j: int)
    requires
        0 <= j < s.len(),
        forall|m: int| 0 <= m < s.len() ==> entry_ok(#[trigger] s[m]),
        s[j].hash.0@ == k,
        forall|m: int| j < m < s.len() ==> (#[trigger] s[m]).hash.0@ != k,
    ensures
        entries_model(s).hashes.contains_key(k),
        entries_model(s).hashes[k] == (s[j].object.object_type, s[j].object.contents@),
    decreases s.len(),
{
    assert(entry_ok(s[s.len() - 1]));
    if j < s.len() - 1 {
        let t = s.drop_last();
        assert forall|m: int| 0 <= m < t.len() implies entry_ok(#[trigger] t[m]) by {
            assert(t[m] == s[m]);
        }
        assert forall|m: int| j < m < t.len() implies (#[trigger] t[m]).hash.0@ != k by {
            assert(t[m] == s[m]);
        }
        lemma_hash_found(t, k, j);
    }
}

proof fn lemma_hash_absent(s: Seq<CacheEntry>, k: Seq<u8>)
    requires
        forall|m: int| 0 <= m < s.len() ==> entry_ok(#[trigger] s[m]),
        forall|m: int| 0 <= m < s.len() ==> (#[trigger] s[m]).hash.0@ != k,
    ensures
        !entries_model(s).hashes.contains_key(k),
    decreases s.len(),
{
    if s.len() > 0 {
        assert(entry_ok(s[s.len() - 1]));
        let t = s.drop_last();
        assert forall|m: int| 0 <= m < t.len() implies entry_ok(#[trigger] t[m]) by {
            assert(t[m] == s[m]);
        }
        assert forall|m: int| 0 <= m < t.len() implies (#[trigger] t[m]).hash.0@ != k by {
            assert(t[m] == s[m]);
        }
        lemma_hash_absent(t, k);
    }
}


/// `objs` holds each object of the id map `hashes` once: every object is
/// the one recorded under its id, no two share an id, and every id has one.
pub open spec fn lists_each_once(
    objs: Seq<(ObjectType, Seq<u8>)>,
    hashes: Map<Seq<u8>, (ObjectType, Seq<u8>)>,
) -> bool {
    &&& forall|i: int|
        0 <= i < objs.len() ==> hashes.contains_key(object_hash(objs[i].0, objs[i].1)) && hashes[object_hash(
            objs[i].0,
            #[trigger] objs[i].1,
        )] == objs[i]
    &&& forall|i: int, j: int|
        0 <= i < j < objs.len() ==> object_hash(objs[i].0, #[trigger] objs[i].1) != object_hash(
            objs[j].0,
            #[trigger] objs[j].1,
        )
    &&& forall|k: Seq<u8>|
        #[trigger] hashes.contains_key(k) ==> exists|i: int|
            0 <= i < objs.len() && object_hash(objs[i].0, #[trigger] objs[i].1) == k
}

/// The view of a list of objects.
pub open spec fn objects_view(v: Seq<Object>) -> Seq<(ObjectType, Seq<u8>)> {
    v.map_values(|o: Object| (o.object_type, o.contents@))
}

/// A list that holds each object of an id map once is as long as the map.
pub proof fn lemma_lists_count(objs: Seq<(ObjectType, Seq<u8>)>, hashes: Map<Seq<u8>, (ObjectType, Seq<u8>)>)
    requires
        lists_each_once(objs, hashes),
    ensures
        objs.len() == hashes.dom().len(),
{
    let ks = objs.map_values(|o: (ObjectType, Seq<u8>)| object_hash(o.0, o.1));
    assert forall|i: int, j: int| 0 <= i < ks.len() && 0 <= j < ks.len() && i != j implies ks[i] != ks[j] by {
        if i < j {
            assert(object_hash(objs[i].0, objs[i].1) != object_hash(objs[j].0, objs[j].1));
        } else {
            assert(object_hash(objs[j].0, objs[j].1) != object_hash(objs[i].0, objs[i].1));
        }
    }
    assert(ks.no_duplicates());
    ks.unique_seq_to_set();
    assert forall|k: Seq<u8>| ks.to_set().contains(k) <==> hashes.dom().contains(k) by {
        if ks.to_set().contains(k) {
            let i = choose|i: int| 0 <= i < ks.len() && ks[i] == k;
            assert(hashes.contains_key(object_hash(objs[i].0, objs[i].1)));
        }
        if hashes.dom().contains(k) {
            assert(hashes.contains_key(k));
            let i = choose|i: int| 0 <= i < objs.len() && object_hash(objs[i].0, #[trigger] objs[i].1) == k;
            assert(ks[i] == k);
        }
    }
    assert(ks.to_set() =~= hashes.dom());
}

proof fn lemma_lists_replace(
    objs: Seq<(ObjectType, Seq<u8>)>,
    hashes: Map<Seq<u8>, (ObjectType, Seq<u8>)>,
    p: int,
    o: (ObjectType, Seq<u8>),
)
    requires
        lists_each_once(objs, hashes),
        0 <= p < objs.len(),
        object_hash(objs[p].0, objs[p].1) == object_hash(o.0, o.1),
    ensures
        lists_each_once(objs.update(p, o), hashes.insert(object_hash(o.0, o.1), o)),
{
    let n = objs.update(p, o);
    let h = hashes.insert(object_hash(o.0, o.1), o);
    assert forall|i: int| 0 <= i < n.len() implies h.contains_key(object_hash(n[i].0, n[i].1))
        && h[object_hash(n[i].0, #[trigger] n[i].1)] == n[i] by {
        if i != p {
            assert(n[i] == objs[i]);
            assert(object_hash(objs[i].0, objs[i].1) != object_hash(o.0, o.1)) by {
                if i < p {
                    assert(object_hash(objs[i].0, objs[i].1) != object_hash(objs[p].0, objs[p].1));
                } else {
                    assert(object_hash(objs[p].0, objs[p].1) != object_hash(objs[i].0, objs[i].1));
                }
            }
        }
    }
    assert forall|i: int, j: int| 0 <= i < j < n.len() implies object_hash(n[i].0, #[trigger] n[i].1)
        != object_hash(n[j].0, #[trigger] n[j].1) by {
        if i == p {
            assert(object_hash(objs[i].0, objs[i].1) != object_hash(objs[j].0, objs[j].1));
        } else if j == p {
            assert(object_hash(objs[i].0, objs[i].1) != object_hash(objs[j].0, objs[j].1));
        } else {
            assert(object_hash(objs[i].0, objs[i].1) != object_hash(objs[j].0, objs[j].1));
        }
    }
    assert forall|k: Seq<u8>| #[trigger] h.contains_key(k) implies exists|i: int|
        0 <= i < n.len() && object_hash(n[i].0, #[trigger] n[i].1) == k by {
        if k == object_hash(o.0, o.1) {
            assert(object_hash(n[p].0, n[p].1) == k);
        } else {
            let i = choose|i: int| 0 <= i < objs.len() && object_hash(objs[i].0, #[trigger] objs[i].1) == k;
            assert(i != p);
            assert(n[i] == objs[i]);
        }
    }
}

proof fn lemma_lists_push(
    objs: Seq<(ObjectType, Seq<u8>)>,
    hashes: Map<Seq<u8>, (ObjectType, Seq<u8>)>,
    o: (ObjectType, Seq<u8>),
)
    requires
        lists_each_once(objs, hashes),
        forall|i: int| 0 <= i < objs.len() ==> object_hash(objs[i].0, #[trigger] objs[i].1) != object_hash(o.0, o.1),
    ensures
        lists_each_once(objs.push(o), hashes.insert(object_hash(o.0, o.1), o)),
{
    let n = objs.push(o);
    let h = hashes.insert(object_hash(o.0, o.1), o);
    let last = objs.len() as int;
    assert forall|i: int| 0 <= i < n.len() implies h.contains_key(object_hash(n[i].0, n[i].1))
        && h[object_hash(n[i].0, #[trigger] n[i].1)] == n[i] by {
        if i < last {
            assert(n[i] == objs[i]);
            assert(object_hash(objs[i].0, objs[i].1) != object_hash(o.0, o.1));
        }
    }
    assert forall|i: int, j: int| 0 <= i < j < n.len() implies object_hash(n[i].0, #[trigger] n[i].1)
        != object_hash(n[j].0, #[trigger] n[j].1) by {
        assert(n[i] == objs[i]);
        if j < last {
            assert(n[j] == objs[j]);
        } else {
            assert(object_hash(objs[i].0, objs[i].1) != object_hash(o.0, o.1));
        }
    }
    assert forall|k: Seq<u8>| #[trigger] h.contains_key(k) implies exists|i: int|
        0 <= i < n.len() && object_hash(n[i].0, #[trigger] n[i].1) == k by {
        if k == object_hash(o.0, o.1) {
            assert(object_hash(n[last].0, n[last].1) == k);
        } else {
            let i = choose|i: int| 0 <= i < objs.len() && object_hash(objs[i].0, #[trigger] objs[i].1) == k;
            assert(n[i] == objs[i]);
        }
    }
}

impl PackObjectCache {
    /// What the cache holds.
    pub closed spec fn model(&self) -> CacheModel {
        entries_model(self.entries@)
    }

    /// Every recorded object has a base type and is recorded under its id,
    /// and the offset map gives for each offset read the place of its last
    /// entry.
    pub closed spec fn wf(&self) -> bool {
        &&& forall|m: int| 0 <= m < self.entries@.len() ==> entry_ok(#[trigger] self.entries@[m])
        &&& forall|k: u64| #[trigger] self.by_offset@.contains_key(k) ==> last_at(
            self.entries@,
            k,
            self.by_offset@[k] as int,
        )
        &&& forall|m: int|
            0 <= m < self.entries@.len() ==> self.by_offset@.contains_key(
                (#[trigger] self.entries@[m]).offset,
            )
    }

    /// An empty cache.
    pub fn new() -> (res: PackObjectCache)
        ensures
            res.wf(),
            res.model() == cache_empty(),
    {
        PackObjectCache { entries: Vec::new(), by_offset: HashMap::new() }
    }

    /// Records `object`, read at `offset`, under its offset and its id.
    pub fn update(&mut self, object: Object, offset: u64)
        requires
            old(self).wf(),
            is_base_type(object.object_type),
        ensures
            final(self).wf(),
            final(self).model() == cache_insert(
                old(self).model(),
                offset,
                object.object_type,
                object.contents@,
            ),
    {
        let hash = object.hash();
        let ghost before = self.entries@;
        let ghost map_before = self.by_offset@;
        let place = self.entries.len();
        self.entries.push(CacheEntry { offset, hash, object });
        self.by_offset.insert(offset, place);
        assert(self.entries@.drop_last() =~= before);
        assert forall|m: int| 0 <= m < self.entries@.len() implies entry_ok(
            #[trigger] self.entries@[m],
        ) by {
            if m < before.len() {
                assert(self.entries@[m] == before[m]);
            }
        }
        assert forall|k: u64| #[trigger] self.by_offset@.contains_key(k) implies last_at(
            self.entries@,
            k,
            self.by_offset@[k] as int,
        ) by {
            if k != offset {
                assert(map_before.contains_key(k));
                assert(last_at(before, k, map_before[k] as int));
                assert forall|m: int| map_before[k] < m < self.entries@.len() implies (
                #[trigger] self.entries@[m]).offset != k by {
                    if m < before.len() {
                        assert(self.entries@[m] == before[m]);
                    }
                }
            }
        }
        assert forall|m: int| 0 <= m < self.entries@.len() implies self.by_offset@.contains_key(
            (#[trigger] self.entries@[m]).offset,
        ) by {
            if m < before.len() {
                assert(self.entries@[m] == before[m]);
                assert(map_before.contains_key(before[m].offset));
            }
        }
    }

    /// The objects of the cache, each id once, with the object last
    /// recorded under it.
    pub fn distinct_objects(&self) -> (res: Vec<Object>)
        requires
            self.wf(),
        ensures
            lists_each_once(objects_view(res@), self.model().hashes),
            forall|i: int| 0 <= i < res@.len() ==> is_base_type(#[trigger] res@[i].object_type),
    {
        let ghost s = self.entries@;
        let mut out: Vec<Object> = Vec::new();
        let mut ids: Vec<crate::hash::Hash> = Vec::new();
        let mut i: usize = 0;
        assert(s.take(0) =~= Seq::<CacheEntry>::empty());
        while i < self.entries.len()
            invariant
                s == self.entries@,
                self.wf(),
                i <= s.len(),
                out@.len() == ids@.len(),
                forall|a: int| 0 <= a < ids@.len() ==> (#[trigger] ids@[a]).0@ == object_hash(
                    out@[a].object_type,
                    out@[a].contents@,
                ),
                forall|a: int| 0 <= a < out@.len() ==> is_base_type(#[trigger] out@[a].object_type),
                lists_each_once(objects_view(out@), entries_model(s.take(i as int)).hashes),
            decreases s.len() - i,
        {
            let e = &self.entries[i];
            assert(entry_ok(s[i as int]));
            assert(s.take(i + 1).drop_last() =~= s.take(i as int));
            assert(s.take(i + 1).last() == s[i as int]);
            let mut p: usize = 0;
            let mut found = false;
            while !found && p < ids.len()
                invariant
                    p <= ids@.len(),
                    found ==> p < ids@.len() && ids@[p as int].0@ == e.hash.0@,
                    !found ==> forall|a: int| 0 <= a < p ==> (#[trigger] ids@[a]).0@ != e.hash.0@,
                decreases ids@.len() - p + (if found { 0int } else { 1int }),
            {
                if bytes_eq(&ids[p].0, &e.hash.0) {
                    found = true;
                } else {
                    p = p + 1;
                }
            }
            let ghost before = objects_view(out@);
            let o = e.object.duplicate();
            if found {
                out.set(p, o);
                proof {
                    lemma_lists_replace(before, entries_model(s.take(i as int)).hashes, p as int, (e.object.object_type, e.object.contents@));
                    assert(objects_view(out@) =~= before.update(p as int, (e.object.object_type, e.object.contents@)));
                }
            } else {
                out.push(o);
                ids.push(e.hash);
                proof {
                    assert forall|a: int| 0 <= a < before.len() implies object_hash(before[a].0, #[trigger] before[a].1)
                        != object_hash(e.object.object_type, e.object.contents@) by {
                        assert(ids@[a].0@ != e.hash.0@);
                    }
                    lemma_lists_push(before, entries_model(s.take(i as int)).hashes, (e.object.object_type, e.object.contents@));
                    assert(objects_view(out@) =~= before.push((e.object.object_type, e.object.contents@)));
                }
            }
            i = i + 1;
        }
        assert(s.take(s.len() as int) =~= s);
        out
    }

    /// Forgets every recorded object.
    pub fn clean(&mut self)
        ensures
            final(self).wf(),
            final(self).model() == cache_empty(),
    {
        self.entries = Vec::new();
        self.by_offset = HashMap::new();
    }

    /// The object recorded at `offset`, if any.
    pub fn offset_object(&self, offset: u64) -> (res: Option<&Object>)
        requires
            self.wf(),
        ensures
            self.model().offsets.contains_key(offset) <==> res is Some,
            res matches Some(o) ==> self.model().offsets[offset] == (o.object_type, o.contents@),
            res matches Some(o) ==> is_base_type(o.object_type),
    {
        match self.by_offset.get(&offset) {
            Some(place) => {
                let i = *place;
                proof {
                    assert(self.by_offset@.contains_key(offset));
                    assert(last_at(self.entries@, offset, i as int));
                    lemma_offset_found(self.entries@, offset, i as int);
                    assert(entry_ok(self.entries@[i as int]));
                }
                Some(&self.entries[i].object)
            },
            None => {
                proof {
                    assert forall|m: int| 0 <= m < self.entries@.len() implies (
                    #[trigger] self.entries@[m]).offset != offset by {
                        assert(self.by_offset@.contains_key(self.entries@[m].offset));
                    }
                    lemma_offset_absent(self.entries@, offset);
                }
                None
            },
        }
    }

    /// The object recorded under the id `hash`, if any.
    pub fn hash_object(&self, hash: crate::hash::Hash) -> (res: Option<&Object>)
        requires
            self.wf(),
        ensures
            self.model().hashes.contains_key(hash.0@) <==> res is Some,
            res matches Some(o) ==> self.model().hashes[hash.0@] == (o.object_type, o.contents@),
            res matches Some(o) ==> is_base_type(o.object_type),
    {
        let mut i = self.entries.len();
        while i > 0
            invariant
                i <= self.entries@.len(),
                self.wf(),
                forall|m: int| i <= m < self.entries@.len() ==> (#[trigger] self.entries@[m]).hash.0@
                    != hash.0@,
            decreases i,
        {
            if bytes_eq(&self.entries[i - 1].hash.0, &hash.0) {
                proof {
                    lemma_hash_found(self.entries@, hash.0@, i - 1);
                    assert(entry_ok(self.entries@[i - 1]));
                }
                return Some(&self.entries[i - 1].object);
            }
            i = i - 1;
        }
        proof {
            lemma_hash_absent(self.entries@, hash.0@);
        }
        None
    }

    /// The object recorded at `offset`, if any (the name the storage layer
    /// uses).
    #[allow(non_snake_case)]
    pub fn Offset_object(&self, offset: u64) -> (res: Option<&Object>)
        requires
            self.wf(),
        ensures
            self.model().offsets.contains_key(offset) <==> res is Some,
            res matches Some(o) ==> self.model().offsets[offset] == (o.object_type, o.contents@),
    {
        self.offset_object(offset)
    }

    /// The object recorded under the id `hash`, if any (the name the storage
    /// layer uses).
    #[allow(non_snake_case)]
    pub fn Hash_object(&self, hash: crate::hash::Hash) -> (res: Option<&Object>)
        requires
            self.wf(),
        ensures
            self.model().hashes.contains_key(hash.0@) <==> res is Some,
            res matches Some(o) ==> self.model().hashes[hash.0@] == (o.object_type, o.contents@),
    {
        self.hash_object(hash)
    }
}

/// Reading back what was recorded: once an object is recorded at an offset,
/// the cache gives it for that offset and for its id, and gives for every
/// other offset and every other id what it gave before.
pub proof fn lemma_cache_read_after_update(
    c: CacheModel,
    offset: u64,
    t: ObjectType,
    contents: Seq<u8>,
    other: u64,
    other_id: Seq<u8>,
)
    ensures
        cache_insert(c, offset, t, contents).offsets.contains_key(offset),
        cache_insert(c, offset, t, contents).offsets[offset] == (t, contents),
        cache_insert(c, offset, t, contents).hashes.contains_key(object_hash(t, contents)),
        cache_insert(c, offset, t, contents).hashes[object_hash(t, contents)] == (t, contents),
        other != offset ==> (cache_insert(c, offset, t, contents).offsets.contains_key(other)
            == c.offsets.contains_key(other) && cache_insert(c, offset, t, contents).offsets[other]
            == c.offsets[other]),
        other_id != object_hash(t, contents) ==> (cache_insert(
            c,
            offset,
            t,
            contents,
        ).hashes.contains_key(other_id) == c.hashes.contains_key(other_id) && cache_insert(
            c,
            offset,
            t,
            contents,
        ).hashes[other_id] == c.hashes[other_id]),
{
}

} // verus!
