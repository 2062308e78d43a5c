//! Pack files: many objects in one file, each stored whole or as a delta
//! against another.

pub mod cache;
pub mod encode;
pub mod diff;
pub mod files;
pub mod roundtrip;

use vstd::prelude::*;

use crate::errors::GitError;
use crate::git::{is_id_of, ID};
use crate::idx::{Idx, IdxItem};
use crate::object::delta::{
    apply_delta, apply_instructions, delta_header_ok, delta_header_ok_exec, fault_error, DeltaFault,
};
use crate::object::metadata::object_hash;
use crate::object::types::{bytes_eq, is_base_type, number_to_type, ObjectType};
use crate::object::Object;
use crate::pack::cache::{cache_empty, cache_insert, CacheModel, PackObjectCache};
use crate::text::{ascii_chars, decimal, decimal_string, hex_encode};
use crate::utils::{
    be_u32, le_base128, offset_acc, offset_readable, offset_readable_exec, read_bytes, read_hash,
    read_offset_encoding, read_type_and_size, read_u32, varint_len, varint_len_exec,
};
use crate::zlib::{zlib_decompress, zlib_inflate};

verus! {

/// Why the bytes of a pack do not hold a valid object.
pub enum PackFault {
    /// They end before the object, or the pack's header or checksum, does.
    Eof,
    /// The object's type-and-size header runs over ten bytes.
    Header,
    /// A zlib stream that does not inflate.
    Zlib,
    /// A whole object whose contents have another length than its header says.
    Size,
    /// An offset delta's distance that does not fit in 64 bits.
    OffsetEncoding,
    /// An offset delta whose base would lie before the pack or at the delta itself.
    BaseOffset,
    /// A delta whose header cannot be read.
    DeltaHeader,
    /// A delta whose base length is not that of its base.
    BaseLength,
    /// A delta instruction that fails.
    Instruction(DeltaFault),
    /// A delta that builds another length than its header says.
    ResultLength,
    /// An object of an unknown type number.
    Type(u8),
    /// An object that starts at or beyond 2^32.
    TooLarge,
    /// One of several packs that is too short for its header, or whose
    /// header is not "PACK" and version 2.
    PackHeader,
}

/// `e` is the error that reports `f`.
pub open spec fn pack_fault_error(f: PackFault, e: GitError) -> bool {
    match f {
        PackFault::Eof => e is UnexpectedEof,
        PackFault::Header => e matches GitError::InvalidObjectInfo(m) && m@ == "invalid object header"@,
        PackFault::Zlib => e matches GitError::InvalidObjectInfo(m) && m@ == "invalid zlib stream"@,
        PackFault::Size => e matches GitError::InvalidObjectInfo(m) && m@ == "Incorrect object size"@,
        PackFault::OffsetEncoding => e matches GitError::InvalidObjectInfo(m) && m@
            == "invalid offset encoding"@,
        PackFault::BaseOffset => e matches GitError::InvalidObjectInfo(m) && m@
            == "Invalid OffsetDelta offset"@,
        PackFault::DeltaHeader => e matches GitError::InvalidObjectInfo(m) && m@
            == "invalid delta header"@,
        PackFault::BaseLength => e matches GitError::Other(m) && m@ == "Incorrect base object length"@,
        PackFault::Instruction(d) => fault_error(d, e),
        PackFault::ResultLength => e matches GitError::Other(m) && m@ == "Incorrect object length"@,
        PackFault::Type(t) => e matches GitError::InvalidObjectType(m) && m@ == ascii_chars(
            decimal(t as nat),
        ),
        PackFault::TooLarge => e matches GitError::InvalidObjectInfo(m) && m@
            == "Packfile is too large"@,
        PackFault::PackHeader => e is InvalidPackHeader || e is InvalidPackFile,
    }
}

/// What a delta builds from `base`, or why it builds nothing: its header
/// does not read or does not match the base, an instruction fails, or the
/// result has another length than the header says.
pub open spec fn delta_outcome(base: Seq<u8>, delta: Seq<u8>) -> Result<Seq<u8>, PackFault> {
    if !delta_header_ok(base.len(), delta) {
        Err(PackFault::DeltaHeader)
    } else {
        let n1 = varint_len(delta);
        let base_size = le_base128(delta.take(n1 as int));
        let rest = delta.skip(n1 as int);
        let n2 = varint_len(rest);
        let result_size = le_base128(rest.take(n2 as int));
        if base.len() != base_size {
            Err(PackFault::BaseLength)
        } else {
            match apply_instructions(base, rest.skip(n2 as int)) {
                Ok(out) => if out.len() == result_size {
                    Ok(out)
                } else {
                    Err(PackFault::ResultLength)
                },
                Err(f) => Err(PackFault::Instruction(f)),
            }
        }
    }
}

/// The last object of `loose` whose id is `h`, as its type and contents.
pub open spec fn loose_find(loose: Seq<Object>, h: Seq<u8>) -> Option<(ObjectType, Seq<u8>)>
    decreases loose.len(),
{
    if loose.len() == 0 {
        None
    } else {
        let o = loose.last();
        if object_hash(o.object_type, o.contents@) == h {
            Some((o.object_type, o.contents@))
        } else {
            loose_find(loose.drop_last(), h)
        }
    }
}

/// The outcome of reading one object of a pack.
pub enum PackRead {
    /// The bytes are not a valid object, for this reason.
    Fault(PackFault),
    /// The object is a delta against an object with this id that neither the
    /// cache nor the loose objects hold.
    Missing(Seq<u8>),
    /// The object's type and contents, where its bytes end, and the cache
    /// after reading it.
    Read(ObjectType, Seq<u8>, nat, CacheModel),
}

/// Reading the delta at `p` of the object at `offset` against `base`.
pub open spec fn delta_read(
    data: Seq<u8>,
    offset: u64,
    p: nat,
    base: (ObjectType, Seq<u8>),
    cache: CacheModel,
) -> PackRead {
    match zlib_inflate(data.skip(p as int)) {
        None => PackRead::Fault(PackFault::Zlib),
        Some((delta, used)) => match delta_outcome(base.1, delta) {
            Err(f) => PackRead::Fault(f),
            Ok(out) => PackRead::Read(
                base.0,
                out,
                p + used,
                cache_insert(cache, offset, base.0, out),
            ),
        },
    }
}

/// Reading the object at `offset` of the pack `data` with `cache`: a
/// type-and-size header, then for a whole object its zlib stream; for an
/// offset delta the distance back to its base, for a hash delta the id of its
/// base, then the delta as a zlib stream. A base is taken from the cache,
/// else an offset delta's base is read from the pack and a hash delta's from
/// `loose`. Every object read is added to the cache.
pub open spec fn object_at(data: Seq<u8>, offset: u64, cache: CacheModel, loose: Seq<Object>) -> PackRead
    decreases offset,
{
    if offset > data.len() {
        PackRead::Fault(PackFault::Eof)
    } else {
        let rest = data.skip(offset as int);
        let n = varint_len(rest);
        if n == 0 {
            PackRead::Fault(PackFault::Eof)
        } else if n > 10 {
            PackRead::Fault(PackFault::Header)
        } else {
            let value = le_base128(rest.take(n as int));
            let tn = ((value >> 4u64) & 7) as u8;
            let size = (value & 0xf) | ((value >> 7u64) << 4u64);
            let pos = offset + n;
            if 1 <= tn <= 4 {
                let t = number_to_type(tn);
                match zlib_inflate(data.skip(pos)) {
                    None => PackRead::Fault(PackFault::Zlib),
                    Some((out, used)) => if out.len() != size {
                        PackRead::Fault(PackFault::Size)
                    } else {
                        PackRead::Read(t, out, (pos + used) as nat, cache_insert(cache, offset, t, out))
                    },
                }
            } else if tn == 6 {
                let r2 = data.skip(pos);
                let n2 = varint_len(r2);
                if !offset_readable(r2) {
                    PackRead::Fault(PackFault::OffsetEncoding)
                } else if n2 == 0 {
                    PackRead::Fault(PackFault::Eof)
                } else {
                    let d = offset_acc(r2.take(n2 as int));
                    if d > offset {
                        PackRead::Fault(PackFault::BaseOffset)
                    } else {
                        let base_off = (offset - d) as u64;
                        let p2 = (pos + n2) as nat;
                        if cache.offsets.contains_key(base_off) {
                            delta_read(data, offset, p2, cache.offsets[base_off], cache)
                        } else if base_off == offset {
                            PackRead::Fault(PackFault::BaseOffset)
                        } else {
                            match object_at(data, base_off, cache, loose) {
                                PackRead::Read(bt, bc, _, c2) => delta_read(data, offset, p2, (bt, bc), c2),
                                PackRead::Missing(h) => PackRead::Missing(h),
                                PackRead::Fault(f) => PackRead::Fault(f),
                            }
                        }
                    }
                }
            } else if tn == 7 {
                if pos + 20 > data.len() {
                    PackRead::Fault(PackFault::Eof)
                } else {
                    let h = data.subrange(pos, pos + 20);
                    let p2 = (pos + 20) as nat;
                    if cache.hashes.contains_key(h) {
                        delta_read(data, offset, p2, cache.hashes[h], cache)
                    } else {
                        match loose_find(loose, h) {
                            Some(b) => delta_read(data, offset, p2, b, cache),
                            None => PackRead::Missing(h),
                        }
                    }
                }
            } else {
                PackRead::Fault(PackFault::Type(tn))
            }
        }
    }
}

/// The base that the delta object at `offset` of the pack `data` names, as
/// its type and contents: for an offset delta the object at the offset it
/// points back to, taken from `cache` or else read from the pack; for a hash
/// delta the object with the id it names, taken from `cache` or else from
/// `loose`. `None` when the object there is no delta or its base cannot be had.
pub open spec fn delta_base(data: Seq<u8>, offset: u64, cache: CacheModel, loose: Seq<Object>) -> Option<
    (ObjectType, Seq<u8>),
> {
    if offset > data.len() {
        None
    } else {
        let rest = data.skip(offset as int);
        let n = varint_len(rest);
        if n == 0 || n > 10 {
            None
        } else {
            let value = le_base128(rest.take(n as int));
            let tn = ((value >> 4u64) & 7) as u8;
            let pos = offset + n;
            if tn == 6 {
                let r2 = data.skip(pos);
                let n2 = varint_len(r2);
                if !offset_readable(r2) || n2 == 0 {
                    None
                } else {
                    let d = offset_acc(r2.take(n2 as int));
                    if d > offset {
                        None
                    } else {
                        let base_off = (offset - d) as u64;
                        if cache.offsets.contains_key(base_off) {
                            Some(cache.offsets[base_off])
                        } else if base_off == offset {
                            None
                        } else {
                            match object_at(data, base_off, cache, loose) {
                                PackRead::Read(bt, bc, _, _) => Some((bt, bc)),
                                _ => None,
                            }
                        }
                    }
                }
            } else if tn == 7 {
                if pos + 20 > data.len() {
                    None
                } else {
                    let h = data.subrange(pos, pos + 20);
                    if cache.hashes.contains_key(h) {
                        Some(cache.hashes[h])
                    } else {
                        loose_find(loose, h)
                    }
                }
            } else {
                None
            }
        }
    }
}

/// An object read from a delta has the type of its base, its contents are
/// what a delta builds from the base's contents, and the cache afterwards
/// records it under its offset and under the id of its base's type and its
/// contents.
pub proof fn lemma_delta_takes_base_type(data: Seq<u8>, offset: u64, cache: CacheModel, loose: Seq<Object>)
    requires
        delta_base(data, offset, cache, loose) is Some,
        object_at(data, offset, cache, loose) is Read,
    ensures
        ({
            let (bt, bc) = delta_base(data, offset, cache, loose).unwrap();
            match object_at(data, offset, cache, loose) {
                PackRead::Read(t, c, _, m) => {
                    &&& t == bt
                    &&& exists|delta: Seq<u8>| delta_outcome(bc, delta) == Ok::<Seq<u8>, PackFault>(c)
                    &&& m.offsets.contains_key(offset)
                    &&& m.offsets[offset] == (bt, c)
                    &&& m.hashes.contains_key(object_hash(bt, c))
                    &&& m.hashes[object_hash(bt, c)] == (bt, c)
                },
                _ => false,
            }
        }),
{
    let rest = data.skip(offset as int);
    let n = varint_len(rest);
    let value = le_base128(rest.take(n as int));
    let tn = ((value >> 4u64) & 7) as u8;
    let pos = offset + n;
    let (bt, bc) = delta_base(data, offset, cache, loose).unwrap();
    let p2: nat = if tn == 6 {
        (pos + varint_len(data.skip(pos))) as nat
    } else {
        (pos + 20) as nat
    };
    let c0: CacheModel = if tn == 6 {
        let r2 = data.skip(pos);
        let d = offset_acc(r2.take(varint_len(r2) as int));
        let base_off = (offset - d) as u64;
        if cache.offsets.contains_key(base_off) {
            cache
        } else {
            match object_at(data, base_off, cache, loose) {
                PackRead::Read(_, _, _, c2) => c2,
                _ => cache,
            }
        }
    } else {
        cache
    };
    assert(object_at(data, offset, cache, loose) == delta_read(data, offset, p2, (bt, bc), c0));
    match zlib_inflate(data.skip(p2 as int)) {
        Some((delta, used)) => {
            match delta_outcome(bc, delta) {
                Ok(out) => {
                    assert(delta_outcome(bc, delta) == Ok::<Seq<u8>, PackFault>(out));
                },
                Err(_) => {},
            }
        },
        None => {},
    }
}

/// Every loose object has a base type.
pub open spec fn loose_ok(loose: Seq<Object>) -> bool {
    forall|i: int| 0 <= i < loose.len() ==> is_base_type(#[trigger] loose[i].object_type)
}

/// The last object of `loose` whose id is `h`.
fn loose_lookup<'a>(loose: &'a Vec<Object>, h: &crate::hash::Hash) -> (res: Option<&'a Object>)
    requires
        loose_ok(loose@),
    ensures
        match loose_find(loose@, h.0@) {
            Some(b) => res matches Some(o) && o.object_type == b.0 && o.contents@ == b.1,
            None => res is None,
        },
        res matches Some(o) ==> is_base_type(o.object_type),
{
    let mut i = loose.len();
    assert(loose@.take(i as int) =~= loose@);
    while i > 0
        invariant
            i <= loose@.len(),
            loose_ok(loose@),
            loose_find(loose@, h.0@) == loose_find(loose@.take(i as int), h.0@),
        decreases i,
    {
        let o = &loose[i - 1];
        let oh = o.hash();
        assert(loose@.take(i as int).last() == *o);
        assert(loose@.take(i as int).drop_last() =~= loose@.take(i - 1));
        if bytes_eq(&oh.0, &h.0) {
            return Some(o);
        }
        i = i - 1;
    }
    assert(loose@.take(0) =~= Seq::<Object>::empty());
    None
}

/// Reads the delta at `p` of the object at `offset`, applies it to `base`
/// and records the result in the cache.
fn read_delta(data: &[u8], offset: u64, p: usize, base: &Object, cache: &mut PackObjectCache) -> (res:
    Result<(Object, usize), GitError>)
    requires
        old(cache).wf(),
        is_base_type(base.object_type),
        p <= data@.len(),
    ensures
        final(cache).wf(),
        match delta_read(data@, offset, p as nat, (base.object_type, base.contents@), old(cache).model()) {
            PackRead::Read(t, c, end, m) => res matches Ok((o, e)) && o.object_type == t
                && o.contents@ == c && e == end && final(cache).model() == m,
            PackRead::Fault(f) => res matches Err(e) && pack_fault_error(f, e),
            PackRead::Missing(_) => false,
        },
        res matches Ok((o, _)) ==> is_base_type(o.object_type),
        res matches Ok((_, e)) ==> e <= data@.len(),
{
    let rest = vstd::slice::slice_subrange(data, p, data.len());
    assert(rest@ =~= data@.skip(p as int));
    let (delta, used) = match zlib_decompress(rest) {
        Some(r) => r,
        None => {
            return Err(GitError::InvalidObjectInfo(String::from_str("invalid zlib stream")));
        },
    };
    if !delta_header_ok_exec(base.contents.len(), delta.as_slice()) {
        return Err(GitError::InvalidObjectInfo(String::from_str("invalid delta header")));
    }
    let obj = apply_delta(delta.as_slice(), base)?;
    cache.update(obj.duplicate(), offset);
    Ok((obj, p + used))
}

/// Reads the object at `offset` of the pack `data`: the end of its bytes is
/// returned with it, and it is recorded in `cache` with every base that had
/// to be read for it. A hash delta whose base neither the cache nor `loose`
/// holds gives `NotFountHashValue` with the base's id.
pub fn next_object(data: &[u8], offset: u64, cache: &mut PackObjectCache, loose: &Vec<Object>) -> (res:
    Result<(Object, usize), GitError>)
    requires
        old(cache).wf(),
        loose_ok(loose@),
    ensures
        final(cache).wf(),
        match object_at(data@, offset, old(cache).model(), loose@) {
            PackRead::Fault(f) => res matches Err(e) && pack_fault_error(f, e),
            PackRead::Missing(h) => res matches Err(GitError::NotFountHashValue(s)) && s@
                == ascii_chars(hex_encode(h)),
            PackRead::Read(t, c, end, m) => res matches Ok((o, e)) && o.object_type == t
                && o.contents@ == c && e == end && final(cache).model() == m,
        },
        res matches Ok((o, _)) ==> is_base_type(o.object_type),
        res matches Ok((_, e)) ==> e <= data@.len(),
    decreases offset,
{
    if offset > data.len() as u64 {
        return Err(GitError::UnexpectedEof);
    }
    let mut pos = offset as usize;
    let n = varint_len_exec(data, pos);
    proof {
        crate::utils::lemma_varint_len_bound(data@.skip(pos as int));
    }
    if n == 0 {
        return Err(GitError::UnexpectedEof);
    }
    if n > 10 {
        return Err(GitError::InvalidObjectInfo(String::from_str("invalid object header")));
    }
    let (tn, size) = match read_type_and_size(data, &mut pos) {
        Ok(v) => v,
        Err(e) => {
            return Err(e);
        },
    };
    assert(data@.subrange(offset as int, offset + n) =~= data@.skip(offset as int).take(n as int));
    if 1 <= tn && tn <= 4 {
        let t = ObjectType::number_type(tn);
        let rest = vstd::slice::slice_subrange(data, pos, data.len());
        assert(rest@ =~= data@.skip(pos as int));
        let (contents, used) = match zlib_decompress(rest) {
            Some(r) => r,
            None => {
                return Err(GitError::InvalidObjectInfo(String::from_str("invalid zlib stream")));
            },
        };
        if contents.len() as u64 != size {
            return Err(GitError::InvalidObjectInfo(String::from_str("Incorrect object size")));
        }
        let obj = Object { object_type: t, contents };
        cache.update(obj.duplicate(), offset);
        Ok((obj, pos + used))
    } else if tn == 6 {
        proof {
            crate::utils::lemma_varint_len_bound(data@.skip(pos as int));
        }
        if !offset_readable_exec(data, pos) {
            return Err(GitError::InvalidObjectInfo(String::from_str("invalid offset encoding")));
        }
        let delta_offset = match read_offset_encoding(data, &mut pos) {
            Ok(v) => v,
            Err(e) => {
                return Err(e);
            },
        };
        if delta_offset > offset {
            return Err(GitError::InvalidObjectInfo(String::from_str("Invalid OffsetDelta offset")));
        }
        let base_offset = offset - delta_offset;
        let p2 = pos;
        assert(cache.wf());
        let cached = match cache.offset_object(base_offset) {
            Some(o) => Some(o.duplicate()),
            None => None,
        };
        let base = match cached {
            Some(b) => b,
            None => {
                if base_offset == offset {
                    return Err(GitError::InvalidObjectInfo(String::from_str("Invalid OffsetDelta offset")));
                }
                let (b, _) = next_object(data, base_offset, cache, loose)?;
                b
            },
        };
        read_delta(data, offset, p2, &base, cache)
    } else if tn == 7 {
        let h = match read_hash(data, &mut pos) {
            Ok(h) => h,
            Err(e) => {
                return Err(e);
            },
        };
        let p2 = pos;
        let cached = match cache.hash_object(h) {
            Some(o) => Some(o.duplicate()),
            None => None,
        };
        let base = match cached {
            Some(b) => b,
            None => match loose_lookup(loose, &h) {
                Some(o) => o.duplicate(),
                None => {
                    return Err(GitError::NotFountHashValue(h.to_plain_str()));
                },
            },
        };
        read_delta(data, offset, p2, &base, cache)
    } else {
        Err(GitError::InvalidObjectType(decimal_string(tn as u64)))
    }
}

} // verus!

verus! {

/// The outcome of reading `count` consecutive objects from `pos`.
pub enum PackDecode {
    /// The bytes do not hold a valid object, for this reason.
    Fault(PackFault),
    Missing(Seq<u8>),
    /// Where the last object ends, and the cache after reading them all.
    Done(nat, CacheModel),
}

/// Reading `count` consecutive objects of the pack `data`, the first at
/// `pos`, with `cache`; every object must start below 2^32.
pub open spec fn decode_objects(
    data: Seq<u8>,
    pos: nat,
    count: nat,
    cache: CacheModel,
    loose: Seq<Object>,
) -> PackDecode
    decreases count,
{
    if count == 0 {
        PackDecode::Done(pos, cache)
    } else if pos > u64::MAX {
        PackDecode::Fault(PackFault::TooLarge)
    } else {
        match object_at(data, pos as u64, cache, loose) {
            PackRead::Read(_, _, end, c2) => if pos >= 0x1_0000_0000 {
                PackDecode::Fault(PackFault::TooLarge)
            } else {
                decode_objects(data, end, (count - 1) as nat, c2, loose)
            },
            PackRead::Missing(h) => PackDecode::Missing(h),
            PackRead::Fault(f) => PackDecode::Fault(f),
        }
    }
}

/// The magic bytes at the start of a pack: "PACK".
pub open spec fn pack_magic() -> Seq<u8> {
    seq![0x50u8, 0x41u8, 0x43u8, 0x4bu8]
}

/// The outcome of decoding a pack file.
pub enum PackOutcome {
    /// It does not start with "PACK".
    BadMagic,
    /// Its version is not 2.
    BadVersion,
    /// Its bytes are not a valid pack, for this reason.
    Fault(PackFault),
    /// It holds a delta against an object with this id that is missing.
    Missing(Seq<u8>),
    /// Its number of objects, the objects it holds and its trailing checksum.
    Decoded(u32, CacheModel, Seq<u8>),
}

/// Decoding the pack `data`: the magic "PACK", the version 2 and the number
/// of objects, each in four bytes, then the objects one after the other, then
/// the 20-byte checksum.
pub open spec fn pack_outcome(data: Seq<u8>, loose: Seq<Object>) -> PackOutcome {
    if data.len() < 4 {
        PackOutcome::Fault(PackFault::Eof)
    } else if data.take(4) != pack_magic() {
        PackOutcome::BadMagic
    } else if data.len() < 8 {
        PackOutcome::Fault(PackFault::Eof)
    } else if be_u32(data.subrange(4, 8)) != 2 {
        PackOutcome::BadVersion
    } else if data.len() < 12 {
        PackOutcome::Fault(PackFault::Eof)
    } else {
        let count = be_u32(data.subrange(8, 12));
        objects_outcome(data, count, decode_objects(data, 12, count as nat, cache_empty(), loose))
    }
}

/// The outcome of a pack of `count` objects whose objects read as `d`: the
/// checksum follows the last object.
pub open spec fn objects_outcome(data: Seq<u8>, count: u32, d: PackDecode) -> PackOutcome {
    match d {
        PackDecode::Done(end, c) => if end + 20 > data.len() {
            PackOutcome::Fault(PackFault::Eof)
        } else {
            PackOutcome::Decoded(count, c, data.subrange(end as int, end + 20int))
        },
        PackDecode::Missing(h) => PackOutcome::Missing(h),
        PackDecode::Fault(f) => PackOutcome::Fault(f),
    }
}

/// The message of a bad magic: its four bytes in decimal, separated by
/// commas.
pub open spec fn magic_message(m: Seq<u8>) -> Seq<u8> {
    decimal(m[0] as nat) + seq![0x2cu8] + decimal(m[1] as nat) + seq![0x2cu8] + decimal(m[2] as nat)
        + seq![0x2cu8] + decimal(m[3] as nat)
}

/// A decoded pack: its header, its checksum and its objects.
pub struct Pack {
    pub head: [u8; 4],
    pub version: u32,
    pub number_of_objects: u32,
    pub signature: ID,
    pub result: PackObjectCache,
}

/// `p` is the pack whose outcome is `Decoded(count, c, sig)`.
pub open spec fn is_decoded_pack(p: Pack, count: u32, c: CacheModel, sig: Seq<u8>) -> bool {
    &&& p.head@ == pack_magic()
    &&& p.version == 2
    &&& p.number_of_objects == count
    &&& p.result.wf()
    &&& p.result.model() == c
    &&& is_id_of(p.signature, sig)
}

/// The result of decoding `data` against its outcome.
pub open spec fn decode_result(data: Seq<u8>, loose: Seq<Object>, res: Result<Pack, GitError>) -> bool {
    match pack_outcome(data, loose) {
        PackOutcome::BadMagic => res matches Err(GitError::InvalidPackHeader(m)) && m@ == ascii_chars(
            magic_message(data.take(4)),
        ),
        PackOutcome::BadVersion => res matches Err(GitError::InvalidPackFile(m)) && m@
            == "Current File"@,
        PackOutcome::Fault(f) => res matches Err(e) && pack_fault_error(f, e),
        PackOutcome::Missing(h) => res matches Err(GitError::NotFountHashValue(s)) && s@
            == ascii_chars(hex_encode(h)),
        PackOutcome::Decoded(count, c, sig) => res matches Ok(p) && is_decoded_pack(p, count, c, sig),
    }
}

/// The decimal text of a byte, as bytes.
fn byte_decimal(b: u8) -> (res: Vec<u8>)
    ensures
        res@ == decimal(b as nat),
{
    crate::text::decimal_bytes(b as u64)
}

/// Reads `total` consecutive objects of the pack `data` into `cache`, the
/// first at `pos`; returns where the last one ends.
fn read_objects(data: &[u8], pos: usize, total: u32, cache: &mut PackObjectCache, loose: &Vec<Object>) -> (res:
    Result<usize, GitError>)
    requires
        old(cache).wf(),
        loose_ok(loose@),
        pos <= data@.len(),
    ensures
        final(cache).wf(),
        match decode_objects(data@, pos as nat, total as nat, old(cache).model(), loose@) {
            PackDecode::Fault(f) => res matches Err(e) && pack_fault_error(f, e),
            PackDecode::Missing(h) => res matches Err(GitError::NotFountHashValue(s)) && s@
                == ascii_chars(hex_encode(h)),
            PackDecode::Done(end, c) => res matches Ok(e) && e == end && final(cache).model() == c,
        },
        res matches Ok(e) ==> e <= data@.len(),
{
    let ghost all = decode_objects(data@, pos as nat, total as nat, cache.model(), loose@);
    let ghost start = pos;
    let mut at = pos;
    let mut i: u32 = 0;
    while i < total
        invariant
            all == decode_objects(data@, start as nat, total as nat, old(cache).model(), loose@),
            start == pos,
            cache.wf(),
            loose_ok(loose@),
            at <= data@.len(),
            i <= total,
            all == decode_objects(data@, at as nat, (total - i) as nat, cache.model(), loose@),
        decreases total - i,
    {
        let ghost before = cache.model();
        let (_obj, end) = match next_object(data, at as u64, cache, loose) {
            Ok(v) => v,
            Err(e) => {
                assert(all == match object_at(data@, at as u64, before, loose@) {
                    PackRead::Read(_, _, end, c2) => if at >= 0x1_0000_0000 {
                        PackDecode::Fault(PackFault::TooLarge)
                    } else {
                        decode_objects(data@, end, (total - i - 1) as nat, c2, loose@)
                    },
                    PackRead::Missing(h) => PackDecode::Missing(h),
                    PackRead::Fault(f) => PackDecode::Fault(f),
                });
                return Err(e);
            },
        };
        if at as u64 >= 0x1_0000_0000u64 {
            return Err(GitError::InvalidObjectInfo(String::from_str("Packfile is too large")));
        }
        at = end;
        i = i + 1;
    }
    Ok(at)
}

impl Pack {
    /// Decodes the pack `data`; the bases of hash deltas that the pack does
    /// not hold are taken from `loose`. Invalid bytes give an error.
    pub fn decode_checked(data: &[u8], loose: &Vec<Object>) -> (res: Result<Pack, GitError>)
        requires
            loose_ok(loose@),
        ensures
            decode_result(data@, loose@, res),
    {
        let mut pos: usize = 0;
        let magic = read_bytes(data, &mut pos, 4)?;
        assert(magic@ =~= data@.take(4));
        if !(magic[0] == 0x50 && magic[1] == 0x41 && magic[2] == 0x43 && magic[3] == 0x4b) {
            assert(data@.take(4) != pack_magic()) by {
                if data@.take(4) == pack_magic() {
                    assert(magic@[0] == 0x50 && magic@[1] == 0x41 && magic@[2] == 0x43 && magic@[3]
                        == 0x4b);
                }
            }
            let mut m = byte_decimal(magic[0]);
            m.push(0x2c);
            crate::text::push_all(&mut m, byte_decimal(magic[1]).as_slice());
            m.push(0x2c);
            crate::text::push_all(&mut m, byte_decimal(magic[2]).as_slice());
            m.push(0x2c);
            crate::text::push_all(&mut m, byte_decimal(magic[3]).as_slice());
            assert(m@ =~= magic_message(data@.take(4)));
            proof {
                let d0 = decimal(magic[0] as nat);
                let d1 = decimal(magic[1] as nat);
                let d2 = decimal(magic[2] as nat);
                let d3 = decimal(magic[3] as nat);
                crate::text::lemma_decimal_digits(magic[0] as nat);
                crate::text::lemma_decimal_digits(magic[1] as nat);
                crate::text::lemma_decimal_digits(magic[2] as nat);
                crate::text::lemma_decimal_digits(magic[3] as nat);
                assert forall|k: int| 0 <= k < m@.len() implies m@[k] < 0x80 by {
                    if k < d0.len() {
                        assert(m@[k] == d0[k]);
                    } else if k == d0.len() {
                    } else if k < d0.len() + 1 + d1.len() {
                        assert(m@[k] == d1[k - d0.len() - 1]);
                    } else if k == d0.len() + 1 + d1.len() {
                    } else if k < d0.len() + 2 + d1.len() + d2.len() {
                        assert(m@[k] == d2[k - d0.len() - d1.len() - 2]);
                    } else if k == d0.len() + 2 + d1.len() + d2.len() {
                    } else {
                        assert(m@[k] == d3[k - d0.len() - d1.len() - d2.len() - 3]);
                    }
                }
            }
            return Err(GitError::InvalidPackHeader(crate::text::ascii_string(m)));
        }
        assert(data@.take(4) =~= pack_magic());
        let version = read_u32(data, &mut pos)?;
        if version != 2 {
            return Err(GitError::InvalidPackFile(String::from_str("Current File")));
        }
        let total = read_u32(data, &mut pos)?;
        let mut cache = PackObjectCache::new();
        assert(pack_outcome(data@, loose@) == objects_outcome(
            data@,
            total,
            decode_objects(data@, 12, total as nat, cache_empty(), loose@),
        ));
        let end = read_objects(data, 12, total, &mut cache, loose)?;
        pos = end;
        let sig = read_bytes(data, &mut pos, 20)?;
        Ok(Pack {
            head: [0x50u8, 0x41, 0x43, 0x4b],
            version,
            number_of_objects: total,
            signature: ID::from_bytes(sig.as_slice()),
            result: cache,
        })
    }
}

} // verus!

verus! {

/// Reading the objects at the offsets of `items`, in order, with `cache`.
pub open spec fn decode_offsets(data: Seq<u8>, items: Seq<IdxItem>, cache: CacheModel, loose: Seq<Object>) -> PackDecode
    decreases items.len(),
{
    if items.len() == 0 {
        PackDecode::Done(0, cache)
    } else {
        match object_at(data, items[0].offset as u64, cache, loose) {
            PackRead::Read(_, _, _, c2) => decode_offsets(data, items.drop_first(), c2, loose),
            PackRead::Missing(h) => PackDecode::Missing(h),
            PackRead::Fault(f) => PackDecode::Fault(f),
        }
    }
}

/// Reading the pack `data` into `cache` as one of several: a valid header,
/// its objects and its checksum.
pub open spec fn pack_into(data: Seq<u8>, cache: CacheModel, loose: Seq<Object>) -> PackDecode {
    if data.len() < 12 || data.take(4) != pack_magic() || be_u32(data.subrange(4, 8)) != 2 {
        PackDecode::Fault(PackFault::PackHeader)
    } else {
        match decode_objects(data, 12, be_u32(data.subrange(8, 12)) as nat, cache, loose) {
            PackDecode::Done(end, c) => if end + 20 > data.len() {
                PackDecode::Fault(PackFault::Eof)
            } else {
                PackDecode::Done(end + 20, c)
            },
            other => other,
        }
    }
}

/// Reading the packs `packs`, in order, into one cache.
pub open spec fn packs_into(packs: Seq<Vec<u8>>, cache: CacheModel, loose: Seq<Object>) -> PackDecode
    decreases packs.len(),
{
    if packs.len() == 0 {
        PackDecode::Done(0, cache)
    } else {
        match pack_into(packs[0]@, cache, loose) {
            PackDecode::Done(_, c) => packs_into(packs.drop_first(), c, loose),
            other => other,
        }
    }
}

/// Reads the header of one of several packs and its objects into `cache`.
fn read_pack_into(data: &[u8], cache: &mut PackObjectCache, loose: &Vec<Object>) -> (res: Result<(), GitError>)
    requires
        old(cache).wf(),
        loose_ok(loose@),
    ensures
        final(cache).wf(),
        match pack_into(data@, old(cache).model(), loose@) {
            PackDecode::Fault(f) => res matches Err(e) && pack_fault_error(f, e),
            PackDecode::Missing(h) => res matches Err(GitError::NotFountHashValue(s)) && s@
                == ascii_chars(hex_encode(h)),
            PackDecode::Done(_, c) => res is Ok && final(cache).model() == c,
        },
{
    let mut pos: usize = 0;
    if data.len() < 12 {
        return Err(GitError::InvalidPackHeader(String::from_str("short pack")));
    }
    let magic = read_bytes(data, &mut pos, 4)?;
    assert(magic@ =~= data@.take(4));
    if !(magic[0] == 0x50 && magic[1] == 0x41 && magic[2] == 0x43 && magic[3] == 0x4b) {
        assert(data@.take(4) != pack_magic()) by {
            if data@.take(4) == pack_magic() {
                assert(magic@[0] == 0x50 && magic@[1] == 0x41 && magic@[2] == 0x43 && magic@[3] == 0x4b);
            }
        }
        return Err(GitError::InvalidPackHeader(String::from_str("not a pack")));
    }
    assert(data@.take(4) =~= pack_magic());
    let version = read_u32(data, &mut pos)?;
    if version != 2 {
        return Err(GitError::InvalidPackFile(String::from_str("Current File")));
    }
    let total = read_u32(data, &mut pos)?;
    let end = read_objects(data, 12, total, cache, loose)?;
    if data.len() < 20 || end > data.len() - 20 {
        return Err(GitError::UnexpectedEof);
    }
    Ok(())
}

impl Pack {
    /// Decodes the pack `data`; the bases of hash deltas that the pack does
    /// not hold are taken from `loose`, and one that is missing from both is
    /// reported by its id.
    pub fn decode(data: &[u8], loose: &Vec<Object>) -> (res: Result<Pack, GitError>)
        requires
            loose_ok(loose@),
            !(pack_outcome(data@, loose@) is Fault),
        ensures
            decode_result(data@, loose@, res),
    {
        Pack::decode_checked(data, loose)
    }

    /// Reads the objects of the pack `data` at the offsets that `idx` lists,
    /// after checking its header; the pack's checksum is taken from the
    /// index. A hash delta's base that is missing is reported by its id.
    pub fn decode_by_idx(idx: &Idx, data: &[u8], loose: &Vec<Object>) -> (res: Result<Pack, GitError>)
        requires
            loose_ok(loose@),
            data@.len() >= 8,
            data@.take(4) == pack_magic(),
            be_u32(data@.subrange(4, 8)) == 2,
            idx.number_of_objects < 0x1_0000_0000,
            !(decode_offsets(data@, idx.idx_items@, cache_empty(), loose@) is Fault),
        ensures
            match decode_offsets(data@, idx.idx_items@, cache_empty(), loose@) {
                PackDecode::Missing(h) => res matches Err(GitError::NotFountHashValue(s)) && s@
                    == ascii_chars(hex_encode(h)),
                _ => res matches Ok(p) && p.head@ == pack_magic() && p.version == 2
                    && p.number_of_objects == idx.number_of_objects && p.result.wf()
                    && p.result.model() == cache_empty() && p.signature.bytes@
                    == idx.pack_signature.bytes@ && p.signature.hash@ == idx.pack_signature.hash@,
            },
    {
        let mut cache = PackObjectCache::new();
        let ghost all = decode_offsets(data@, idx.idx_items@, cache_empty(), loose@);
        let mut i: usize = 0;
        assert(idx.idx_items@.skip(0) =~= idx.idx_items@);
        while i < idx.idx_items.len()
            invariant
                cache.wf(),
                loose_ok(loose@),
                i <= idx.idx_items@.len(),
                all == decode_offsets(data@, idx.idx_items@, cache_empty(), loose@),
                !(all is Fault),
                all == decode_offsets(data@, idx.idx_items@.skip(i as int), cache.model(), loose@),
            decreases idx.idx_items@.len() - i,
        {
            let ghost before = cache.model();
            let ghost rest = idx.idx_items@.skip(i as int);
            assert(rest[0] == idx.idx_items@[i as int]);
            assert(rest.drop_first() =~= idx.idx_items@.skip(i + 1));
            match next_object(data, idx.idx_items[i].offset as u64, &mut cache, loose) {
                Ok(_) => {},
                Err(e) => {
                    assert(all == match object_at(data@, rest[0].offset as u64, before, loose@) {
                        PackRead::Read(_, _, _, c2) => decode_offsets(data@, rest.drop_first(), c2, loose@),
                        PackRead::Missing(h) => PackDecode::Missing(h),
                        PackRead::Fault(f) => PackDecode::Fault(f),
                    });
                    return Err(e);
                },
            }
            i = i + 1;
        }
        Ok(Pack {
            head: [0x50u8, 0x41, 0x43, 0x4b],
            version: 2,
            number_of_objects: idx.number_of_objects as u32,
            signature: idx.pack_signature.duplicate(),
            result: PackObjectCache::new(),
        })
    }

    /// Reads the packs `packs`, in order, into one cache: the result holds
    /// the objects of them all and no header or checksum. A hash delta's base
    /// that is missing is reported by its id.
    pub fn multi_decode(packs: &Vec<Vec<u8>>, loose: &Vec<Object>) -> (res: Result<Pack, GitError>)
        requires
            loose_ok(loose@),
            !(packs_into(packs@, cache_empty(), loose@) is Fault),
        ensures
            match packs_into(packs@, cache_empty(), loose@) {
                PackDecode::Missing(h) => res matches Err(GitError::NotFountHashValue(s)) && s@
                    == ascii_chars(hex_encode(h)),
                PackDecode::Done(_, c) => res matches Ok(p) && p.head@ == seq![0u8, 0u8, 0u8, 0u8]
                    && p.version == 0 && p.number_of_objects == 0 && p.signature.bytes@.len() == 0
                    && p.result.wf() && p.result.model() == c,
                PackDecode::Fault(_) => false,
            },
    {
        let mut cache = PackObjectCache::new();
        let ghost all = packs_into(packs@, cache_empty(), loose@);
        let mut i: usize = 0;
        assert(packs@.skip(0) =~= packs@);
        while i < packs.len()
            invariant
                cache.wf(),
                loose_ok(loose@),
                i <= packs@.len(),
                all == packs_into(packs@, cache_empty(), loose@),
                !(all is Fault),
                all == packs_into(packs@.skip(i as int), cache.model(), loose@),
            decreases packs@.len() - i,
        {
            let ghost rest = packs@.skip(i as int);
            assert(rest[0] == packs@[i as int]);
            assert(rest.drop_first() =~= packs@.skip(i + 1));
            let ghost before = cache.model();
            match read_pack_into(packs[i].as_slice(), &mut cache, loose) {
                Ok(()) => {},
                Err(e) => {
                    assert(all == match pack_into(rest[0]@, before, loose@) {
                        PackDecode::Done(_, c) => packs_into(rest.drop_first(), c, loose@),
                        other => other,
                    });
                    return Err(e);
                },
            }
            i = i + 1;
        }
        Ok(Pack {
            head: [0u8, 0, 0, 0],
            version: 0,
            number_of_objects: 0,
            signature: ID::from_bytes(&[]),
            result: cache,
        })
    }
}

} // verus!
