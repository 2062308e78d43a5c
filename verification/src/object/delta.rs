//! Applying the delta of a packed object to its base.

use vstd::prelude::*;

use crate::errors::{make_error, GitError};
use crate::object::Object;
use crate::text::{copy_range, push_all};
use crate::utils::{
    le_base128, partial_read, read_bytes, read_partial_int, read_size_encoding, varint_len,
    varint_len_exec,
};

verus! {

/// Bit 7 of an instruction: copy from the base rather than insert data.
pub const COPY_INSTRUCTION_FLAG: u8 = 0x80;

/// Bytes of the offset of a copy instruction.
pub const COPY_OFFSET_BYTES: u8 = 4;

/// Bytes of the size of a copy instruction.
pub const COPY_SIZE_BYTES: u8 = 3;

/// The size of a copy whose size is written as zero.
pub const COPY_ZERO_SIZE: u64 = 0x10000;

/// Why a delta cannot be applied.
pub enum DeltaFault {
    /// An insert instruction of zero bytes.
    BadData,
    /// The delta ends inside an instruction.
    Eof,
    /// A copy reaches past the end of the base.
    BadCopy,
}

/// The outcome of the next instruction of a delta.
pub enum DeltaStep {
    /// No instruction is left.
    End,
    /// The instruction is invalid.
    Fail(DeltaFault),
    /// The instruction appends these bytes and takes this many bytes of the delta.
    Emit(Seq<u8>, nat),
}

/// The outcome of the instruction at the start of `rest`, applied to `base`:
/// an instruction byte below 0x80 inserts that many following bytes; one with
/// bit 7 set copies from the base, its bits 0 to 3 saying which offset bytes
/// follow and bits 4 to 6 which size bytes, a size of zero standing for 0x10000.
pub open spec fn delta_step(base: Seq<u8>, rest: Seq<u8>) -> DeltaStep {
    if rest.len() == 0 {
        DeltaStep::End
    } else {
        let ins = rest[0];
        let r = rest.drop_first();
        if ins < 0x80 {
            if ins == 0 {
                DeltaStep::Fail(DeltaFault::BadData)
            } else if ins as nat > r.len() {
                DeltaStep::Fail(DeltaFault::Eof)
            } else {
                DeltaStep::Emit(r.take(ins as int), 1 + ins as nat)
            }
        } else {
            let o = partial_read(ins, 4, r);
            let sz = partial_read(ins >> 4u8, 3, r.skip(o.1 as int));
            if o.1 > r.len() || o.1 + sz.1 > r.len() {
                DeltaStep::Fail(DeltaFault::Eof)
            } else {
                let size: nat = if sz.0 == 0 {
                    0x10000
                } else {
                    sz.0 as nat
                };
                if o.0 + size > base.len() {
                    DeltaStep::Fail(DeltaFault::BadCopy)
                } else {
                    DeltaStep::Emit(base.subrange(o.0 as int, o.0 + size), 1 + o.1 + sz.1)
                }
            }
        }
    }
}

/// The bytes that the instructions `delta` build from `base`, or why they
/// cannot be applied.
pub open spec fn apply_instructions(base: Seq<u8>, delta: Seq<u8>) -> Result<Seq<u8>, DeltaFault>
    decreases delta.len(),
{
    match delta_step(base, delta) {
        DeltaStep::End => Ok(seq![]),
        DeltaStep::Fail(f) => Err(f),
        DeltaStep::Emit(out, n) => if 0 < n <= delta.len() {
            match apply_instructions(base, delta.skip(n as int)) {
                Ok(o) => Ok(out + o),
                Err(f) => Err(f),
            }
        } else {
            Err(DeltaFault::Eof)
        },
    }
}

/// An instruction takes at least its own byte and no more than is left.
pub proof fn lemma_delta_step_len(base: Seq<u8>, rest: Seq<u8>)
    ensures
        delta_step(base, rest) matches DeltaStep::Emit(out, n) ==> 0 < n <= rest.len(),
{
}

/// The error that reports a delta fault.
pub open spec fn fault_error(f: DeltaFault, e: GitError) -> bool {
    match f {
        DeltaFault::BadData => e matches GitError::Other(m) && m@ == "Invalid data instruction"@,
        DeltaFault::Eof => e is UnexpectedEof,
        DeltaFault::BadCopy => e matches GitError::Other(m) && m@ == "Invalid copy instruction"@,
    }
}

proof fn lemma_partial_read_used(present: u8, count: nat, data: Seq<u8>)
    ensures
        partial_read(present, count, data).1 <= count,
    decreases count,
{
    if count > 0 {
        lemma_partial_read_used(present, (count - 1) as nat, data);
    }
}

proof fn lemma_partial_read_bound(present: u8, count: nat, data: Seq<u8>)
    requires
        count <= 4,
    ensures
        partial_read(present, count, data).0 < (1u64 << ((8 * count) as u64)),
    decreases count,
{
    if count > 0 {
        lemma_partial_read_bound(present, (count - 1) as nat, data);
        let prev = partial_read(present, (count - 1) as nat, data);
        let c = (count - 1) as u64;
        if (present >> (c as u8)) & 1 == 1 {
            let b = data[prev.1 as int];
            let v = prev.0;
            assert(v | ((b as u64) << (8 * c)) < (1u64 << (8 * (c + 1)))) by (bit_vector)
                requires
                    v < (1u64 << (8 * c)),
                    c < 4,
            ;
        } else {
            assert((1u64 << (8 * c)) <= (1u64 << (8 * (c + 1)))) by (bit_vector)
                requires
                    c < 4,
            ;
        }
    } else {
        assert(0u64 < (1u64 << 0u64)) by (bit_vector);
    }
}

/// Applies the instruction at `*pos` of `stream` to `base`, appending what it
/// builds to `result`; `Ok(false)` when no instruction is left.
pub fn apply_delta_instruction(
    stream: &[u8],
    pos: &mut usize,
    base: &[u8],
    result: &mut Vec<u8>,
) -> (res: Result<bool, GitError>)
    requires
        *old(pos) <= stream@.len(),
    ensures
        match delta_step(base@, stream@.skip(*old(pos) as int)) {
            DeltaStep::End => res == Ok::<bool, GitError>(false) && final(result)@ == old(result)@
                && *final(pos) == *old(pos),
            DeltaStep::Fail(f) => res matches Err(e) && fault_error(f, e),
            DeltaStep::Emit(out, n) => res == Ok::<bool, GitError>(true) && final(result)@ == old(
                result,
            )@ + out && *final(pos) == old(pos) + n,
        },
{
    let ghost rest = stream@.skip(*pos as int);
    let ghost r = rest.drop_first();
    let start = *pos;
    let instruction = match read_bytes(stream, pos, 1) {
        Ok(b) => b[0],
        Err(_) => {
            return Ok(false);
        },
    };
    assert(instruction == rest[0]);
    assert(stream@.skip(*pos as int) =~= r);
    if instruction & COPY_INSTRUCTION_FLAG == 0 {
        assert(instruction & 0x80 == 0 ==> instruction < 0x80) by (bit_vector);
        if instruction == 0 {
            return Err(make_error("Invalid data instruction"));
        }
        let data = match read_bytes(stream, pos, instruction as usize) {
            Ok(d) => d,
            Err(e) => {
                return Err(e);
            },
        };
        assert(data@ =~= r.take(instruction as int));
        push_all(result, data.as_slice());
    } else {
        assert(instruction & 0x80 != 0 ==> instruction >= 0x80) by (bit_vector);
        let mut nonzero_bytes = instruction;
        let ghost p1 = *pos;
        let offset = match read_partial_int(stream, pos, COPY_OFFSET_BYTES, &mut nonzero_bytes) {
            Ok(v) => v,
            Err(e) => {
                proof {
                    lemma_partial_read_used(instruction, 4, r);
                }
                return Err(e);
            },
        };
        assert(stream@.skip(*pos as int) =~= r.skip((*pos - p1) as int));
        let ghost p2 = *pos;
        let mut size = match read_partial_int(stream, pos, COPY_SIZE_BYTES, &mut nonzero_bytes) {
            Ok(v) => v,
            Err(e) => {
                return Err(e);
            },
        };
        proof {
            lemma_partial_read_bound(instruction, 4, r);
            lemma_partial_read_bound(instruction >> 4u8, 3, r.skip((p2 - p1) as int));
            assert((1u64 << 32u64) == 0x1_0000_0000u64) by (bit_vector);
            assert((1u64 << 24u64) == 0x100_0000u64) by (bit_vector);
        }
        assert(offset < 0x1_0000_0000u64);
        assert(size < 0x100_0000u64);
        if size == 0 {
            size = COPY_ZERO_SIZE;
        }
        if offset + size > base.len() as u64 {
            return Err(make_error("Invalid copy instruction"));
        }
        let part = copy_range(base, offset as usize, (offset + size) as usize);
        push_all(result, part.as_slice());
    }
    Ok(true)
}

/// The header of a delta: the length of the base, then the length of the
/// result, each as a size encoding.
pub open spec fn delta_header_ok(base_len: nat, delta: Seq<u8>) -> bool {
    let n1 = varint_len(delta);
    &&& 1 <= n1 <= 10
    &&& le_base128(delta.take(n1 as int)) == base_len ==> 1 <= varint_len(delta.skip(n1 as int))
        <= 10
}

/// Whether the header of `delta` can be read against a base of `base_len`
/// bytes.
pub fn delta_header_ok_exec(base_len: usize, delta: &[u8]) -> (res: bool)
    ensures
        res == delta_header_ok(base_len as nat, delta@),
{
    assert(delta@.skip(0) =~= delta@);
    let n1 = varint_len_exec(delta, 0);
    proof {
        crate::utils::lemma_varint_len_bound(delta@);
    }
    if n1 < 1 || n1 > 10 {
        return false;
    }
    let mut pos: usize = 0;
    let base_size = match read_size_encoding(delta, &mut pos) {
        Ok(v) => v,
        Err(_) => {
            return false;
        },
    };
    assert(delta@.subrange(0, pos as int) =~= delta@.take(pos as int));
    if base_size != base_len as u64 {
        return true;
    }
    let n2 = varint_len_exec(delta, pos);
    1 <= n2 && n2 <= 10
}

/// Applies a delta to its base object: checks the base length in the
/// header, runs the instructions and checks the result length. The result
/// has the type of the base.
pub fn apply_delta(delta: &[u8], base: &Object) -> (res: Result<Object, GitError>)
    requires
        delta_header_ok(base.contents@.len(), delta@),
    ensures
        ({
            let n1 = varint_len(delta@);
            let base_size = le_base128(delta@.take(n1 as int));
            let rest = delta@.skip(n1 as int);
            let n2 = varint_len(rest);
            let result_size = le_base128(rest.take(n2 as int));
            if base.contents@.len() != base_size {
                res matches Err(GitError::Other(m)) && m@ == "Incorrect base object length"@
            } else {
                match apply_instructions(base.contents@, rest.skip(n2 as int)) {
                    Err(f) => res matches Err(e) && fault_error(f, e),
                    Ok(out) => if out.len() != result_size {
                        res matches Err(GitError::Other(m)) && m@ == "Incorrect object length"@
                    } else {
                        res matches Ok(o) && o.object_type == base.object_type && o.contents@
                            == out
                    },
                }
            }
        }),
{
    let mut pos: usize = 0;
    assert(delta@.skip(0) =~= delta@);
    proof {
        crate::utils::lemma_varint_len_bound(delta@);
    }
    let base_size = match read_size_encoding(delta, &mut pos) {
        Ok(v) => v,
        Err(e) => {
            return Err(e);
        },
    };
    assert(delta@.subrange(0, pos as int) =~= delta@.take(pos as int));
    proof {
        crate::utils::lemma_varint_len_bound(delta@.skip(pos as int));
    }
    if base.contents.len() as u64 != base_size {
        return Err(make_error("Incorrect base object length"));
    }
    let ghost p1 = pos;
    let result_size = match read_size_encoding(delta, &mut pos) {
        Ok(v) => v,
        Err(e) => {
            return Err(e);
        },
    };
    assert(delta@.subrange(p1 as int, pos as int) =~= delta@.skip(p1 as int).take(
        (pos - p1) as int,
    ));
    assert(delta@.skip(pos as int) =~= delta@.skip(p1 as int).skip((pos - p1) as int));
    let ghost start = pos;
    let ghost all = apply_instructions(base.contents@, delta@.skip(start as int));
    assert(delta@.skip(p1 as int).skip((start - p1) as int) =~= delta@.skip(start as int));
    let mut result: Vec<u8> = Vec::new();
    loop
        invariant
            varint_len(delta@) == p1,
            p1 <= start,
            varint_len(delta@.skip(p1 as int)) == start - p1,
            delta@.skip(p1 as int).skip((start - p1) as int) == delta@.skip(start as int),
            result_size == le_base128(delta@.skip(p1 as int).take((start - p1) as int)),
            base.contents@.len() == le_base128(delta@.take(p1 as int)),
            start <= pos <= delta@.len(),
            all == apply_instructions(base.contents@, delta@.skip(start as int)),
            all == (match apply_instructions(base.contents@, delta@.skip(pos as int)) {
                Ok(o) => Ok(result@ + o),
                Err(f) => Err::<Seq<u8>, DeltaFault>(f),
            }),
        ensures
            apply_instructions(base.contents@, delta@.skip(pos as int)) == Ok::<Seq<u8>, DeltaFault>(
                Seq::<u8>::empty(),
            ),
        decreases delta@.len() - pos,
    {
        let ghost p = pos;
        let ghost before = result@;
        let more = match apply_delta_instruction(delta, &mut pos, base.contents.as_slice(), &mut result) {
            Ok(m) => m,
            Err(e) => {
                proof {
                    match delta_step(base.contents@, delta@.skip(p as int)) {
                        DeltaStep::Fail(f) => {
                            assert(apply_instructions(base.contents@, delta@.skip(p as int)) == Err::<Seq<u8>, DeltaFault>(f));
                        },
                        _ => {},
                    }
                }
                return Err(e);
            },
        };
        if !more {
            proof {
                match delta_step(base.contents@, delta@.skip(p as int)) {
                    DeltaStep::End => {
                        assert(apply_instructions(base.contents@, delta@.skip(pos as int)) == Ok::<Seq<u8>, DeltaFault>(Seq::<u8>::empty()));
                    },
                    _ => {},
                }
            }
            assert(result@ + Seq::<u8>::empty() =~= result@);
            break ;
        }
        proof {
            let s = delta@.skip(p as int);
            lemma_delta_step_len(base.contents@, s);
            match delta_step(base.contents@, s) {
                DeltaStep::Emit(out, n) => {
                    assert(delta@.skip(pos as int) =~= s.skip(n as int));
                    match apply_instructions(base.contents@, delta@.skip(pos as int)) {
                        Ok(o) => {
                            assert(result@ + o =~= before + (out + o));
                        },
                        Err(_) => {},
                    }
                },
                _ => {},
            }
        }
    }
    proof {
        let n1 = varint_len(delta@);
        let rest = delta@.skip(n1 as int);
        let n2 = varint_len(rest);
        assert(all == Ok::<Seq<u8>, DeltaFault>(result@));
        assert(rest.skip(n2 as int) == delta@.skip(start as int));
        assert(apply_instructions(base.contents@, rest.skip(n2 as int)) == Ok::<Seq<u8>, DeltaFault>(result@));
        assert(result_size == le_base128(rest.take(n2 as int)));
    }
    if result.len() as u64 != result_size {
        return Err(make_error("Incorrect object length"));
    }
    Ok(Object { object_type: base.object_type, contents: result })
}

} // verus!
