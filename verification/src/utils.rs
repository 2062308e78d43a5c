//! Reading and writing the variable-length integers of the pack format.
//!
//! A byte stream is a slice together with a read position; each reader
//! advances the position past what it consumed.

use vstd::prelude::*;

use crate::errors::GitError;

verus! {

/// Bits of a type-and-size header byte that hold the object type.
pub const TYPE_BITS: u8 = 3;

/// Bits of data in one byte of a variable-length integer.
pub const VAR_INT_ENCODING_BITS: u8 = 7;

/// Bits of the object size held by the first byte of a type-and-size header.
pub const TYPE_BYTE_SIZE_BITS: u8 = 4;

/// The high bit of a byte of a variable-length integer: more bytes follow.
pub const VAR_INT_CONTINUE_FLAG: u8 = 0x80;

/// Number of bytes of the base-128 group sequence at the start of `s`: up to
/// and including the first byte whose high bit is clear; 0 when every byte of
/// `s` has the high bit set.
pub open spec fn varint_len(s: Seq<u8>) -> nat
    decreases s.len(),
{
    if s.len() == 0 {
        0
    } else if s[0] < 0x80 {
        1
    } else {
        let r = varint_len(s.drop_first());
        if r == 0 {
            0
        } else {
            r + 1
        }
    }
}

/// A group sequence lies within the bytes it is read from.
pub proof fn lemma_varint_len_bound(s: Seq<u8>)
    ensures
        varint_len(s) <= s.len(),
    decreases s.len(),
{
    if s.len() > 0 {
        lemma_varint_len_bound(s.drop_first());
    }
}

/// The little-endian base-128 value of `bytes`: the low seven bits of byte
/// `k` are the bits `7k ..` of the value, kept to 64 bits.
pub open spec fn le_base128(bytes: Seq<u8>) -> u64
    decreases bytes.len(),
{
    if bytes.len() == 0 {
        0
    } else {
        ((bytes[0] & 0x7f) as u64) | (le_base128(bytes.drop_first()) << 7u64)
    }
}

/// The size encoding of `n`: its base-128 groups from the least significant
/// one, each but the last with the high bit set.
pub open spec fn base128_encode(n: u64) -> Seq<u8>
    decreases n,
{
    if n >> 7u64 > 0 {
        proof {
            lemma_shr7_decreases(n);
        }
        seq![((n & 0x7f) as u8) | 0x80] + base128_encode(n >> 7u64)
    } else {
        seq![(n & 0x7f) as u8]
    }
}

pub proof fn lemma_shr7_decreases(n: u64)
    ensures
        n >> 7u64 > 0 ==> n >> 7u64 < n,
{
    assert(n >> 7u64 > 0 ==> n >> 7u64 < n) by (bit_vector);
}

/// Keeps the low `bits` bits of `value`.
fn keep_bits(value: u64, bits: u8) -> (res: u64)
    requires
        bits < 64,
    ensures
        res == value & (((1u64 << bits) - 1) as u64),
{
    assert(1u64 << bits >= 1) by (bit_vector)
        requires
            bits < 64,
    ;
    value & ((1u64 << bits) - 1)
}

/// Reads `n` bytes of `stream` at `*pos`.
pub fn read_bytes(stream: &[u8], pos: &mut usize, n: usize) -> (res: Result<Vec<u8>, GitError>)
    ensures
        old(pos) + n <= stream@.len() ==> (res matches Ok(v) && v@ == stream@.subrange(
            *old(pos) as int,
            old(pos) + n,
        ) && *final(pos) == old(pos) + n),
        old(pos) + n > stream@.len() ==> (res matches Err(GitError::UnexpectedEof) && *final(pos)
            == *old(pos)),
{
    if *pos > stream.len() || n > stream.len() - *pos {
        return Err(GitError::UnexpectedEof);
    }
    let mut out: Vec<u8> = Vec::with_capacity(n);
    let start = *pos;
    let mut i: usize = 0;
    while i < n
        invariant
            start + n <= stream.len(),
            i <= n,
            out@ == stream@.subrange(start as int, start + i),
        decreases n - i,
    {
        assert(start + i < stream@.len());
        out.push(stream[start + i]);
        i = i + 1;
        assert(out@ =~= stream@.subrange(start as int, start + i));
    }
    *pos = start + n;
    Ok(out)
}

/// Reads one byte of `stream` at `*pos`.
fn read_byte(stream: &[u8], pos: &mut usize) -> (res: Result<u8, GitError>)
    ensures
        *old(pos) < stream@.len() ==> res == Ok::<u8, GitError>(stream@[*old(pos) as int])
            && *final(pos) == old(pos) + 1,
        *old(pos) >= stream@.len() ==> (res matches Err(GitError::UnexpectedEof) && *final(pos)
            == *old(pos)),
{
    if *pos >= stream.len() {
        return Err(GitError::UnexpectedEof);
    }
    let b = stream[*pos];
    *pos = *pos + 1;
    Ok(b)
}

/// The value of four bytes in network byte order.
pub open spec fn be_u32(s: Seq<u8>) -> u32 {
    (s[0] as int * 0x1000000 + s[1] as int * 0x10000 + s[2] as int * 0x100 + s[3] as int) as u32
}

/// Reads a 32-bit integer in network byte order.
pub fn read_u32(stream: &[u8], pos: &mut usize) -> (res: Result<u32, GitError>)
    ensures
        old(pos) + 4 <= stream@.len() ==> res == Ok::<u32, GitError>(
            be_u32(stream@.subrange(*old(pos) as int, old(pos) + 4)),
        ) && *final(pos) == old(pos) + 4,
        old(pos) + 4 > stream@.len() ==> (res matches Err(GitError::UnexpectedEof) && *final(pos)
            == *old(pos)),
{
    let bytes = read_bytes(stream, pos, 4)?;
    Ok(bytes[0] as u32 * 0x1000000 + bytes[1] as u32 * 0x10000 + bytes[2] as u32 * 0x100
        + bytes[3] as u32)
}

/// The index of the first `delimiter` in `s`, if there is one.
pub open spec fn first_index_of(s: Seq<u8>, delimiter: u8) -> Option<int>
    decreases s.len(),
{
    if s.len() == 0 {
        None
    } else if s[0] == delimiter {
        Some(0)
    } else {
        match first_index_of(s.drop_first(), delimiter) {
            Some(i) => Some(i + 1),
            None => None,
        }
    }
}

/// What `first_index_of` finds is the first occurrence.
pub proof fn lemma_first_index_of(s: Seq<u8>, d: u8)
    ensures
        first_index_of(s, d) matches Some(i) ==> 0 <= i < s.len() && s[i] == d && forall|j: int|
            0 <= j < i ==> s[j] != d,
        first_index_of(s, d) is None ==> forall|j: int| 0 <= j < s.len() ==> s[j] != d,
    decreases s.len(),
{
    if s.len() > 0 {
        lemma_first_index_of(s.drop_first(), d);
        if s[0] != d {
            assert forall|j: int| 1 <= j < s.len() implies s[j] == s.drop_first()[j - 1] by {}
        }
    }
}

/// Reads bytes up to the first `delimiter`, which is consumed and not returned.
pub fn read_until_delimiter(stream: &[u8], pos: &mut usize, delimiter: u8) -> (res: Result<
    Vec<u8>,
    GitError,
>)
    requires
        *old(pos) <= stream@.len(),
    ensures
        ({
            let rest = stream@.subrange(*old(pos) as int, stream@.len() as int);
            match first_index_of(rest, delimiter) {
                Some(i) => res matches Ok(v) && v@ == rest.subrange(0, i) && *final(pos) == old(pos)
                    + i + 1,
                None => res matches Err(GitError::UnexpectedEof),
            }
        }),
{
    let ghost rest = stream@.subrange(*old(pos) as int, stream@.len() as int);
    proof {
        lemma_first_index_of(rest, delimiter);
    }
    let start = *pos;
    let mut bytes: Vec<u8> = Vec::new();
    loop
        invariant
            start == *old(pos),
            start <= *pos <= stream@.len(),
            rest == stream@.subrange(start as int, stream@.len() as int),
            bytes@ == rest.subrange(0, *pos - start),
            forall|j: int| 0 <= j < *pos - start ==> rest[j] != delimiter,
            first_index_of(rest, delimiter) matches Some(i) ==> 0 <= i < rest.len() && rest[i]
                == delimiter && forall|j: int| 0 <= j < i ==> rest[j] != delimiter,
            first_index_of(rest, delimiter) is None ==> forall|j: int|
                0 <= j < rest.len() ==> rest[j] != delimiter,
        decreases stream@.len() - *pos,
    {
        let byte = read_byte(stream, pos)?;
        if byte == delimiter {
            assert(rest[*pos - 1 - start] == delimiter);
            return Ok(bytes);
        }
        bytes.push(byte);
        assert(bytes@ =~= rest.subrange(0, *pos - start));
    }
}

/// Reads one byte of a variable-length integer: its seven data bits, and
/// whether more bytes follow.
pub fn read_var_int_byte(stream: &[u8], pos: &mut usize) -> (res: Result<(u8, bool), GitError>)
    ensures
        *old(pos) < stream@.len() ==> res == Ok::<(u8, bool), GitError>(
            (stream@[*old(pos) as int] & 0x7f, stream@[*old(pos) as int] >= 0x80),
        ) && *final(pos) == old(pos) + 1,
        *old(pos) >= stream@.len() ==> (res matches Err(GitError::UnexpectedEof) && *final(pos)
            == *old(pos)),
{
    let byte = read_byte(stream, pos)?;
    let value = byte & !VAR_INT_CONTINUE_FLAG;
    let more_bytes = byte & VAR_INT_CONTINUE_FLAG != 0;
    assert(byte & !0x80u8 == byte & 0x7f && (byte & 0x80u8 != 0) == (byte >= 0x80)) by (bit_vector);
    Ok((value, more_bytes))
}

/// Appending a group to a sequence of at most nine groups sets the next seven
/// bits of its value.
proof fn lemma_le_base128_push(s: Seq<u8>, b: u8)
    requires
        s.len() <= 9,
    ensures
        le_base128(s.push(b)) == le_base128(s) | (((b & 0x7f) as u64) << ((7 * s.len()) as u64)),
    decreases s.len(),
{
    if s.len() == 0 {
        let sb = s.push(b);
        assert(sb.drop_first() =~= Seq::<u8>::empty());
        assert(sb[0] == b);
        assert(le_base128(sb.drop_first()) == 0);
        assert(le_base128(s) == 0);
        let x = (b & 0x7f) as u64;
        assert(x | (0u64 << 7u64) == 0u64 | (x << 0u64)) by (bit_vector);
        assert(le_base128(sb) == x | (0u64 << 7u64));
    } else {
        let t = s.drop_first();
        assert(s.push(b).drop_first() =~= t.push(b));
        lemma_le_base128_push(t, b);
        let a = ((s[0] & 0x7f) as u64);
        let lt = le_base128(t);
        let x = (b & 0x7f) as u64;
        let sh = (7 * t.len()) as u64;
        assert(sh <= 56);
        assert(a | ((lt | (x << sh)) << 7u64) == (a | (lt << 7u64)) | (x << ((sh + 7) as u64)))
            by (bit_vector)
            requires
                sh <= 56,
        ;
    }
}

/// The size encoding at the start of `rest` can be read without shifting a
/// group past 64 bits: it ends within ten bytes, or the bytes run out first.
pub open spec fn size_readable(rest: Seq<u8>) -> bool {
    &&& varint_len(rest) <= 10
    &&& varint_len(rest) == 0 ==> rest.len() <= 10
}

/// A group sequence that does not end in `s` starts with a flagged byte.
proof fn lemma_varint_len_zero(s: Seq<u8>)
    requires
        s.len() > 0,
        varint_len(s) == 0,
    ensures
        s[0] >= 0x80,
        varint_len(s.drop_first()) == 0,
{
}

/// Reads a size encoding: base-128 groups from the least significant one,
/// each but the last with the high bit set; an error when the bytes run out
/// first.
pub fn read_size_encoding(stream: &[u8], pos: &mut usize) -> (res: Result<u64, GitError>)
    requires
        *old(pos) <= stream@.len(),
        size_readable(stream@.skip(*old(pos) as int)),
    ensures
        ({
            let n = varint_len(stream@.skip(*old(pos) as int));
            &&& n > 0 ==> *final(pos) == old(pos) + n && res == Ok::<u64, GitError>(
                le_base128(stream@.subrange(*old(pos) as int, old(pos) + n)),
            )
            &&& n == 0 ==> res matches Err(GitError::UnexpectedEof)
        }),
{
    let ghost start = *pos as int;
    let ghost rest = stream@.skip(start);
    let ghost n = varint_len(rest);
    let mut value: u64 = 0;
    let mut length: u64 = 0;
    loop
        invariant
            0 <= start <= *pos <= stream@.len(),
            start == *old(pos),
            rest == stream@.skip(start),
            n == varint_len(rest),
            n <= 10,
            n == 0 ==> rest.len() <= 10 && varint_len(stream@.skip(*pos as int)) == 0,
            n > 0 ==> *pos - start < n && varint_len(stream@.skip(*pos as int)) == n - (*pos - start),
            length == 7 * (*pos - start),
            value == le_base128(stream@.subrange(start, *pos as int)),
        decreases stream@.len() - *pos,
    {
        let ghost p = *pos as int;
        let ghost k = *pos - start;
        let r = read_var_int_byte(stream, pos);
        let (byte_value, more_bytes) = match r {
            Ok(v) => v,
            Err(e) => {
                proof {
                    if n > 0 {
                        assert(stream@.skip(p).len() == 0);
                        assert(false);
                    }
                }
                return Err(e);
            },
        };
        proof {
            assert(stream@.skip(p).len() > 0);
            assert(stream@.skip(p)[0] == stream@[p]);
            if n == 0 {
                lemma_varint_len_zero(stream@.skip(p));
                assert(rest.len() == stream@.len() - start);
            }
            assert(k <= 9);
            let b = stream@[p];
            assert(stream@.subrange(start, p).len() == k);
            assert(stream@.subrange(start, p + 1) =~= stream@.subrange(start, p).push(b));
            lemma_le_base128_push(stream@.subrange(start, p), b);
            assert(stream@.skip(p).drop_first() =~= stream@.skip(p + 1));
        }
        let ghost sb = stream@[p];
        assert(byte_value < 128) by (bit_vector)
            requires
                byte_value == sb & 0x7f,
        ;
        value = value | ((byte_value as u64) << length);
        assert(value == le_base128(stream@.subrange(start, p + 1)));
        if !more_bytes {
            assert(stream@[p] < 0x80);
            assert(varint_len(stream@.skip(p)) == 1);
            return Ok(value);
        }
        length = length + VAR_INT_ENCODING_BITS as u64;
    }
}

/// A size encoding of `n` is read back as `n`, and is at most ten bytes long.
pub proof fn lemma_size_encoding_roundtrip(n: u64)
    ensures
        1 <= base128_encode(n).len() <= 10,
        varint_len(base128_encode(n)) == base128_encode(n).len(),
        le_base128(base128_encode(n)) == n,
{
    assert(n >> 63u64 < 128) by (bit_vector);
    lemma_base128_encode_len(n, 9);
    lemma_base128_encode_inverse(n);
}

proof fn lemma_base128_encode_len(n: u64, k: u64)
    requires
        k <= 9,
        n >> (7 * k) < 128,
    ensures
        1 <= base128_encode(n).len() <= k + 1,
    decreases k,
{
    if n >> 7u64 > 0 {
        lemma_shr7_decreases(n);
        if k == 0 {
            assert(n >> 0u64 == n && (n < 128 ==> n >> 7u64 == 0)) by (bit_vector);
        } else {
            let m = n >> 7u64;
            let kk = (k - 1) as u64;
            assert((n >> 7u64) >> (7 * kk) == n >> (7 * k)) by (bit_vector)
                requires
                    kk + 1 == k,
                    k <= 9,
            ;
            lemma_base128_encode_len(m, kk);
        }
    }
}

/// A size encoding of a value below 2^(7(k+1)) has at most k + 1 bytes.
pub proof fn lemma_base128_encode_len_pub(n: u64, k: u64)
    requires
        k <= 9,
        n >> (7 * k) < 128,
    ensures
        1 <= base128_encode(n).len() <= k + 1,
{
    lemma_base128_encode_len(n, k);
}

proof fn lemma_base128_encode_inverse(n: u64)
    ensures
        varint_len(base128_encode(n)) == base128_encode(n).len(),
        le_base128(base128_encode(n)) == n,
    decreases n,
{
    let e = base128_encode(n);
    let lo = (n & 0x7f) as u8;
    if n >> 7u64 > 0 {
        lemma_shr7_decreases(n);
        lemma_base128_encode_inverse(n >> 7u64);
        let rest = base128_encode(n >> 7u64);
        assert(e.drop_first() =~= rest);
        assert(e[0] == lo | 0x80u8);
        assert(le_base128(e) == ((e[0] & 0x7f) as u64) | (le_base128(rest) << 7u64));
        assert((lo | 0x80u8) >= 0x80 && ((lo | 0x80u8) & 0x7fu8) as u64 | ((n >> 7u64) << 7u64) == n)
            by (bit_vector)
            requires
                lo == (n & 0x7f) as u8,
        ;
    } else {
        assert(e.drop_first() =~= Seq::<u8>::empty());
        assert(e[0] == lo);
        assert(le_base128(e.drop_first()) == 0);
        assert(le_base128(e) == ((e[0] & 0x7f) as u64) | (0u64 << 7u64));
        assert(lo < 0x80 && (lo & 0x7fu8) as u64 | (0u64 << 7u64) == n) by (bit_vector)
            requires
                lo == (n & 0x7f) as u8,
                !(n >> 7u64 > 0),
        ;
    }
}

/// Writes `number` as a size encoding.
pub fn write_size_encoding(number: u64) -> (res: Vec<u8>)
    ensures
        res@ == base128_encode(number),
{
    let mut num: Vec<u8> = Vec::new();
    let mut number = number;
    let ghost orig = number;
    while number >> VAR_INT_ENCODING_BITS > 0
        invariant
            num@ + base128_encode(number) == base128_encode(orig),
        decreases number,
    {
        proof {
            lemma_shr7_decreases(number);
        }
        num.push((number & 0x7f) as u8 | 0x80);
        assert(num@ + base128_encode(number >> 7u64) =~= base128_encode(orig));
        number >>= VAR_INT_ENCODING_BITS;
    }
    num.push((number & 0x7f) as u8);
    assert(num@ =~= base128_encode(orig));
    num
}

/// Reads the header of a packed object: the type number in bits 4 to 6 and
/// the size in the other bits of a size encoding.
pub fn read_type_and_size(stream: &[u8], pos: &mut usize) -> (res: Result<(u8, u64), GitError>)
    requires
        *old(pos) <= stream@.len(),
        size_readable(stream@.skip(*old(pos) as int)),
    ensures
        ({
            let n = varint_len(stream@.skip(*old(pos) as int));
            let value = le_base128(stream@.subrange(*old(pos) as int, old(pos) + n));
            &&& n > 0 ==> *final(pos) == old(pos) + n && res == Ok::<(u8, u64), GitError>(
                (((value >> 4u64) & 7) as u8, (value & 0xf) | ((value >> 7u64) << 4u64)),
            )
            &&& n == 0 ==> res matches Err(GitError::UnexpectedEof)
        }),
{
    let value = read_size_encoding(stream, pos)?;
    let object_type = keep_bits(value >> TYPE_BYTE_SIZE_BITS, TYPE_BITS) as u8;
    let size = keep_bits(value, TYPE_BYTE_SIZE_BITS) | (value >> VAR_INT_ENCODING_BITS
        << TYPE_BYTE_SIZE_BITS);
    assert(((1u64 << 3u8) - 1) as u64 == 7 && ((1u64 << 4u8) - 1) as u64 == 15) by (bit_vector);
    Ok((object_type, size))
}

/// The value read from `bytes` as an offset encoding, each byte but the last
/// being followed by more: every byte shifts in seven bits, and every byte
/// that is followed by more adds one before the shift.
pub open spec fn offset_acc(bytes: Seq<u8>) -> u64
    decreases bytes.len(),
{
    if bytes.len() == 0 {
        0
    } else if bytes.len() == 1 {
        (bytes[0] & 0x7f) as u64
    } else {
        (((offset_acc(bytes.drop_last()) + 1) as u64) << 7u64) | ((bytes.last() & 0x7f) as u64)
    }
}

/// Reading `bytes` as an offset encoding never adds one to the largest
/// 64-bit value.
pub open spec fn offset_no_overflow(bytes: Seq<u8>) -> bool
    decreases bytes.len(),
{
    bytes.len() <= 1 || (offset_no_overflow(bytes.drop_last()) && offset_acc(bytes.drop_last())
        < u64::MAX)
}

/// The bytes that reading an offset encoding at the start of `rest` consumes:
/// through the first byte with the high bit clear, or all of `rest`.
pub open spec fn offset_read_span(rest: Seq<u8>) -> Seq<u8> {
    if varint_len(rest) > 0 {
        rest.take(varint_len(rest) as int)
    } else {
        rest
    }
}

/// Reading the offset encoding at the start of `rest` does not overflow.
pub open spec fn offset_readable(rest: Seq<u8>) -> bool {
    let span = offset_read_span(rest);
    &&& offset_no_overflow(span)
    &&& (varint_len(rest) == 0 && span.len() > 0 ==> offset_acc(span) < u64::MAX)
}

/// Reads the distance to the base of an offset delta: base-128 groups from
/// the most significant one, where each group that is followed by more adds one.
pub fn read_offset_encoding(stream: &[u8], pos: &mut usize) -> (res: Result<u64, GitError>)
    requires
        *old(pos) <= stream@.len(),
        offset_readable(stream@.skip(*old(pos) as int)),
    ensures
        ({
            let rest = stream@.skip(*old(pos) as int);
            let n = varint_len(rest);
            &&& n > 0 ==> res == Ok::<u64, GitError>(offset_acc(rest.take(n as int)))
                && *final(pos) == old(pos) + n
            &&& n == 0 ==> (res matches Err(GitError::UnexpectedEof))
        }),
{
    let ghost start = *pos as int;
    let ghost rest = stream@.skip(start);
    let ghost span = offset_read_span(rest);
    proof {
        lemma_varint_len_bound(rest);
    }
    let mut value: u64 = 0;
    loop
        invariant
            0 <= start <= *pos <= stream@.len(),
            start == *old(pos),
            rest == stream@.skip(start),
            span == offset_read_span(rest),
            varint_len(rest) <= rest.len(),
            offset_readable(rest),
            varint_len(rest) == 0 || *pos - start < varint_len(rest),
            varint_len(rest) > 0 ==> varint_len(stream@.skip(*pos as int)) == varint_len(rest) - (
            *pos - start),
            varint_len(rest) == 0 ==> varint_len(stream@.skip(*pos as int)) == 0,
            forall|j: int| start <= j < *pos ==> stream@[j] >= 0x80,
            *pos - start <= span.len(),
            span.subrange(0, *pos - start) == stream@.subrange(start, *pos as int),
            *pos > start ==> value == ((offset_acc(stream@.subrange(start, *pos as int)) + 1) as u64),
            *pos > start ==> offset_acc(stream@.subrange(start, *pos as int)) < u64::MAX,
            *pos == start ==> value == 0,
        decreases stream@.len() - *pos,
    {
        let ghost p = *pos as int;
        let ghost sub = stream@.subrange(start, p);
        let r = read_var_int_byte(stream, pos);
        let (byte_value, more_bytes) = match r {
            Ok(v) => v,
            Err(e) => {
                return Err(e);
            },
        };
        let ghost b = stream@[p];
        proof {
            assert(stream@.skip(p)[0] == b);
            assert(stream@.skip(p).drop_first() =~= stream@.skip(p + 1));
            assert(stream@.subrange(start, p + 1).drop_last() =~= sub);
            assert(stream@.subrange(start, p + 1).last() == b);
            if p == start {
                assert(stream@.subrange(start, p + 1).len() == 1);
            }
            assert(byte_value == b & 0x7f);
        }
        let ghost old_value = value;
        value = (value << VAR_INT_ENCODING_BITS) | byte_value as u64;
        proof {
            if p == start {
                let bv = byte_value as u64;
                assert((0u64 << 7u8) | bv == bv) by (bit_vector);
            } else {
                assert(stream@.subrange(start, p + 1).len() >= 2);
            }
        }
        assert(value == offset_acc(stream@.subrange(start, p + 1)));
        if !more_bytes {
            proof {
                assert(varint_len(stream@.skip(p)) == 1);
                assert(rest.take(varint_len(rest) as int) =~= stream@.subrange(start, p + 1));
            }
            return Ok(value);
        }
        proof {
            if varint_len(rest) > 0 {
                assert(stream@.skip(p)[0] >= 0x80);
                assert(varint_len(stream@.skip(p)) == varint_len(stream@.skip(p + 1)) + 1);
            }
            assert(span.len() > p - start + 1 || varint_len(rest) == 0);
            assert(span.subrange(0, p + 1 - start) =~= stream@.subrange(start, p + 1));
            lemma_offset_no_overflow_prefix(span, p + 1 - start);
            if varint_len(rest) == 0 && span.len() == p + 1 - start {
                assert(span =~= stream@.subrange(start, p + 1));
            }
        }
        value = value + 1;
    }
}

/// Every prefix read from a sequence without overflow is read without
/// overflow, and a proper prefix ends below the largest value.
proof fn lemma_offset_no_overflow_prefix(s: Seq<u8>, k: int)
    requires
        offset_no_overflow(s),
        1 <= k <= s.len(),
    ensures
        offset_no_overflow(s.subrange(0, k)),
        k < s.len() ==> offset_acc(s.subrange(0, k)) < u64::MAX,
    decreases s.len(),
{
    if k < s.len() {
        assert(s.drop_last().subrange(0, k) =~= s.subrange(0, k));
        if k == s.len() - 1 {
            assert(s.drop_last() =~= s.subrange(0, k));
        } else {
            lemma_offset_no_overflow_prefix(s.drop_last(), k);
        }
    } else {
        assert(s.subrange(0, k) =~= s);
    }
}

/// Every base-128 group of `m` is nonzero, up to its most significant one.
pub open spec fn groups_nonzero(m: u64) -> bool
    decreases m,
{
    m == 0 || ((m & 0x7f) != 0 && {
        proof {
            lemma_shr7_decreases(m);
        }
        groups_nonzero(m >> 7u64)
    })
}

/// The offset encoding of `n` can be written: every group above the lowest
/// one is nonzero, up to the most significant one.
pub open spec fn offset_encodable(n: u64) -> bool {
    groups_nonzero(n >> 7u64)
}

/// The bytes written for the groups of `m`, most significant first, each
/// group lowered by one and flagged as followed by more.
pub open spec fn offset_high(m: u64) -> Seq<u8>
    decreases m,
{
    if m == 0 {
        seq![]
    } else {
        proof {
            lemma_shr7_decreases(m);
        }
        offset_high(m >> 7u64) + seq![((((m & 0x7f) - 1) as u8) | 0x80)]
    }
}

/// The offset encoding written for `n`.
pub open spec fn offset_encode(n: u64) -> Seq<u8> {
    offset_high(n >> 7u64) + seq![(n & 0x7f) as u8]
}

/// Writes the distance to the base of an offset delta, most significant group
/// first.
pub fn write_offset_encoding(number: u64) -> (res: Vec<u8>)
    requires
        offset_encodable(number),
    ensures
        res@ == offset_encode(number),
{
    let ghost orig = number;
    let mut num: Vec<u8> = Vec::new();
    let mut number = number;
    num.push((number & 0x7f) as u8);
    number >>= 7;
    while number > 0
        invariant
            offset_high(number) + num@ == offset_encode(orig),
            groups_nonzero(number),
        decreases number,
    {
        proof {
            lemma_shr7_decreases(number);
        }
        assert((number & 0x7f) <= 0x7f) by (bit_vector);
        let ghost before = num@;
        num.insert(0, ((number & 0x7f) - 1) as u8 | 0x80);
        assert(offset_high(number >> 7u64) + num@ =~= offset_high(number) + before) by {
            assert(offset_high(number) == offset_high(number >> 7u64) + seq![((((number & 0x7f) - 1) as u8) | 0x80)]);
        }
        number >>= 7;
    }
    assert(offset_high(0) =~= Seq::<u8>::empty());
    assert(num@ =~= offset_encode(orig));
    num
}

/// A group sequence whose bytes but the last are flagged ends at its last byte.
proof fn lemma_varint_len_flagged(s: Seq<u8>, b: u8)
    requires
        forall|i: int| 0 <= i < s.len() ==> s[i] >= 0x80,
        b < 0x80,
    ensures
        varint_len(s + seq![b]) == s.len() + 1,
    decreases s.len(),
{
    if s.len() > 0 {
        assert((s + seq![b]).drop_first() =~= s.drop_first() + seq![b]);
        lemma_varint_len_flagged(s.drop_first(), b);
    } else {
        assert(s + seq![b] =~= seq![b]);
    }
}

proof fn lemma_offset_high(m: u64)
    requires
        m > 0,
        groups_nonzero(m),
    ensures
        offset_high(m).len() >= 1,
        forall|i: int| 0 <= i < offset_high(m).len() ==> offset_high(m)[i] >= 0x80,
        offset_no_overflow(offset_high(m)),
        offset_acc(offset_high(m)) == m - 1,
    decreases m,
{
    lemma_shr7_decreases(m);
    let h = offset_high(m);
    let e = ((((m & 0x7f) - 1) as u8) | 0x80);
    assert((m & 0x7f) != 0);
    assert(e >= 0x80 && (e & 0x7f) as u64 == (m & 0x7f) - 1 && (m >> 7u64 == 0 ==> m & 0x7f == m)
        && (m >> 7u64 != 0 ==> ((((m >> 7u64) - 1 + 1) as u64) << 7u64) | ((m & 0x7f) - 1) as u64 == m
        - 1)) by (bit_vector)
        requires
            e == ((((m & 0x7f) - 1) as u8) | 0x80),
            (m & 0x7f) != 0,
    ;
    assert(h.last() == e);
    assert(h.drop_last() =~= offset_high(m >> 7u64));
    if m >> 7u64 == 0 {
        assert(offset_high(0) =~= Seq::<u8>::empty());
        assert(h =~= seq![e]);
    } else {
        lemma_offset_high(m >> 7u64);
        let hi = m >> 7u64;
        assert forall|i: int| 0 <= i < h.len() implies h[i] >= 0x80 by {
            if i < h.len() - 1 {
                assert(h[i] == h.drop_last()[i]);
            }
        }
    }
}

/// The offset encoding written for `n` is read back as `n`: reading ends at
/// its last byte, without overflow.
pub proof fn lemma_offset_encoding_roundtrip(n: u64)
    requires
        offset_encodable(n),
    ensures
        varint_len(offset_encode(n)) == offset_encode(n).len(),
        offset_readable(offset_encode(n)),
        offset_acc(offset_encode(n)) == n,
{
    let e = offset_encode(n);
    let lo = (n & 0x7f) as u8;
    assert(lo < 0x80 && (lo & 0x7f) as u64 == n & 0x7f && (n >> 7u64 == 0 ==> n & 0x7f == n) && (n
        >> 7u64 != 0 ==> ((((n >> 7u64) - 1 + 1) as u64) << 7u64) | (n & 0x7f) == n)) by (bit_vector)
        requires
            lo == (n & 0x7f) as u8,
    ;
    lemma_shr7_decreases(n);
    if n >> 7u64 == 0 {
        assert(offset_high(0) =~= Seq::<u8>::empty());
        assert(e =~= seq![lo]);
        lemma_varint_len_flagged(Seq::<u8>::empty(), lo);
        assert(Seq::<u8>::empty() + seq![lo] =~= seq![lo]);
        assert(e.take(1) =~= e);
    } else {
        let h = offset_high(n >> 7u64);
        lemma_offset_high(n >> 7u64);
        lemma_varint_len_flagged(h, lo);
        assert(e.drop_last() =~= h);
        assert(e.last() == lo);
        assert(e.take(e.len() as int) =~= e);
    }
}

/// The bytes read for a partial integer whose present bytes are marked by
/// the low `count` bits of `present`: the value, and how many bytes were read.
pub open spec fn partial_read(present: u8, count: nat, data: Seq<u8>) -> (u64, nat)
    decreases count,
{
    if count == 0 {
        (0, 0)
    } else {
        let prev = partial_read(present, (count - 1) as nat, data);
        let idx = (count - 1) as nat;
        if (present >> (idx as u8)) & 1 == 1 {
            (prev.0 | ((data[prev.1 as int] as u64) << ((8 * idx) as u64)), prev.1 + 1)
        } else {
            prev
        }
    }
}

proof fn lemma_partial_read_used(present: u8, count: nat, data: Seq<u8>)
    ensures
        partial_read(present, count, data).1 <= count,
    decreases count,
{
    if count > 0 {
        lemma_partial_read_used(present, (count - 1) as nat, data);
    }
}

/// Reads the bytes of a little-endian integer of up to `bytes` bytes that are
/// present: bit `i` of `present_bytes` says whether byte `i` is stored; a byte
/// that is not stored is zero.
pub fn read_partial_int(stream: &[u8], pos: &mut usize, bytes: u8, present_bytes: &mut u8) -> (res:
    Result<u64, GitError>)
    requires
        *old(pos) <= stream@.len(),
    ensures
        ({
            let r = partial_read(*old(present_bytes), bytes as nat, stream@.skip(*old(pos) as int));
            &&& old(pos) + r.1 <= stream@.len() ==> res == Ok::<u64, GitError>(r.0) && *final(pos)
                == old(pos) + r.1 && *final(present_bytes) == *old(present_bytes) >> bytes
            &&& old(pos) + r.1 > stream@.len() ==> (res matches Err(GitError::UnexpectedEof))
        }),
{
    let ghost start = *pos as int;
    let ghost orig = *present_bytes;
    let ghost data = stream@.skip(start);
    let mut value: u64 = 0;
    let mut byte_index: u8 = 0;
    let limit: u8 = if bytes < 8 { bytes } else { 8 };
    assert(orig >> 0u8 == orig) by (bit_vector);
    proof {
        lemma_partial_read_high(orig, bytes as nat, data);
    }
    while byte_index < limit
        invariant
            limit <= 8,
            limit == (if bytes < 8 { bytes } else { 8u8 }),
            byte_index <= limit,
            0 <= start <= *pos <= stream@.len(),
            start == *old(pos),
            orig == *old(present_bytes),
            data == stream@.skip(start),
            *present_bytes == orig >> byte_index,
            value == partial_read(orig, byte_index as nat, data).0,
            *pos - start == partial_read(orig, byte_index as nat, data).1,
            forall|c: nat|
                byte_index <= c <= limit ==> #[trigger] partial_read(orig, c, data).1 >= partial_read(
                    orig,
                    byte_index as nat,
                    data,
                ).1,
            partial_read(orig, bytes as nat, data) == partial_read(orig, limit as nat, data),
        decreases limit - byte_index,
    {
        let ghost bi = byte_index;
        assert((*present_bytes & 1 != 0) == ((orig >> bi) & 1 == 1)) by (bit_vector)
            requires
                *present_bytes == orig >> bi,
        ;
        let ghost p = *pos as int;
        if *present_bytes & 1 != 0 {
            let byte = match read_byte(stream, pos) {
                Ok(b) => b,
                Err(e) => {
                    proof {
                        assert(partial_read(orig, (bi + 1) as nat, data).1 == p - start + 1);
                        lemma_partial_read_mono(orig, (bi + 1) as nat, limit as nat, data);
                    }
                    return Err(e);
                },
            };
            assert(byte == data[(*pos - 1 - start) as int]);
            value = value | ((byte as u64) << (byte_index * 8));
        }
        *present_bytes = *present_bytes >> 1;
        assert((orig >> bi) >> 1u8 == orig >> ((bi + 1) as u8)) by (bit_vector)
            requires
                bi < 8,
        ;
        byte_index = byte_index + 1;
        proof {
            assert forall|c: nat| byte_index <= c <= limit implies #[trigger] partial_read(orig, c, data).1
                >= partial_read(orig, byte_index as nat, data).1 by {
                lemma_partial_read_mono(orig, byte_index as nat, c, data);
            }
        }
    }
    let ghost lim = limit;
    assert(lim == 8 ==> orig >> lim == 0u8 && orig >> bytes == 0u8) by (bit_vector)
        requires
            lim == 8 ==> bytes >= 8,
    ;
    Ok(value)
}

/// Past the eighth byte no presence bit is left: reading more bytes reads
/// nothing more.
proof fn lemma_partial_read_high(present: u8, count: nat, data: Seq<u8>)
    requires
        count <= 256,
    ensures
        count >= 8 ==> partial_read(present, count, data) == partial_read(present, 8, data),
    decreases count,
{
    if count > 8 {
        lemma_partial_read_high(present, (count - 1) as nat, data);
        let idx = (count - 1) as u8;
        assert(idx >= 8 ==> (present >> idx) & 1 == 0u8) by (bit_vector);
    }
}

proof fn lemma_partial_read_mono(present: u8, a: nat, b: nat, data: Seq<u8>)
    requires
        a <= b,
    ensures
        partial_read(present, a, data).1 <= partial_read(present, b, data).1,
    decreases b,
{
    if a < b {
        lemma_partial_read_mono(present, a, (b - 1) as nat, data);
    }
}

/// The four bytes of `value` in network byte order.
pub fn u32_vec(value: u32) -> (res: Vec<u8>)
    ensures
        res@ == seq![
            ((value >> 24u32) & 0xff) as u8,
            ((value >> 16u32) & 0xff) as u8,
            ((value >> 8u32) & 0xff) as u8,
            (value & 0xff) as u8,
        ],
        be_u32(res@) == value,
{
    let mut result: Vec<u8> = Vec::new();
    result.push((value >> 24 & 0xff) as u8);
    result.push((value >> 16 & 0xff) as u8);
    result.push((value >> 8 & 0xff) as u8);
    result.push((value & 0xff) as u8);
    let b0 = (value >> 24 & 0xff) as u8;
    let b1 = (value >> 16 & 0xff) as u8;
    let b2 = (value >> 8 & 0xff) as u8;
    let b3 = (value & 0xff) as u8;
    assert(b0 as u32 * 0x1000000 + b1 as u32 * 0x10000 + b2 as u32 * 0x100 + b3 as u32 == value)
        by (bit_vector)
        requires
            b0 == (value >> 24u32 & 0xff) as u8,
            b1 == (value >> 16u32 & 0xff) as u8,
            b2 == (value >> 8u32 & 0xff) as u8,
            b3 == (value & 0xff) as u8,
    ;
    result
}

/// The objects of a pack file: what lies between its 12-byte header and its
/// 20-byte checksum.
pub fn get_pack_raw_data(data: Vec<u8>) -> (res: Vec<u8>)
    requires
        data@.len() >= 32,
    ensures
        res@ == data@.subrange(12, data@.len() - 20),
{
    let mut pos: usize = 12;
    match read_bytes(data.as_slice(), &mut pos, data.len() - 32) {
        Ok(v) => v,
        Err(_) => Vec::new(),
    }
}

} // verus!

verus! {

/// Reads a 20-byte object id at `*pos`.
pub fn read_hash(stream: &[u8], pos: &mut usize) -> (res: Result<crate::hash::Hash, GitError>)
    ensures
        old(pos) + 20 <= stream@.len() ==> (res matches Ok(h) && h.0@ == stream@.subrange(
            *old(pos) as int,
            old(pos) + 20,
        ) && *final(pos) == old(pos) + 20),
        old(pos) + 20 > stream@.len() ==> (res matches Err(GitError::UnexpectedEof) && *final(pos)
            == *old(pos)),
{
    let bytes = read_bytes(stream, pos, 20)?;
    Ok(crate::hash::Hash(crate::hash::array20(bytes.as_slice())))
}

/// The number of bytes of the base-128 group sequence at `pos`, 0 when it
/// does not end within `stream`.
pub fn varint_len_exec(stream: &[u8], pos: usize) -> (res: usize)
    requires
        pos <= stream@.len(),
    ensures
        res == varint_len(stream@.skip(pos as int)),
{
    let mut i = stream.len();
    let mut n: usize = 0;
    assert(stream@.skip(i as int) =~= Seq::<u8>::empty());
    while i > pos
        invariant
            pos <= i <= stream@.len(),
            n == varint_len(stream@.skip(i as int)),
            n <= stream@.len() - i,
        decreases i,
    {
        i = i - 1;
        assert(stream@.skip(i as int).drop_first() =~= stream@.skip(i + 1));
        assert(stream@.skip(i as int)[0] == stream@[i as int]);
        if stream[i] < 0x80 {
            n = 1;
        } else if n != 0 {
            n = n + 1;
        }
    }
    n
}

proof fn lemma_no_overflow_prefixes(s: Seq<u8>)
    ensures
        offset_no_overflow(s) <==> forall|k: int| 1 <= k < s.len() ==> offset_acc(#[trigger] s.take(k))
            < u64::MAX,
    decreases s.len(),
{
    if s.len() > 1 {
        let d = s.drop_last();
        lemma_no_overflow_prefixes(d);
        assert(d =~= s.take(s.len() - 1));
        assert forall|k: int| 1 <= k < d.len() implies #[trigger] d.take(k) == s.take(k) by {
            assert(d.take(k) =~= s.take(k));
        }
        if offset_no_overflow(s) {
            assert forall|k: int| 1 <= k < s.len() implies offset_acc(#[trigger] s.take(k))
                < u64::MAX by {
                if k < d.len() {
                    assert(d.take(k) == s.take(k));
                }
            }
        }
        if forall|k: int| 1 <= k < s.len() ==> offset_acc(#[trigger] s.take(k)) < u64::MAX {
            assert forall|k: int| 1 <= k < d.len() implies offset_acc(#[trigger] d.take(k))
                < u64::MAX by {
                assert(d.take(k) == s.take(k));
            }
            assert(offset_acc(s.take(s.len() - 1)) < u64::MAX);
        }
    }
}

/// Whether the offset encoding at `pos` can be read without overflow.
pub fn offset_readable_exec(stream: &[u8], pos: usize) -> (res: bool)
    requires
        pos <= stream@.len(),
    ensures
        res == offset_readable(stream@.skip(pos as int)),
{
    let ghost rest = stream@.skip(pos as int);
    let n = varint_len_exec(stream, pos);
    proof {
        lemma_varint_len_bound(rest);
    }
    let span_len = if n > 0 {
        n
    } else {
        stream.len() - pos
    };
    let ghost span = offset_read_span(rest);
    assert(span.len() == span_len);
    assert(span =~= stream@.subrange(pos as int, pos + span_len));
    let mut acc: u64 = 0;
    let mut i: usize = 0;
    while i < span_len
        invariant
            pos + span_len <= stream.len(),
            span == stream@.subrange(pos as int, pos + span_len),
            span == offset_read_span(rest),
            rest == stream@.skip(pos as int),
            span.len() == span_len,
            i <= span_len,
            i >= 1 ==> acc == offset_acc(span.take(i as int)),
            forall|k: int| 1 <= k < i ==> offset_acc(#[trigger] span.take(k)) < u64::MAX,
        decreases span_len - i,
    {
        let b = stream[pos + i];
        assert(span[i as int] == b);
        let ghost t = span.take(i + 1);
        assert(t.drop_last() =~= span.take(i as int));
        assert(t.last() == b);
        if i == 0 {
            acc = (b & 0x7f) as u64;
        } else {
            if acc == u64::MAX {
                proof {
                    lemma_no_overflow_prefixes(span);
                }
                return false;
            }
            acc = ((acc + 1) << 7u64) | (b & 0x7f) as u64;
        }
        i = i + 1;
    }
    proof {
        lemma_no_overflow_prefixes(span);
        if span_len >= 1 {
            assert(span.take(span_len as int) =~= span);
        }
    }
    if n == 0 && span_len > 0 && acc == u64::MAX {
        return false;
    }
    true
}

} // verus!
