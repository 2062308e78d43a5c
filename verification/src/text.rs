//! Text inside git objects: ASCII strings, decimal numbers and hexadecimal
//! digests, as bytes and as `String`s.

use vstd::prelude::*;
use vstd::utf8::*;

use crate::utils::first_index_of;

verus! {

/// The characters of ASCII bytes.
pub open spec fn ascii_chars(b: Seq<u8>) -> Seq<char> {
    Seq::new(b.len(), |i: int| b[i] as char)
}

/// Every byte is below 0x80.
pub open spec fn all_ascii(b: Seq<u8>) -> bool {
    forall|i: int| 0 <= i < b.len() ==> b[i] < 0x80
}

/// ASCII bytes are valid UTF-8 and decode to the characters of the same codes.
pub proof fn lemma_ascii_utf8(b: Seq<u8>)
    requires
        all_ascii(b),
    ensures
        valid_utf8(b),
        decode_utf8(b) == ascii_chars(b),
        encode_utf8(ascii_chars(b)) == b,
{
    let c = ascii_chars(b);
    assert(is_ascii_chars(c)) by {
        assert forall|i| 0 <= i < c.len() implies '\0' <= #[trigger] c[i] <= '\u{7f}' by {
            assert(b[i] < 0x80);
        }
    }
    is_ascii_chars_encode_utf8(c);
    assert forall|i: int| 0 <= i < b.len() implies encode_utf8(c)[i] == b[i] by {
        assert(c[i] as u8 == encode_utf8(c)[i]);
        assert(c[i] == b[i] as char);
    }
    assert(encode_utf8(c) =~= b);
    encode_utf8_valid_utf8(c);
    encode_utf8_decode_utf8(c);
}

/// Builds a `String` from bytes that are valid UTF-8.
///
/// Trusted: calls `String::from_utf8`, whose documentation says that it
/// succeeds exactly on valid UTF-8 and keeps the characters those bytes encode.
#[verifier::external_body]
pub(crate) fn string_from_utf8(bytes: Vec<u8>) -> (res: Option<String>)
    ensures
        res is Some <==> valid_utf8(bytes@),
        res matches Some(s) ==> s@ == decode_utf8(bytes@),
{
    String::from_utf8(bytes).ok()
}

/// The UTF-8 bytes of two character sequences one after the other are those
/// of the first, then those of the second.
pub proof fn lemma_encode_utf8_concat(a: Seq<char>, b: Seq<char>)
    ensures
        vstd::utf8::encode_utf8(a + b) == vstd::utf8::encode_utf8(a) + vstd::utf8::encode_utf8(b),
    decreases a.len(),
{
    if a.len() == 0 {
        assert(a + b =~= b);
        assert(vstd::utf8::encode_utf8(a) + vstd::utf8::encode_utf8(b) =~= vstd::utf8::encode_utf8(b));
    } else {
        lemma_encode_utf8_concat(a.drop_first(), b);
        assert((a + b).drop_first() =~= a.drop_first() + b);
        assert((a + b)[0] == a[0]);
        assert(vstd::utf8::encode_utf8(a + b) =~= vstd::utf8::encode_scalar(a[0] as u32) + (
        vstd::utf8::encode_utf8(a.drop_first()) + vstd::utf8::encode_utf8(b)));
    }
}

/// The `String` of ASCII bytes.
pub fn ascii_string(bytes: Vec<u8>) -> (res: String)
    requires
        all_ascii(bytes@),
    ensures
        res@ == ascii_chars(bytes@),
{
    proof {
        lemma_ascii_utf8(bytes@);
    }
    match string_from_utf8(bytes) {
        Some(s) => s,
        None => String::new(),
    }
}

/// The lowercase hexadecimal digit for `v`.
pub open spec fn hex_digit(v: u8) -> u8 {
    if v < 10 {
        (v + 0x30) as u8
    } else {
        (v - 10 + 0x61) as u8
    }
}

/// The lowercase hexadecimal text of `b`: two digits per byte, the high
/// nibble first.
pub open spec fn hex_encode(b: Seq<u8>) -> Seq<u8>
    decreases b.len(),
{
    if b.len() == 0 {
        seq![]
    } else {
        seq![hex_digit(b[0] / 16), hex_digit(b[0] % 16)] + hex_encode(b.drop_first())
    }
}

/// The value of a hexadecimal digit, in either case.
pub open spec fn hex_value(c: u8) -> Option<u8> {
    if 0x30 <= c <= 0x39 {
        Some((c - 0x30) as u8)
    } else if 0x61 <= c <= 0x66 {
        Some((c - 0x61 + 10) as u8)
    } else if 0x41 <= c <= 0x46 {
        Some((c - 0x41 + 10) as u8)
    } else {
        None
    }
}

/// The bytes of hexadecimal text, two digits per byte; `None` when the text
/// has an odd length or a character that is not a hexadecimal digit.
pub open spec fn hex_decode(s: Seq<u8>) -> Option<Seq<u8>>
    decreases s.len(),
{
    if s.len() == 0 {
        Some(seq![])
    } else if s.len() == 1 {
        None
    } else {
        match (hex_value(s[0]), hex_value(s[1]), hex_decode(s.subrange(2, s.len() as int))) {
            (Some(h), Some(l), Some(rest)) => Some(seq![(h * 16 + l) as u8] + rest),
            _ => None,
        }
    }
}

proof fn lemma_hex_digit(v: u8)
    requires
        v < 16,
    ensures
        hex_digit(v) < 0x80,
        hex_value(hex_digit(v)) == Some(v),
{
}

/// Hexadecimal text is twice as long as its bytes, is ASCII, and decodes back.
pub proof fn lemma_hex_encode(b: Seq<u8>)
    ensures
        hex_encode(b).len() == 2 * b.len(),
        all_ascii(hex_encode(b)),
        hex_decode(hex_encode(b)) == Some(b),
    decreases b.len(),
{
    if b.len() > 0 {
        lemma_hex_encode(b.drop_first());
        let e = hex_encode(b);
        lemma_hex_digit(b[0] / 16);
        lemma_hex_digit(b[0] % 16);
        assert(e.subrange(2, e.len() as int) =~= hex_encode(b.drop_first()));
        assert(seq![b[0]] + b.drop_first() =~= b);
        assert forall|i: int| 0 <= i < e.len() implies e[i] < 0x80 by {
            if i >= 2 {
                assert(e[i] == hex_encode(b.drop_first())[i - 2]);
            }
        }
    } else {
        assert(hex_encode(b) =~= Seq::<u8>::empty());
        assert(b =~= Seq::<u8>::empty());
    }
}

/// The hexadecimal digit for `v`, as code.
fn hex_digit_exec(v: u8) -> (res: u8)
    requires
        v < 16,
    ensures
        res == hex_digit(v),
{
    if v < 10 {
        v + 0x30
    } else {
        v - 10 + 0x61
    }
}

/// The lowercase hexadecimal text of `data`, as bytes.
pub fn hex_encode_bytes(data: &[u8]) -> (res: Vec<u8>)
    ensures
        res@ == hex_encode(data@),
{
    let mut out: Vec<u8> = Vec::new();
    let mut i: usize = 0;
    assert(data@.skip(0) =~= data@);
    assert(out@ + hex_encode(data@) =~= hex_encode(data@));
    while i < data.len()
        invariant
            i <= data@.len(),
            out@ + hex_encode(data@.skip(i as int)) == hex_encode(data@),
        decreases data@.len() - i,
    {
        let b = data[i];
        assert(data@.skip(i as int).drop_first() =~= data@.skip(i + 1));
        out.push(hex_digit_exec(b / 16));
        out.push(hex_digit_exec(b % 16));
        i = i + 1;
        assert(out@ + hex_encode(data@.skip(i as int)) =~= hex_encode(data@));
    }
    assert(data@.skip(i as int) =~= Seq::<u8>::empty());
    assert(out@ =~= hex_encode(data@));
    out
}

/// The lowercase hexadecimal text of `data`, as a `String`.
pub fn hex_string(data: &[u8]) -> (res: String)
    ensures
        res@ == ascii_chars(hex_encode(data@)),
{
    let bytes = hex_encode_bytes(data);
    proof {
        lemma_hex_encode(data@);
    }
    ascii_string(bytes)
}

/// The value of a hexadecimal digit, as code.
pub fn hex_char_value(hex_char: u8) -> (res: Option<u8>)
    ensures
        res == hex_value(hex_char),
{
    if 0x30 <= hex_char && hex_char <= 0x39 {
        Some(hex_char - 0x30)
    } else if 0x61 <= hex_char && hex_char <= 0x66 {
        Some(hex_char - 0x61 + 10)
    } else if 0x41 <= hex_char && hex_char <= 0x46 {
        Some(hex_char - 0x41 + 10)
    } else {
        None
    }
}

/// Decodes hexadecimal text into bytes.
pub fn hex_decode_bytes(text: &[u8]) -> (res: Option<Vec<u8>>)
    ensures
        match hex_decode(text@) {
            Some(b) => res matches Some(v) && v@ == b,
            None => res is None,
        },
{
    let mut out: Vec<u8> = Vec::new();
    let mut i: usize = 0;
    let ghost whole = text@;
    assert(whole.skip(0) =~= whole);
    proof {
        match hex_decode(whole) {
            Some(r) => {
                assert(out@ + r =~= r);
            },
            None => {},
        }
    }
    while i + 1 < text.len()
        invariant
            i <= text@.len(),
            i % 2 == 0,
            whole == text@,
            hex_decode(whole) == (match hex_decode(whole.skip(i as int)) {
                Some(rest) => Some(out@ + rest),
                None => None::<Seq<u8>>,
            }),
        decreases text@.len() - i,
    {
        let ghost s = whole.skip(i as int);
        assert(s.subrange(2, s.len() as int) =~= whole.skip(i + 2));
        let h = hex_char_value(text[i]);
        let l = hex_char_value(text[i + 1]);
        match (h, l) {
            (Some(h), Some(l)) => {
                let ghost before = out@;
                out.push(h * 16 + l);
                i = i + 2;
                proof {
                    match hex_decode(whole.skip(i as int)) {
                        Some(rest) => {
                            assert(out@ + rest =~= before + (seq![(h * 16 + l) as u8] + rest));
                        },
                        None => {},
                    }
                }
            },
            _ => {
                return None;
            },
        }
    }
    if i < text.len() {
        assert(whole.skip(i as int).len() == 1);
        return None;
    }
    assert(whole.skip(i as int) =~= Seq::<u8>::empty());
    assert(out@ + Seq::<u8>::empty() =~= out@);
    Some(out)
}

/// The decimal digits of `n`, most significant first, with no leading zero.
pub open spec fn decimal(n: nat) -> Seq<u8>
    decreases n,
{
    if n < 10 {
        seq![(n + 0x30) as u8]
    } else {
        decimal(n / 10).push((n % 10 + 0x30) as u8)
    }
}

/// Decimal text is ASCII digits.
pub proof fn lemma_decimal_digits(n: nat)
    ensures
        decimal(n).len() >= 1,
        forall|i: int| 0 <= i < decimal(n).len() ==> 0x30 <= #[trigger] decimal(n)[i] <= 0x39,
    decreases n,
{
    if n >= 10 {
        lemma_decimal_digits(n / 10);
    }
}

/// The decimal text of `n`, as bytes.
pub fn decimal_bytes(n: u64) -> (res: Vec<u8>)
    ensures
        res@ == decimal(n as nat),
{
    let mut out: Vec<u8> = Vec::new();
    let mut m = n;
    while m >= 10
        invariant
            decimal(m as nat) + out@ == decimal(n as nat),
        decreases m,
    {
        let ghost before = out@;
        out.insert(0, (m % 10) as u8 + 0x30);
        assert(decimal(m as nat) == decimal((m / 10) as nat).push(((m % 10) + 0x30) as u8));
        assert(decimal((m / 10) as nat) + out@ =~= decimal(m as nat) + before);
        m = m / 10;
    }
    let ghost before = out@;
    out.insert(0, m as u8 + 0x30);
    assert(out@ =~= decimal(m as nat) + before);
    out
}

/// The decimal text of `n`, as a `String`.
pub fn decimal_string(n: u64) -> (res: String)
    ensures
        res@ == ascii_chars(decimal(n as nat)),
{
    let bytes = decimal_bytes(n);
    proof {
        lemma_decimal_digits(n as nat);
    }
    ascii_string(bytes)
}

/// The lowercase hexadecimal digits of `n`, most significant first, with no
/// leading zero.
pub open spec fn hex_text(n: nat) -> Seq<u8>
    decreases n,
{
    if n < 16 {
        seq![hex_digit(n as u8)]
    } else {
        hex_text(n / 16).push(hex_digit((n % 16) as u8))
    }
}

/// `s` preceded by as many zero digits as bring it to `width` bytes.
pub open spec fn zero_pad(s: Seq<u8>, width: nat) -> Seq<u8> {
    if s.len() >= width {
        s
    } else {
        Seq::new((width - s.len()) as nat, |i: int| 0x30u8) + s
    }
}

/// Hexadecimal text is ASCII.
pub proof fn lemma_hex_text_ascii(n: nat)
    ensures
        hex_text(n).len() >= 1,
        all_ascii(hex_text(n)),
    decreases n,
{
    if n >= 16 {
        lemma_hex_text_ascii(n / 16);
        assert(hex_digit((n % 16) as u8) < 0x80);
    } else {
        assert(hex_digit(n as u8) < 0x80);
    }
}

/// The lowercase hexadecimal text of `n`, as bytes.
pub fn hex_text_bytes(n: u64) -> (res: Vec<u8>)
    ensures
        res@ == hex_text(n as nat),
{
    let mut out: Vec<u8> = Vec::new();
    let mut m = n;
    while m >= 16
        invariant
            hex_text(m as nat) + out@ == hex_text(n as nat),
        decreases m,
    {
        let ghost before = out@;
        let d = (m % 16) as u8;
        let c = if d < 10 { d + 0x30 } else { d - 10 + 0x61 };
        out.insert(0, c);
        assert(hex_text(m as nat) == hex_text((m / 16) as nat).push(hex_digit((m % 16) as u8)));
        assert(hex_text((m / 16) as nat) + out@ =~= hex_text(m as nat) + before);
        m = m / 16;
    }
    let ghost before = out@;
    let d = m as u8;
    let c = if d < 10 { d + 0x30 } else { d - 10 + 0x61 };
    out.insert(0, c);
    assert(out@ =~= hex_text(m as nat) + before);
    out
}

/// The lowercase hexadecimal text of `n`, with leading zeros up to `width`
/// digits.
pub fn zero_padded_hex(n: u64, width: usize) -> (res: Vec<u8>)
    ensures
        res@ == zero_pad(hex_text(n as nat), width as nat),
        all_ascii(res@),
{
    let digits = hex_text_bytes(n);
    proof {
        lemma_hex_text_ascii(n as nat);
    }
    if digits.len() >= width {
        return digits;
    }
    let mut out: Vec<u8> = Vec::new();
    let fill = width - digits.len();
    let mut i: usize = 0;
    while i < fill
        invariant
            i <= fill,
            out@ == Seq::new(i as nat, |k: int| 0x30u8),
        decreases fill - i,
    {
        out.push(0x30);
        i = i + 1;
        assert(out@ =~= Seq::new(i as nat, |k: int| 0x30u8));
    }
    push_all(&mut out, digits.as_slice());
    assert(out@ =~= zero_pad(hex_text(n as nat), width as nat));
    assert forall|k: int| 0 <= k < out@.len() implies out@[k] < 0x80 by {
        if k >= fill {
            assert(out@[k] == digits@[k - fill]);
        }
    }
    out
}

/// Finds the first `byte` in `data`.
pub fn find_byte(data: &[u8], byte: u8) -> (res: Option<usize>)
    ensures
        match first_index_of(data@, byte) {
            Some(i) => res matches Some(r) && r as int == i,
            None => res is None,
        },
{
    let mut i: usize = 0;
    assert(data@.skip(0) =~= data@);
    while i < data.len()
        invariant
            i <= data@.len(),
            first_index_of(data@, byte) == (match first_index_of(data@.skip(i as int), byte) {
                Some(j) => Some(j + i),
                None => None::<int>,
            }),
        decreases data@.len() - i,
    {
        assert(data@.skip(i as int).drop_first() =~= data@.skip(i + 1));
        if data[i] == byte {
            return Some(i);
        }
        i = i + 1;
    }
    None
}

/// Appends all of `other` to `v`.
pub fn push_all(v: &mut Vec<u8>, other: &[u8])
    ensures
        final(v)@ == old(v)@ + other@,
{
    let mut i: usize = 0;
    while i < other.len()
        invariant
            i <= other@.len(),
            v@ == old(v)@ + other@.subrange(0, i as int),
        decreases other@.len() - i,
    {
        v.push(other[i]);
        i = i + 1;
        assert(v@ =~= old(v)@ + other@.subrange(0, i as int));
    }
    assert(other@.subrange(0, i as int) =~= other@);
}

/// A copy of `data[start..end]`.
pub fn copy_range(data: &[u8], start: usize, end: usize) -> (res: Vec<u8>)
    requires
        start <= end <= data@.len(),
    ensures
        res@ == data@.subrange(start as int, end as int),
{
    let mut out: Vec<u8> = Vec::new();
    let mut i: usize = start;
    while i < end
        invariant
            start <= i <= end <= data@.len(),
            out@ == data@.subrange(start as int, i as int),
        decreases end - i,
    {
        out.push(data[i]);
        i = i + 1;
        assert(out@ =~= data@.subrange(start as int, i as int));
    }
    out
}

} // verus!
