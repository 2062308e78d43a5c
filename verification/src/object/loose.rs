//! Loose objects: a zlib stream holding a type word, a space, the decimal
//! size of the contents, a NUL byte, and the contents.

use vstd::prelude::*;

use crate::errors::{make_error, GitError};
use crate::object::metadata::{all_digits, digits_value, object_hash, parse_decimal};
use crate::object::types::{bytes_eq, ObjectType};
use crate::object::Object;
use crate::text::{all_ascii, ascii_chars, decimal, decimal_bytes, hex_encode, lemma_decimal_digits, push_all};
use crate::utils::{first_index_of, read_until_delimiter};
use crate::zlib::{zlib_decompress, zlib_inflate};

verus! {

/// The items of a byte list as `Debug` writes them: decimal numbers separated
/// by a comma and a space.
pub open spec fn debug_items(s: Seq<u8>) -> Seq<u8>
    decreases s.len(),
{
    if s.len() == 0 {
        seq![]
    } else if s.len() == 1 {
        decimal(s[0] as nat)
    } else {
        debug_items(s.drop_last()) + seq![0x2cu8, 0x20u8] + decimal(s.last() as nat)
    }
}

/// A byte list as `Debug` writes it: its items in square brackets.
pub open spec fn debug_bytes(s: Seq<u8>) -> Seq<u8> {
    seq![0x5bu8] + debug_items(s) + seq![0x5du8]
}

/// The `Debug` text of a byte list, such as `[49, 50]`.
pub fn debug_text(bytes: &[u8]) -> (res: Vec<u8>)
    ensures
        res@ == debug_bytes(bytes@),
        all_ascii(res@),
{
    let ghost s = bytes@;
    let mut out: Vec<u8> = Vec::new();
    out.push(0x5b);
    let mut i: usize = 0;
    assert(s.take(0) =~= Seq::<u8>::empty());
    while i < bytes.len()
        invariant
            s == bytes@,
            i <= s.len(),
            out@ == seq![0x5bu8] + debug_items(s.take(i as int)),
            all_ascii(out@),
        decreases s.len() - i,
    {
        let ghost before = out@;
        if i > 0 {
            out.push(0x2c);
            out.push(0x20);
        }
        let digits = decimal_bytes(bytes[i] as u64);
        proof {
            lemma_decimal_digits(bytes[i as int] as nat);
        }
        push_all(&mut out, digits.as_slice());
        let ghost next = s.take(i + 1);
        assert(next.drop_last() =~= s.take(i as int));
        assert(next.last() == s[i as int]);
        if i == 0 {
            assert(out@ =~= seq![0x5bu8] + debug_items(next));
        } else {
            assert(out@ =~= seq![0x5bu8] + debug_items(next));
        }
        i = i + 1;
    }
    out.push(0x5d);
    assert(s.take(i as int) =~= s);
    assert(out@ =~= debug_bytes(s));
    out
}

/// How reading a loose object from its decompressed stream `data` ends: the
/// header's size text, then the contents; or the error the reader gives.
pub enum LooseRead {
    /// There is no space after the type word, or no NUL after the size.
    Eof,
    /// The size text is not a decimal number that fits in a `usize`.
    BadSize(Seq<u8>),
    /// The contents do not have the size that the header gives.
    WrongSize,
    /// The contents.
    Contents(Seq<u8>),
}

/// Reads the header and contents of the decompressed stream of a loose
/// object.
pub open spec fn loose_read(data: Seq<u8>) -> LooseRead {
    match first_index_of(data, 0x20) {
        None => LooseRead::Eof,
        Some(i) => {
            let r = data.skip(i + 1);
            match first_index_of(r, 0) {
                None => LooseRead::Eof,
                Some(j) => {
                    let size = r.take(j);
                    let contents = r.skip(j + 1);
                    if !(all_digits(size) && digits_value(size) <= usize::MAX) {
                        LooseRead::BadSize(size)
                    } else if contents.len() != digits_value(size) {
                        LooseRead::WrongSize
                    } else {
                        LooseRead::Contents(contents)
                    }
                },
            }
        },
    }
}

/// The result of reading a loose object whose file holds `compressed`, as an
/// error or as the contents.
pub open spec fn loose_outcome(compressed: Seq<u8>) -> Option<LooseRead> {
    match zlib_inflate(compressed) {
        None => None,
        Some((data, _)) => Some(loose_read(data)),
    }
}

/// The object read from a loose object file that holds `compressed`: whether
/// there is one, and its contents.
pub open spec fn loose_readable(compressed: Seq<u8>) -> bool {
    loose_outcome(compressed) matches Some(LooseRead::Contents(_))
}

/// Reads a loose object from the bytes of its file.
///
/// The type word of the header is read up to its space and not interpreted:
/// whatever it says, the object comes back typed as a commit. An error comes
/// when the stream is not zlib, when the header is cut short, when the size
/// is no decimal number (the message shows its bytes), or when the contents
/// have another length than the size.
pub fn read_unpacked_object(compressed: &[u8]) -> (res: Result<Object, GitError>)
    ensures
        match loose_outcome(compressed@) {
            None => res matches Err(GitError::Other(m)) && m@ == "corrupt deflate stream"@,
            Some(LooseRead::Eof) => res matches Err(GitError::UnexpectedEof),
            Some(LooseRead::BadSize(size)) => res matches Err(GitError::Other(m)) && m@
                == "Invalid object size: "@ + ascii_chars(debug_bytes(size)),
            Some(LooseRead::WrongSize) => res matches Err(GitError::Other(m)) && m@
                == "Incorrect object size"@,
            Some(LooseRead::Contents(c)) => res matches Ok(o) && o.object_type == ObjectType::Commit
                && o.contents@ == c,
        },
{
    let (data, _) = match zlib_decompress(compressed) {
        Some(r) => r,
        None => {
            return Err(make_error("corrupt deflate stream"));
        },
    };
    let ghost d = data@;
    let mut pos: usize = 0;
    assert(d.subrange(0, d.len() as int) =~= d);
    proof {
        crate::utils::lemma_first_index_of(d, 0x20);
    }
    let _object_type = read_until_delimiter(data.as_slice(), &mut pos, 0x20)?;
    let ghost p1 = pos;
    let ghost r = d.skip(p1 as int);
    assert(d.subrange(p1 as int, d.len() as int) =~= r);
    proof {
        crate::utils::lemma_first_index_of(r, 0);
    }
    let size = read_until_delimiter(data.as_slice(), &mut pos, 0)?;
    assert(size@ =~= r.take(size@.len() as int));
    let size_value = match parse_decimal(size.as_slice()) {
        Some(v) => v,
        None => {
            let text = debug_text(size.as_slice());
            proof {
                crate::text::lemma_ascii_utf8(text@);
            }
            let shown = crate::text::ascii_string(text);
            let mut message = String::from_str("Invalid object size: ");
            message.append(shown.as_str());
            return Err(GitError::Other(message));
        },
    };
    let contents = crate::text::copy_range(data.as_slice(), pos, data.len());
    assert(contents@ =~= r.skip(size@.len() as int + 1));
    if contents.len() != size_value {
        return Err(make_error("Incorrect object size"));
    }
    Ok(Object { object_type: ObjectType::Commit, contents })
}

/// The message that reports an object whose id is not the one asked for.
pub open spec fn wrong_hash_message(asked: Seq<u8>, found: Seq<u8>) -> Seq<char> {
    "Object "@ + ascii_chars(hex_encode(asked)) + " has wrong hash "@ + ascii_chars(hex_encode(found))
}

/// Reads the loose object `hash` from the bytes of its file, and checks that
/// its id is `hash`.
///
/// The file must hold a readable loose object: where it does not, there is no
/// object to give.
pub fn read_object(hash: &crate::hash::Hash, compressed: &[u8]) -> (res: Result<Object, GitError>)
    requires
        loose_readable(compressed@),
    ensures
        loose_outcome(compressed@) matches Some(LooseRead::Contents(c)) && (if object_hash(
            ObjectType::Commit,
            c,
        ) == hash.0@ {
            res matches Ok(o) && o.object_type == ObjectType::Commit && o.contents@ == c
        } else {
            res matches Err(GitError::Other(m)) && m@ == wrong_hash_message(
                hash.0@,
                object_hash(ObjectType::Commit, c),
            )
        }),
{
    let object = match read_unpacked_object(compressed) {
        Ok(o) => o,
        Err(e) => {
            return Err(e);
        },
    };
    let object_hash = object.hash();
    if !bytes_eq(&object_hash.0, &hash.0) {
        let mut message = String::from_str("Object ");
        let asked = hash.to_plain_str();
        let found = object_hash.to_plain_str();
        message.append(asked.as_str());
        message.append(" has wrong hash ");
        message.append(found.as_str());
        return Err(GitError::Other(message));
    }
    Ok(object)
}

/// Reads the loose object `hash` from the bytes of its file where the file
/// holds a readable loose object, and checks its id; `None` where it does not.
pub fn try_read_object(hash: &crate::hash::Hash, compressed: &[u8]) -> (res: Option<
    Result<Object, GitError>,
>)
    ensures
        res is Some <==> loose_readable(compressed@),
        res matches Some(r) ==> (loose_outcome(compressed@) matches Some(LooseRead::Contents(c))
            && (if object_hash(ObjectType::Commit, c) == hash.0@ {
            r matches Ok(o) && o.object_type == ObjectType::Commit && o.contents@ == c
        } else {
            r matches Err(GitError::Other(m)) && m@ == wrong_hash_message(
                hash.0@,
                object_hash(ObjectType::Commit, c),
            )
        })),
{
    match read_unpacked_object(compressed) {
        Ok(_) => Some(read_object(hash, compressed)),
        Err(_) => None,
    }
}

} // verus!
