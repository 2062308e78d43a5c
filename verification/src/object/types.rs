//! The kinds of git objects, as named in loose objects and numbered in packs.

use vstd::prelude::*;
use vstd::utf8::*;

use crate::errors::GitError;
use crate::text::{ascii_chars, ascii_string};

verus! {

/// The four object types and the two kinds of delta of a pack file.
#[derive(PartialEq, Eq, Hash, Ord, PartialOrd, Debug, Clone, Copy)]
pub enum ObjectType {
    Commit,
    Tree,
    Blob,
    Tag,
    OffsetDelta,
    HashDelta,
}

/// The name of a type in the header of a loose object; empty for deltas.
pub open spec fn kind_name(t: ObjectType) -> Seq<u8> {
    match t {
        ObjectType::Blob => seq![0x62u8, 0x6c, 0x6f, 0x62],
        ObjectType::Tree => seq![0x74u8, 0x72, 0x65, 0x65],
        ObjectType::Commit => seq![0x63u8, 0x6f, 0x6d, 0x6d, 0x69, 0x74],
        ObjectType::Tag => seq![0x74u8, 0x61, 0x67],
        _ => seq![],
    }
}

/// The name under which a type is displayed.
pub open spec fn display_name(t: ObjectType) -> Seq<u8> {
    match t {
        ObjectType::OffsetDelta => seq![
            0x4fu8, 0x66, 0x66, 0x73, 0x65, 0x74, 0x44, 0x65, 0x6c, 0x74, 0x61,
        ],
        ObjectType::HashDelta => seq![0x48u8, 0x61, 0x73, 0x68, 0x44, 0x65, 0x6c, 0x74, 0x61],
        _ => kind_name(t),
    }
}

/// The type number of a pack file.
pub open spec fn type_number(t: ObjectType) -> u8 {
    match t {
        ObjectType::Commit => 1,
        ObjectType::Tree => 2,
        ObjectType::Blob => 3,
        ObjectType::Tag => 4,
        ObjectType::OffsetDelta => 6,
        ObjectType::HashDelta => 7,
    }
}

/// The type that the pack type number `n` names.
pub open spec fn number_to_type(n: u8) -> ObjectType {
    match n {
        1 => ObjectType::Commit,
        2 => ObjectType::Tree,
        3 => ObjectType::Blob,
        4 => ObjectType::Tag,
        6 => ObjectType::OffsetDelta,
        _ => ObjectType::HashDelta,
    }
}

/// A type number that names a type.
pub open spec fn valid_type_number(n: u8) -> bool {
    1 <= n <= 4 || n == 6 || n == 7
}

/// One of the four object types, as opposed to a delta.
pub open spec fn is_base_type(t: ObjectType) -> bool {
    !(t is OffsetDelta) && !(t is HashDelta)
}

/// Compares two byte strings.
pub fn bytes_eq(a: &[u8], b: &[u8]) -> (res: bool)
    ensures
        res == (a@ == b@),
{
    if a.len() != b.len() {
        return false;
    }
    let mut i: usize = 0;
    while i < a.len()
        invariant
            i <= a@.len(),
            a@.len() == b@.len(),
            forall|j: int| 0 <= j < i ==> a@[j] == b@[j],
        decreases a@.len() - i,
    {
        if a[i] != b[i] {
            return false;
        }
        i = i + 1;
    }
    assert(a@ =~= b@);
    true
}

impl ObjectType {
    /// The name of the type in the header of a loose object.
    pub fn to_bytes(self) -> (res: Vec<u8>)
        ensures
            res@ == kind_name(self),
    {
        let v = match self {
            ObjectType::Blob => vec![0x62, 0x6c, 0x6f, 0x62],
            ObjectType::Tree => vec![0x74, 0x72, 0x65, 0x65],
            ObjectType::Commit => vec![0x63, 0x6f, 0x6d, 0x6d, 0x69, 0x74],
            ObjectType::Tag => vec![0x74, 0x61, 0x67],
            _ => vec![],
        };
        assert(v@ =~= kind_name(self));
        v
    }

    /// The type named `s`: one of "blob", "tree", "commit" and "tag".
    pub fn from_string(s: &str) -> (res: Result<ObjectType, GitError>)
        ensures
            match res {
                Ok(t) => is_base_type(t) && kind_name(t) == encode_utf8(s@),
                Err(e) => (e matches GitError::InvalidObjectType(m) && m@ == s@) && forall|t: ObjectType|
                    is_base_type(t) ==> kind_name(t) != encode_utf8(s@),
            },
    {
        let b = s.as_bytes();
        let blob = ObjectType::Blob.to_bytes();
        let tree = ObjectType::Tree.to_bytes();
        let commit = ObjectType::Commit.to_bytes();
        let tag = ObjectType::Tag.to_bytes();
        if bytes_eq(b, blob.as_slice()) {
            Ok(ObjectType::Blob)
        } else if bytes_eq(b, tree.as_slice()) {
            Ok(ObjectType::Tree)
        } else if bytes_eq(b, commit.as_slice()) {
            Ok(ObjectType::Commit)
        } else if bytes_eq(b, tag.as_slice()) {
            Ok(ObjectType::Tag)
        } else {
            Err(GitError::InvalidObjectType(s.to_owned()))
        }
    }

    /// The type number of a pack file.
    pub fn type2_number(&self) -> (res: u8)
        ensures
            res == type_number(*self),
    {
        match self {
            ObjectType::Commit => 1,
            ObjectType::Tree => 2,
            ObjectType::Blob => 3,
            ObjectType::Tag => 4,
            ObjectType::OffsetDelta => 6,
            ObjectType::HashDelta => 7,
        }
    }

    /// The type with pack number `num`.
    pub fn number_type(num: u8) -> (res: Self)
        requires
            valid_type_number(num),
        ensures
            type_number(res) == num,
            res == number_to_type(num),
    {
        match num {
            1 => ObjectType::Commit,
            2 => ObjectType::Tree,
            3 => ObjectType::Blob,
            4 => ObjectType::Tag,
            6 => ObjectType::OffsetDelta,
            _ => ObjectType::HashDelta,
        }
    }

    /// The name under which the type is displayed.
    pub fn to_string(&self) -> (res: String)
        ensures
            res@ == ascii_chars(display_name(*self)),
    {
        let v = match self {
            ObjectType::OffsetDelta => vec![
                0x4f, 0x66, 0x66, 0x73, 0x65, 0x74, 0x44, 0x65, 0x6c, 0x74, 0x61,
            ],
            ObjectType::HashDelta => vec![0x48, 0x61, 0x73, 0x68, 0x44, 0x65, 0x6c, 0x74, 0x61],
            _ => self.to_bytes(),
        };
        assert(v@ =~= display_name(*self));
        ascii_string(v)
    }
}

/// Type numbers name types one for one.
pub proof fn lemma_type_number_roundtrip(t: ObjectType)
    ensures
        valid_type_number(type_number(t)),
        forall|u: ObjectType| type_number(u) == type_number(t) ==> u == t,
{
}

} // verus!
