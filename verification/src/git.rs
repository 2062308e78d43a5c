//! The git object store format: object types and ids, and the blob, tree,
//! commit and tag objects with their encodings.

use vstd::prelude::*;
use vstd::utf8::*;
use vstd::string::StrSliceExecFns;

use crate::errors::GitError;
use crate::hash::sha1;
use crate::hash::sha1_digest;
use crate::object::metadata::{
    all_digits, digits_value, lemma_decimal_value, lemma_first_index_of_concat, loose_data,
    loose_parsable, loose_parsable_exec, loose_type_name, parse_usize, parse_usize_spec,
};
use crate::object::types::bytes_eq;
use crate::text::{
    all_ascii, ascii_chars, ascii_string, copy_range, decimal, decimal_bytes, find_byte, hex_decode,
    hex_decode_bytes, hex_encode, hex_encode_bytes, hex_string, lemma_ascii_utf8,
    lemma_decimal_digits, lemma_hex_encode, push_all, string_from_utf8,
};
use crate::utils::{first_index_of, lemma_first_index_of};
use crate::zlib::{zlib_compress, zlib_decompress, zlib_deflate, zlib_inflate};

verus! {

/// Git object types: blob, tree, commit, tag.
#[derive(PartialEq, Eq, Hash, Ord, PartialOrd, Debug, Clone, Copy)]
pub enum Type {
    Blob,
    Tree,
    Commit,
    Tag,
}

/// The name of an object type.
pub open spec fn type_bytes(t: Type) -> Seq<u8> {
    match t {
        Type::Blob => seq![0x62u8, 0x6c, 0x6f, 0x62],
        Type::Tree => seq![0x74u8, 0x72, 0x65, 0x65],
        Type::Commit => seq![0x63u8, 0x6f, 0x6d, 0x6d, 0x69, 0x74],
        Type::Tag => seq![0x74u8, 0x61, 0x67],
    }
}

/// The UTF-8 bytes of the characters `s`.
pub open spec fn utf8(s: Seq<char>) -> Seq<u8> {
    encode_utf8(s)
}

impl Type {
    /// The name of the type.
    pub fn to_bytes(self) -> (res: Vec<u8>)
        ensures
            res@ == type_bytes(self),
    {
        let v = match self {
            Type::Blob => vec![0x62, 0x6c, 0x6f, 0x62],
            Type::Tree => vec![0x74, 0x72, 0x65, 0x65],
            Type::Commit => vec![0x63, 0x6f, 0x6d, 0x6d, 0x69, 0x74],
            Type::Tag => vec![0x74, 0x61, 0x67],
        };
        assert(v@ =~= type_bytes(self));
        v
    }

    /// The type named `s`.
    pub fn from_string(s: &str) -> (res: Result<Type, GitError>)
        ensures
            match res {
                Ok(t) => type_bytes(t) == utf8(s@),
                Err(e) => (e matches GitError::InvalidObjectType(m) && m@ == s@) && forall|t: Type|
                    type_bytes(t) != utf8(s@),
            },
    {
        let b = s.as_bytes();
        if bytes_eq(b, Type::Blob.to_bytes().as_slice()) {
            Ok(Type::Blob)
        } else if bytes_eq(b, Type::Tree.to_bytes().as_slice()) {
            Ok(Type::Tree)
        } else if bytes_eq(b, Type::Commit.to_bytes().as_slice()) {
            Ok(Type::Commit)
        } else if bytes_eq(b, Type::Tag.to_bytes().as_slice()) {
            Ok(Type::Tag)
        } else {
            Err(GitError::InvalidObjectType(s.to_owned()))
        }
    }

    /// The name of the type, as text.
    pub fn to_string(&self) -> (res: String)
        ensures
            res@ == ascii_chars(type_bytes(*self)),
            utf8(res@) == type_bytes(*self),
    {
        let v = self.to_bytes();
        proof {
            lemma_ascii_utf8(v@);
        }
        ascii_string(v)
    }
}

/// Git object hash type; only SHA-1 for now.
#[derive(PartialEq, Eq, Debug, Hash, Ord, PartialOrd, Clone, Copy)]
pub enum Hash {
    Sha1,
}

/// The stored form of an object: its type name, a space, the decimal length
/// of its data, a NUL byte and the data.
pub open spec fn stored_object(t: Type, data: Seq<u8>) -> Seq<u8> {
    type_bytes(t) + seq![0x20u8] + decimal(data.len()) + seq![0u8] + data
}

/// An object id: the digest bytes, and their hexadecimal text.
#[derive(PartialEq, Eq, Debug, Hash, Ord, PartialOrd)]
pub struct ID {
    pub bytes: Vec<u8>,
    pub hash: String,
}

/// The id of a digest: its bytes and their hexadecimal text.
pub open spec fn is_id_of(id: ID, bytes: Seq<u8>) -> bool {
    id.bytes@ == bytes && id.hash@ == ascii_chars(hex_encode(bytes))
}

impl ID {
    /// The id of an object of type `t` with `data`, the stored form that was
    /// hashed, and the length of the data.
    pub fn generate(t: Type, data: &[u8]) -> (res: (Vec<u8>, Vec<u8>, usize))
        ensures
            res.0@ == sha1_digest(stored_object(t, data@)),
            res.1@ == stored_object(t, data@),
            res.2 == data@.len(),
    {
        let mut object = t.to_bytes();
        object.push(0x20);
        let digits = decimal_bytes(data.len() as u64);
        push_all(&mut object, digits.as_slice());
        object.push(0);
        push_all(&mut object, data);
        let id = sha1(object.as_slice());
        assert(id@.len() == 20);
        let ids = id.as_slice();
        assert(ids@ == id@);
        assert(ids@.subrange(0, 20) =~= id@);
        assert(object@ =~= stored_object(t, data@));
        (copy_range(ids, 0, 20), object, data.len())
    }

    /// The id of an object of type `t` with `data`.
    pub fn from_vec(t: Type, data: &[u8]) -> (res: ID)
        ensures
            is_id_of(res, sha1_digest(stored_object(t, data@))),
    {
        let (bytes, _, _) = ID::generate(t, data);
        ID::from_bytes(bytes.as_slice())
    }

    /// The first two hexadecimal digits: the folder of the loose object.
    pub fn to_folder(&self) -> (res: String)
        requires
            all_ascii(utf8(self.hash@)),
            self.hash@.len() >= 2,
        ensures
            res@ == self.hash@.subrange(0, 2),
    {
        let b = self.hash.as_str().as_bytes();
        proof {
            lemma_ascii_chars_of_utf8(self.hash@);
        }
        let part = copy_range(b, 0, 2);
        let r = ascii_string(part);
        assert(r@ =~= self.hash@.subrange(0, 2));
        r
    }

    /// The hexadecimal digits after the first two: the file name of the
    /// loose object.
    pub fn to_filename(&self) -> (res: String)
        requires
            all_ascii(utf8(self.hash@)),
            self.hash@.len() >= 2,
        ensures
            res@ == self.hash@.subrange(2, self.hash@.len() as int),
    {
        let b = self.hash.as_str().as_bytes();
        proof {
            lemma_ascii_chars_of_utf8(self.hash@);
        }
        let part = copy_range(b, 2, b.len());
        let r = ascii_string(part);
        assert(r@ =~= self.hash@.subrange(2, self.hash@.len() as int));
        r
    }

    /// The id of the digest `bytes`.
    pub fn from_bytes(bytes: &[u8]) -> (res: Self)
        ensures
            is_id_of(res, bytes@),
    {
        assert(bytes@.subrange(0, bytes@.len() as int) =~= bytes@);
        ID { bytes: copy_range(bytes, 0, bytes.len()), hash: hex_string(bytes) }
    }

    /// The id whose hexadecimal text is `s`.
    pub fn from_string(s: &str) -> (res: Self)
        requires
            hex_decode(utf8(s@)) is Some,
        ensures
            res.bytes@ == hex_decode(utf8(s@)).unwrap(),
            res.hash@ == s@,
    {
        let bytes = match hex_decode_bytes(s.as_bytes()) {
            Some(b) => b,
            None => Vec::new(),
        };
        ID { bytes, hash: s.to_owned() }
    }

    /// The hexadecimal text of the id.
    pub fn to_string(&self) -> (res: String)
        ensures
            res@ == self.hash@,
    {
        self.hash.clone()
    }

    /// A copy of the id.
    pub fn duplicate(&self) -> (res: ID)
        ensures
            res.bytes@ == self.bytes@,
            res.hash@ == self.hash@,
    {
        ID { bytes: copy_range(self.bytes.as_slice(), 0, self.bytes.len()), hash: self.hash.clone() }
    }
}

/// ASCII characters are their own UTF-8 bytes.
pub proof fn lemma_ascii_chars_of_utf8(s: Seq<char>)
    requires
        all_ascii(utf8(s)),
    ensures
        utf8(s).len() == s.len(),
        ascii_chars(utf8(s)) == s,
{
    let b = utf8(s);
    lemma_ascii_utf8(b);
    encode_utf8_decode_utf8(s);
    assert(decode_utf8(b) == s);
}

/// The metadata of a git object.
#[derive(PartialEq, Eq, Debug, Hash, Ord, PartialOrd)]
pub struct Metadata {
    pub t: Type,
    pub h: Hash,
    pub id: ID,
    pub size: usize,
    pub data: Vec<u8>,
}

/// `root` with the path segment `seg` added, as a path buffer does: `seg`
/// alone after an empty root, no separator added after a root that ends with
/// one.
pub open spec fn join_path(root: Seq<char>, seg: Seq<char>) -> Seq<char> {
    if root.len() == 0 {
        seg
    } else if root.last() == '/' {
        root + seg
    } else {
        root + "/"@ + seg
    }
}

/// Adds the path segment `seg` to `root`.
fn join_path_exec(root: String, seg: &str) -> (res: String)
    ensures
        res@ == join_path(root@, seg@),
{
    let n = root.as_str().unicode_len();
    if n == 0 {
        return seg.to_owned();
    }
    let mut r = root;
    if r.as_str().get_char(n - 1) != '/' {
        r.append("/");
    }
    r.append(seg);
    r
}

/// Where the loose file of an object with id text `hash` lies under `root`:
/// a folder named by its first two digits, a file named by the others.
pub open spec fn loose_path(root: Seq<char>, hash: Seq<char>) -> Seq<char> {
    join_path(join_path(root, hash.subrange(0, 2)), hash.subrange(2, hash.len() as int))
}

impl Metadata {
    /// The loose file of the object under `root_path`: where it lies and what
    /// it holds, the data compressed.
    pub fn loose_file(&self, root_path: &str) -> (res: (String, Vec<u8>))
        requires
            all_ascii(utf8(self.id.hash@)),
            self.id.hash@.len() >= 2,
        ensures
            res.0@ == loose_path(root_path@, self.id.hash@),
            res.1@ == zlib_deflate(self.data@),
    {
        let folder = self.id.to_folder();
        let file = self.id.to_filename();
        let dir = join_path_exec(root_path.to_owned(), folder.as_str());
        let path = join_path_exec(dir, file.as_str());
        (path, self.compressed_data())
    }

    /// The zlib stream written for the object: its data compressed.
    pub fn compressed_data(&self) -> (res: Vec<u8>)
        ensures
            res@ == zlib_deflate(self.data@),
    {
        zlib_compress(self.data.as_slice())
    }

    /// Reads a loose object from the bytes of its file: decompresses them,
    /// takes the type name before the first space, the size between it and
    /// the first NUL, and the data after that NUL, and computes the id.
    ///
    /// The decompressed header must parse (see `loose_parsable`); where it
    /// does not, there is no metadata to give.
    pub fn read_object_from_data(compressed: &[u8]) -> (res: Result<Metadata, GitError>)
        requires
            zlib_inflate(compressed@) matches Some((d, _)) ==> loose_parsable(d),
        ensures
            match zlib_inflate(compressed@) {
                None => res matches Err(GitError::Other(m)) && m@ == "corrupt deflate stream"@,
                Some((d, _)) => match type_named(loose_type_name(d)) {
                    Some(t) => res matches Ok(m) && m.t == t && m.h == Hash::Sha1 && is_id_of(
                        m.id,
                        sha1_digest(stored_object(t, loose_data(d))),
                    ) && m.size as nat == loose_size(d) && m.data@ == loose_data(d),
                    None => res matches Err(GitError::InvalidObjectType(s)) && s@ == decode_utf8(
                        loose_type_name(d),
                    ),
                },
            },
    {
        let decoded = match zlib_decompress(compressed) {
            Some((d, _)) => d,
            None => {
                return Err(GitError::Other(String::from_str("corrupt deflate stream")));
            },
        };
        let decoded = decoded.as_slice();
        proof {
            lemma_first_index_of(decoded@, 0x20);
            lemma_first_index_of(decoded@, 0);
        }
        let type_index = match find_byte(decoded, 0x20) {
            Some(i) => i,
            None => 0,
        };
        let size_index = match find_byte(decoded, 0) {
            Some(i) => i,
            None => 0,
        };
        assert(loose_parsable(decoded@));
        assert(type_index as int == first_index_of(decoded@, 0x20).unwrap());
        assert(size_index as int == first_index_of(decoded@, 0).unwrap());
        let size_text = copy_range(decoded, type_index + 1, size_index);
        let size = match parse_usize(size_text.as_slice()) {
            Some(v) => v,
            None => 0,
        };
        let n = decoded.len();
        let data = copy_range(decoded, size_index + 1, n);
        let t = copy_range(decoded, 0, type_index);
        let name = match string_from_utf8(t) {
            Some(s) => s,
            None => String::new(),
        };
        proof {
            decode_utf8_encode_utf8(loose_type_name(decoded@));
        }
        let t = match Type::from_string(name.as_str()) {
            Ok(t) => t,
            Err(e) => {
                proof {
                    lemma_type_named(loose_type_name(decoded@));
                }
                return Err(e);
            },
        };
        proof {
            lemma_type_named(loose_type_name(decoded@));
        }
        let (bytes, _, _) = ID::generate(t, data.as_slice());
        Ok(Metadata { t, h: Hash::Sha1, id: ID::from_bytes(bytes.as_slice()), size, data })
    }

    /// Reads a loose object from the bytes of its file where they decompress
    /// to a header that parses, or are no zlib stream; `None` otherwise.
    pub fn try_read_object_from_data(compressed: &[u8]) -> (res: Option<Result<Metadata, GitError>>)
        ensures
            res is Some <==> (zlib_inflate(compressed@) matches Some((d, _)) ==> loose_parsable(d)),
            res matches Some(r) ==> match zlib_inflate(compressed@) {
                None => r matches Err(GitError::Other(m)) && m@ == "corrupt deflate stream"@,
                Some((d, _)) => match type_named(loose_type_name(d)) {
                    Some(t) => r matches Ok(m) && m.t == t && m.h == Hash::Sha1 && is_id_of(
                        m.id,
                        sha1_digest(stored_object(t, loose_data(d))),
                    ) && m.size as nat == loose_size(d) && m.data@ == loose_data(d),
                    None => r matches Err(GitError::InvalidObjectType(s)) && s@ == decode_utf8(
                        loose_type_name(d),
                    ),
                },
            },
    {
        match zlib_decompress(compressed) {
            Some((d, _)) => {
                if !loose_parsable_exec(d.as_slice()) {
                    return None;
                }
            },
            None => {},
        }
        Some(Metadata::read_object_from_data(compressed))
    }
}

/// The type whose name is `name`.
pub open spec fn type_named(name: Seq<u8>) -> Option<Type> {
    if name == type_bytes(Type::Blob) {
        Some(Type::Blob)
    } else if name == type_bytes(Type::Tree) {
        Some(Type::Tree)
    } else if name == type_bytes(Type::Commit) {
        Some(Type::Commit)
    } else if name == type_bytes(Type::Tag) {
        Some(Type::Tag)
    } else {
        None
    }
}

/// `type_named` finds the one type with that name, if any.
pub proof fn lemma_type_named(name: Seq<u8>)
    ensures
        type_named(name) matches Some(t) ==> type_bytes(t) == name,
        type_named(name) is None ==> forall|t: Type| type_bytes(t) != name,
{
    if type_named(name) is None {
        assert forall|t: Type| type_bytes(t) != name by {
            match t {
                Type::Blob => {},
                Type::Tree => {},
                Type::Commit => {},
                Type::Tag => {},
            }
        }
    } else {
        assert(type_bytes(Type::Blob) != type_bytes(Type::Tree)) by {
            assert(type_bytes(Type::Blob)[1] != type_bytes(Type::Tree)[1]);
        }
    }
}

/// The size that the header of a loose object gives: the number between
/// the first space and the first NUL.
pub open spec fn loose_size(decoded: Seq<u8>) -> nat {
    parse_usize_spec(
        decoded.subrange(
            first_index_of(decoded, 0x20).unwrap() + 1,
            first_index_of(decoded, 0).unwrap(),
        ),
    ).unwrap()
}

/// Git object: blob.
#[derive(PartialEq, Eq, Debug, Hash, Ord, PartialOrd)]
pub struct Blob {
    pub meta: Metadata,
    pub data: Vec<u8>,
}

impl Blob {
    /// The entry of a tree that names this blob `filename`.
    pub fn to_tree_item(&self, filename: String) -> (res: Result<TreeItem, ()>)
        ensures
            res matches Ok(item) && item.mode@ == mode_bytes(TreeItemType::Blob) && item.item_type
                == TreeItemType::Blob && item.id.bytes@ == self.meta.id.bytes@ && item.id.hash@
                == self.meta.id.hash@ && item.filename@ == filename@,
    {
        Ok(
            TreeItem {
                mode: TreeItemType::Blob.to_bytes(),
                item_type: TreeItemType::Blob,
                id: self.meta.id.duplicate(),
                filename,
            },
        )
    }
}

/// The kinds of entries of a tree.
#[derive(PartialEq, Eq, Hash, Ord, PartialOrd, Debug, Clone, Copy)]
pub enum TreeItemType {
    Blob,
    BlobExecutable,
    Tree,
    Commit,
    Link,
}

/// The file mode written for an entry kind.
pub open spec fn mode_bytes(t: TreeItemType) -> Seq<u8> {
    match t {
        TreeItemType::Blob => seq![0x31u8, 0x30, 0x30, 0x36, 0x34, 0x34],
        TreeItemType::BlobExecutable => seq![0x31u8, 0x30, 0x30, 0x37, 0x35, 0x35],
        TreeItemType::Tree => seq![0x34u8, 0x30, 0x30, 0x30, 0x30],
        TreeItemType::Link => seq![0x31u8, 0x32, 0x30, 0x30, 0x30, 0x30],
        TreeItemType::Commit => seq![0x31u8, 0x36, 0x30, 0x30, 0x30, 0x30],
    }
}

/// The kind of entry that a file mode stands for: the five written modes,
/// and the group-writable "100664" and group-readable "100640" blobs.
pub open spec fn mode_kind(mode: Seq<u8>) -> Option<TreeItemType> {
    if mode == mode_bytes(TreeItemType::Tree) {
        Some(TreeItemType::Tree)
    } else if mode == mode_bytes(TreeItemType::Blob) {
        Some(TreeItemType::Blob)
    } else if mode == mode_bytes(TreeItemType::BlobExecutable) {
        Some(TreeItemType::BlobExecutable)
    } else if mode == mode_bytes(TreeItemType::Link) {
        Some(TreeItemType::Link)
    } else if mode == mode_bytes(TreeItemType::Commit) {
        Some(TreeItemType::Commit)
    } else if mode == seq![0x31u8, 0x30, 0x30, 0x36, 0x36, 0x34] {
        Some(TreeItemType::Blob)
    } else if mode == seq![0x31u8, 0x30, 0x30, 0x36, 0x34, 0x30] {
        Some(TreeItemType::Blob)
    } else {
        None
    }
}

/// Reading back a written mode: the kind read from the mode written for a
/// kind is that kind, and a mode read as a kind other than a plain blob is
/// the mode written for it.
pub proof fn lemma_mode_kind_roundtrip(k: TreeItemType, mode: Seq<u8>)
    ensures
        mode_kind(mode_bytes(k)) == Some(k),
        mode_kind(mode) == Some(k) && k != TreeItemType::Blob ==> mode == mode_bytes(k),
{
    assert(mode_bytes(TreeItemType::Tree) != mode_bytes(TreeItemType::Blob));
    assert(mode_bytes(TreeItemType::Blob) != mode_bytes(TreeItemType::BlobExecutable));
    assert(mode_bytes(TreeItemType::Blob) != mode_bytes(TreeItemType::Link));
    assert(mode_bytes(TreeItemType::Blob) != mode_bytes(TreeItemType::Commit));
    assert(mode_bytes(TreeItemType::Tree) != mode_bytes(TreeItemType::BlobExecutable));
    assert(mode_bytes(TreeItemType::Tree) != mode_bytes(TreeItemType::Link));
    assert(mode_bytes(TreeItemType::Tree) != mode_bytes(TreeItemType::Commit));
    assert(mode_bytes(TreeItemType::BlobExecutable) != mode_bytes(TreeItemType::Link));
    assert(mode_bytes(TreeItemType::BlobExecutable) != mode_bytes(TreeItemType::Commit));
    assert(mode_bytes(TreeItemType::Link)[1] != mode_bytes(TreeItemType::Commit)[1]);
}

/// The name under which an entry kind is displayed.
pub open spec fn item_type_name(t: TreeItemType) -> Seq<u8> {
    match t {
        TreeItemType::Blob => seq![0x62u8, 0x6c, 0x6f, 0x62],
        TreeItemType::BlobExecutable => seq![
            0x62u8, 0x6c, 0x6f, 0x62, 0x20, 0x65, 0x78, 0x65, 0x63, 0x75, 0x74, 0x61, 0x62, 0x6c, 0x65,
        ],
        TreeItemType::Tree => seq![0x74u8, 0x72, 0x65, 0x65],
        TreeItemType::Commit => seq![0x63u8, 0x6f, 0x6d, 0x6d, 0x69, 0x74],
        TreeItemType::Link => seq![0x6cu8, 0x69, 0x6e, 0x6b],
    }
}

impl TreeItemType {
    /// The file mode written for the kind.
    pub fn to_bytes(self) -> (res: Vec<u8>)
        ensures
            res@ == mode_bytes(self),
    {
        let v = match self {
            TreeItemType::Blob => vec![0x31, 0x30, 0x30, 0x36, 0x34, 0x34],
            TreeItemType::BlobExecutable => vec![0x31, 0x30, 0x30, 0x37, 0x35, 0x35],
            TreeItemType::Tree => vec![0x34, 0x30, 0x30, 0x30, 0x30],
            TreeItemType::Link => vec![0x31, 0x32, 0x30, 0x30, 0x30, 0x30],
            TreeItemType::Commit => vec![0x31, 0x36, 0x30, 0x30, 0x30, 0x30],
        };
        assert(v@ =~= mode_bytes(self));
        v
    }

    /// The kind of entry that `mode` stands for.
    pub fn tree_item_type_from(mode: &[u8]) -> (res: Result<TreeItemType, GitError>)
        requires
            mode_kind(mode@) is Some || valid_utf8(mode@),
        ensures
            match mode_kind(mode@) {
                Some(k) => res == Ok::<TreeItemType, GitError>(k),
                None => res matches Err(GitError::InvalidTreeItem(s)) && s@ == decode_utf8(mode@),
            },
    {
        let m664: Vec<u8> = vec![0x31, 0x30, 0x30, 0x36, 0x36, 0x34];
        let m640: Vec<u8> = vec![0x31, 0x30, 0x30, 0x36, 0x34, 0x30];
        assert(m664@ =~= seq![0x31u8, 0x30, 0x30, 0x36, 0x36, 0x34]);
        assert(m640@ =~= seq![0x31u8, 0x30, 0x30, 0x36, 0x34, 0x30]);
        if bytes_eq(mode, TreeItemType::Tree.to_bytes().as_slice()) {
            Ok(TreeItemType::Tree)
        } else if bytes_eq(mode, TreeItemType::Blob.to_bytes().as_slice()) {
            Ok(TreeItemType::Blob)
        } else if bytes_eq(mode, TreeItemType::BlobExecutable.to_bytes().as_slice()) {
            Ok(TreeItemType::BlobExecutable)
        } else if bytes_eq(mode, TreeItemType::Link.to_bytes().as_slice()) {
            Ok(TreeItemType::Link)
        } else if bytes_eq(mode, TreeItemType::Commit.to_bytes().as_slice()) {
            Ok(TreeItemType::Commit)
        } else if bytes_eq(mode, m664.as_slice()) {
            Ok(TreeItemType::Blob)
        } else if bytes_eq(mode, m640.as_slice()) {
            Ok(TreeItemType::Blob)
        } else {
            assert(mode@.subrange(0, mode@.len() as int) =~= mode@);
            let s = match string_from_utf8(copy_range(mode, 0, mode.len())) {
                Some(s) => s,
                None => String::new(),
            };
            Err(GitError::InvalidTreeItem(s))
        }
    }

    /// The name under which the kind is displayed.
    pub fn to_string(&self) -> (res: String)
        ensures
            res@ == ascii_chars(item_type_name(*self)),
    {
        let v = match self {
            TreeItemType::Blob => vec![0x62, 0x6c, 0x6f, 0x62],
            TreeItemType::BlobExecutable => vec![
                0x62, 0x6c, 0x6f, 0x62, 0x20, 0x65, 0x78, 0x65, 0x63, 0x75, 0x74, 0x61, 0x62, 0x6c,
                0x65,
            ],
            TreeItemType::Tree => vec![0x74, 0x72, 0x65, 0x65],
            TreeItemType::Commit => vec![0x63, 0x6f, 0x6d, 0x6d, 0x69, 0x74],
            TreeItemType::Link => vec![0x6c, 0x69, 0x6e, 0x6b],
        };
        assert(v@ =~= item_type_name(*self));
        ascii_string(v)
    }
}

/// Git object: an entry of a tree.
pub struct TreeItem {
    pub mode: Vec<u8>,
    pub item_type: TreeItemType,
    pub id: ID,
    pub filename: String,
}

/// Git object: tree.
pub struct Tree {
    pub meta: Metadata,
    pub tree_items: Vec<TreeItem>,
}

/// An entry of a tree as bytes: its mode, name and id.
pub struct EntryView {
    pub mode: Seq<u8>,
    pub name: Seq<u8>,
    pub id: Seq<u8>,
}

/// The bytes of one tree entry: mode, space, name, NUL, 20-byte id.
pub open spec fn entry_bytes(e: EntryView) -> Seq<u8> {
    e.mode + seq![0x20u8] + e.name + seq![0u8] + e.id
}

/// The data of a tree with entries `es`.
pub open spec fn tree_data(es: Seq<EntryView>) -> Seq<u8>
    decreases es.len(),
{
    if es.len() == 0 {
        seq![]
    } else {
        entry_bytes(es[0]) + tree_data(es.drop_first())
    }
}

/// Appending an entry appends its bytes.
pub proof fn lemma_tree_data_push(es: Seq<EntryView>, e: EntryView)
    ensures
        tree_data(es.push(e)) == tree_data(es) + entry_bytes(e),
    decreases es.len(),
{
    if es.len() == 0 {
        assert(es.push(e).drop_first() =~= Seq::<EntryView>::empty());
        assert(es.push(e)[0] == e);
        assert(tree_data(Seq::<EntryView>::empty()) == Seq::<u8>::empty());
        assert(tree_data(es.push(e)) =~= entry_bytes(e) + Seq::<u8>::empty());
        assert(tree_data(es) + entry_bytes(e) =~= entry_bytes(e));
    } else {
        assert(es.push(e).drop_first() =~= es.drop_first().push(e));
        lemma_tree_data_push(es.drop_first(), e);
        assert(tree_data(es.push(e)) =~= tree_data(es) + entry_bytes(e));
    }
}

/// The view of a tree entry.
pub open spec fn entry_view(item: TreeItem) -> EntryView {
    EntryView { mode: item.mode@, name: utf8(item.filename@), id: item.id.bytes@ }
}

/// The entries, as bytes, of the items of a tree.
pub open spec fn items_view(items: Seq<TreeItem>) -> Seq<EntryView> {
    Seq::new(items.len(), |i: int| entry_view(items[i]))
}

/// The entries of tree data, parsed from the front: each a mode up to the
/// first space, a name up to the first NUL and 20 bytes of id; `None` when
/// an entry is malformed.
pub open spec fn tree_entries(data: Seq<u8>) -> Option<Seq<EntryView>>
    decreases data.len(),
{
    if data.len() == 0 {
        Some(seq![])
    } else {
        match (first_index_of(data, 0x20), first_index_of(data, 0)) {
            (Some(sp), Some(nul)) => if 0 <= sp < nul && nul + 21 <= data.len() {
                let e = EntryView {
                    mode: data.subrange(0, sp),
                    name: data.subrange(sp + 1, nul),
                    id: data.subrange(nul + 1, nul + 21),
                };
                match tree_entries(data.subrange(nul + 21, data.len() as int)) {
                    Some(rest) => Some(seq![e] + rest),
                    None => None,
                }
            } else {
                None
            },
            _ => None,
        }
    }
}

/// Every entry of tree data has a known mode and a UTF-8 name.
pub open spec fn entries_decodable(es: Seq<EntryView>) -> bool {
    forall|i: int| 0 <= i < es.len() ==> mode_kind(#[trigger] es[i].mode) is Some && valid_utf8(
        es[i].name,
    )
}

impl Tree {
    /// Parses the entries of the tree's data and appends them to its items.
    pub fn decode_metadata(&mut self) -> (res: Result<(), GitError>)
        requires
            tree_entries(old(self).meta.data@) is Some,
            entries_decodable(tree_entries(old(self).meta.data@).unwrap()),
        ensures
            res is Ok,
            final(self).meta == old(self).meta,
            items_view(final(self).tree_items@) == items_view(old(self).tree_items@)
                + tree_entries(old(self).meta.data@).unwrap(),
            forall|i: int|
                old(self).tree_items@.len() <= i < final(self).tree_items@.len() ==> Some(
                    #[trigger] final(self).tree_items@[i].item_type,
                ) == mode_kind(final(self).tree_items@[i].mode@),
            forall|i: int|
                old(self).tree_items@.len() <= i < final(self).tree_items@.len() ==> is_id_of(
                    #[trigger] final(self).tree_items@[i].id,
                    final(self).tree_items@[i].id.bytes@,
                ),
            forall|i: int|
                0 <= i < old(self).tree_items@.len() ==> #[trigger] final(self).tree_items@[i]
                    == old(self).tree_items@[i],
    {
        let ghost all = tree_entries(self.meta.data@).unwrap();
        let ghost start_items = items_view(self.tree_items@);
        let ghost old_items = self.tree_items@;
        let mut index: usize = 0;
        let ghost mut parsed: Seq<EntryView> = seq![];
        assert(self.meta.data@.subrange(0, self.meta.data@.len() as int) =~= self.meta.data@);
        assert(parsed + all =~= all);
        assert(start_items + parsed =~= start_items);
        while index < self.meta.data.len()
            invariant
                index <= self.meta.data@.len(),
                self.meta == old(self).meta,
                tree_entries(self.meta.data@) == Some(all),
                entries_decodable(all),
                tree_entries(self.meta.data@.subrange(index as int, self.meta.data@.len() as int))
                    is Some,
                parsed + tree_entries(
                    self.meta.data@.subrange(index as int, self.meta.data@.len() as int),
                ).unwrap() == all,
                items_view(self.tree_items@) == start_items + parsed,
                start_items == items_view(old_items),
                old_items == old(self).tree_items@,
                self.tree_items@.len() >= old_items.len(),
                forall|i: int|
                    0 <= i < old_items.len() ==> #[trigger] self.tree_items@[i] == old_items[i],
                forall|i: int|
                    old_items.len() <= i < self.tree_items@.len() ==> Some(
                        #[trigger] self.tree_items@[i].item_type,
                    ) == mode_kind(self.tree_items@[i].mode@),
                forall|i: int|
                    old_items.len() <= i < self.tree_items@.len() ==> is_id_of(
                        #[trigger] self.tree_items@[i].id,
                        self.tree_items@[i].id.bytes@,
                    ),
            decreases self.meta.data@.len() - index,
        {
            let ghost rest = self.meta.data@.subrange(index as int, self.meta.data@.len() as int);
            let ghost rest_entries = tree_entries(rest).unwrap();
            let slice = self.meta.data.as_slice();
            let tail = copy_range(slice, index, slice.len());
            assert(tail@ == rest);
            proof {
                lemma_first_index_of(rest, 0x20);
                lemma_first_index_of(rest, 0);
            }
            let mode_index = match find_byte(tail.as_slice(), 0x20) {
                Some(i) => i,
                None => 0,
            };
            let filename_index = match find_byte(tail.as_slice(), 0) {
                Some(i) => i,
                None => 0,
            };
            let ghost e = rest_entries[0];
            assert(rest_entries =~= seq![e] + tree_entries(
                rest.subrange(filename_index + 21, rest.len() as int),
            ).unwrap());
            assert(all[parsed.len() as int] == e) by {
                assert(all == parsed + rest_entries);
            }
            assert(mode_kind(e.mode) is Some && valid_utf8(e.name));
            let mode = copy_range(tail.as_slice(), 0, mode_index);
            let item_type = match TreeItemType::tree_item_type_from(mode.as_slice()) {
                Ok(t) => t,
                Err(_) => TreeItemType::Blob,
            };
            let name_bytes = copy_range(tail.as_slice(), mode_index + 1, filename_index);
            let filename = match string_from_utf8(name_bytes) {
                Some(s) => s,
                None => String::new(),
            };
            proof {
                decode_utf8_encode_utf8(e.name);
            }
            let id_bytes = copy_range(tail.as_slice(), filename_index + 1, filename_index + 21);
            let id = ID::from_bytes(id_bytes.as_slice());
            let ghost before = self.tree_items@;
            self.tree_items.push(TreeItem { mode, item_type, id, filename });
            let ghost prev = parsed;
            proof {
                parsed = parsed.push(e);
                assert(items_view(self.tree_items@) =~= items_view(before).push(e));
                assert(self.meta.data@.subrange(
                    (index + filename_index + 21) as int,
                    self.meta.data@.len() as int,
                ) =~= rest.subrange(filename_index + 21, rest.len() as int));
                assert(parsed + tree_entries(rest.subrange(filename_index + 21, rest.len() as int)).unwrap()
                    =~= all) by {
                    assert(all == prev + rest_entries);
                }
                assert(start_items + parsed =~= (start_items + prev).push(e));
            }
            index = index + filename_index + 21;
        }
        proof {
            assert(self.meta.data@.subrange(index as int, self.meta.data@.len() as int)
                =~= Seq::<u8>::empty());
            assert(parsed + Seq::<EntryView>::empty() =~= parsed);
        }
        Ok(())
    }
}

impl Tree {
    /// The metadata of the tree that holds the items: their entries as data,
    /// and the id of that data.
    pub fn encode_metadata(&self) -> (res: Result<Metadata, ()>)
        ensures
            res matches Ok(m) && m.t == Type::Tree && m.h == Hash::Sha1 && m.data@ == tree_data(
                items_view(self.tree_items@),
            ) && m.size == m.data@.len() && is_id_of(
                m.id,
                sha1_digest(stored_object(Type::Tree, m.data@)),
            ),
    {
        let mut data: Vec<u8> = Vec::new();
        let mut i: usize = 0;
        while i < self.tree_items.len()
            invariant
                i <= self.tree_items@.len(),
                data@ == tree_data(items_view(self.tree_items@.subrange(0, i as int))),
            decreases self.tree_items@.len() - i,
        {
            let item = &self.tree_items[i];
            let ghost before = data@;
            push_all(&mut data, item.mode.as_slice());
            data.push(0x20);
            push_all(&mut data, item.filename.as_str().as_bytes());
            data.push(0);
            push_all(&mut data, item.id.bytes.as_slice());
            proof {
                let pre = items_view(self.tree_items@.subrange(0, i as int));
                assert(items_view(self.tree_items@.subrange(0, i + 1)) =~= pre.push(entry_view(*item)));
                lemma_tree_data_push(pre, entry_view(*item));
                assert(data@ =~= before + entry_bytes(entry_view(*item)));
            }
            i = i + 1;
        }
        assert(self.tree_items@.subrange(0, i as int) =~= self.tree_items@);
        let (bytes, _, _) = ID::generate(Type::Tree, data.as_slice());
        let size = data.len();
        Ok(
            Metadata {
                t: Type::Tree,
                h: Hash::Sha1,
                id: ID::from_bytes(bytes.as_slice()),
                size,
                data,
            },
        )
    }
}

/// Tree entries that parse back: a mode with no space or NUL, a name with no
/// NUL and an id of 20 bytes.
pub open spec fn entries_encodable(es: Seq<EntryView>) -> bool {
    forall|i: int|
        0 <= i < es.len() ==> {
            &&& forall|j: int|
                0 <= j < (#[trigger] es[i]).mode.len() ==> es[i].mode[j] != 0x20 && es[i].mode[j]
                    != 0
            &&& forall|j: int| 0 <= j < es[i].name.len() ==> es[i].name[j] != 0
            &&& es[i].id.len() == 20
        }
}

/// Tree data parses back into the entries it was written from.
pub proof fn lemma_tree_roundtrip(es: Seq<EntryView>)
    requires
        entries_encodable(es),
    ensures
        tree_entries(tree_data(es)) == Some(es),
    decreases es.len(),
{
    if es.len() == 0 {
        assert(tree_data(es) =~= Seq::<u8>::empty());
        assert(es =~= Seq::<EntryView>::empty());
    } else {
        let e = es[0];
        let rest = es.drop_first();
        assert(entries_encodable(rest)) by {
            assert forall|i: int| 0 <= i < rest.len() implies rest[i] == es[i + 1] by {}
        }
        lemma_tree_roundtrip(rest);
        let d = tree_data(es);
        let tail = seq![0x20u8] + e.name + seq![0u8] + e.id + tree_data(rest);
        assert(d =~= e.mode + tail);
        lemma_first_index_of_concat(e.mode, tail, 0x20);
        assert(first_index_of(tail, 0x20) == Some(0int));
        let pre = e.mode + seq![0x20u8] + e.name;
        let tail2 = seq![0u8] + e.id + tree_data(rest);
        assert(d =~= pre + tail2);
        assert forall|j: int| 0 <= j < pre.len() implies pre[j] != 0 by {
            if j > e.mode.len() {
                assert(pre[j] == e.name[j - e.mode.len() - 1]);
            }
        }
        lemma_first_index_of_concat(pre, tail2, 0);
        assert(first_index_of(tail2, 0) == Some(0int));
        let sp = e.mode.len() as int;
        let nul = pre.len() as int;
        assert(d.subrange(0, sp) =~= e.mode);
        assert(d.subrange(sp + 1, nul) =~= e.name);
        assert(d.subrange(nul + 1, nul + 21) =~= e.id);
        assert(d.subrange(nul + 21, d.len() as int) =~= tree_data(rest));
        assert(seq![e] + rest =~= es);
    }
}

/// A signature: who, with what email, at what time.
#[derive(PartialEq, Eq, Debug, Hash, Ord, PartialOrd)]
pub struct AuthorSign {
    pub t: String,
    pub name: String,
    pub email: String,
    pub timestamp: usize,
    pub timezone: String,
}

/// The bytes of a signature line: `t name <email> timestamp timezone`.
pub open spec fn sign_bytes(s: AuthorSign) -> Seq<u8> {
    utf8(s.t@) + seq![0x20u8] + utf8(s.name@) + seq![0x20u8, 0x3c] + utf8(s.email@) + seq![
        0x3eu8,
        0x20,
    ] + decimal(s.timestamp as nat) + seq![0x20u8] + utf8(s.timezone@)
}

/// The fields of a signature line, as bytes: the word before the first
/// space, the name between it and the byte before the first `<`, the email up
/// to the first `>`, the timestamp after the byte that follows it up to the
/// next space, and the timezone after that; `None` when they cannot be cut out.
pub open spec fn sign_fields(d: Seq<u8>) -> Option<(Seq<u8>, Seq<u8>, Seq<u8>, nat, Seq<u8>)> {
    match (first_index_of(d, 0x20), first_index_of(d, 0x3c), first_index_of(d, 0x3e)) {
        (Some(ns), Some(es), Some(ee)) => if 0 <= ns && ns + 1 <= es - 1 && es + 1 <= ee && ee + 2
            <= d.len() {
            let rest = d.subrange(ee + 2, d.len() as int);
            match first_index_of(rest, 0x20) {
                Some(ts) => if 0 <= ts {
                    match parse_usize_spec(rest.subrange(0, ts)) {
                        Some(v) => Some(
                            (
                                d.subrange(0, ns),
                                d.subrange(ns + 1, es - 1),
                                d.subrange(es + 1, ee),
                                v,
                                rest.subrange(ts + 1, rest.len() as int),
                            ),
                        ),
                        None => None,
                    }
                } else {
                    None
                },
                None => None,
            }
        } else {
            None
        },
        _ => None,
    }
}

/// A signature line whose fields can be cut out and are UTF-8.
pub open spec fn sign_decodable(d: Seq<u8>) -> bool {
    &&& sign_fields(d) is Some
    &&& valid_utf8(sign_fields(d).unwrap().0)
    &&& valid_utf8(sign_fields(d).unwrap().1)
    &&& valid_utf8(sign_fields(d).unwrap().2)
    &&& valid_utf8(sign_fields(d).unwrap().4)
}

/// The bytes `b` do not hold `x`.
pub open spec fn lacks(b: Seq<u8>, x: u8) -> bool {
    forall|i: int| 0 <= i < b.len() ==> b[i] != x
}

impl AuthorSign {
    /// Parses a signature line into the fields of the signature.
    pub fn decode_from_data(&mut self, data: Vec<u8>) -> (res: Result<(), GitError>)
        requires
            sign_decodable(data@),
        ensures
            res is Ok,
            is_sign_of(*final(self), data@),
    {
        let d = data.as_slice();
        proof {
            lemma_first_index_of(d@, 0x20);
            lemma_first_index_of(d@, 0x3c);
            lemma_first_index_of(d@, 0x3e);
        }
        let name_start = match find_byte(d, 0x20) {
            Some(i) => i,
            None => 0,
        };
        let email_start = match find_byte(d, 0x3c) {
            Some(i) => i,
            None => 0,
        };
        let email_end = match find_byte(d, 0x3e) {
            Some(i) => i,
            None => 0,
        };
        self.t = utf8_string(copy_range(d, 0, name_start));
        self.name = utf8_string(copy_range(d, name_start + 1, email_start - 1));
        self.email = utf8_string(copy_range(d, email_start + 1, email_end));
        let rest = copy_range(d, email_end + 2, d.len());
        proof {
            lemma_first_index_of(rest@, 0x20);
        }
        let timestamp_split = match find_byte(rest.as_slice(), 0x20) {
            Some(i) => i,
            None => 0,
        };
        let ts = copy_range(rest.as_slice(), 0, timestamp_split);
        self.timestamp = match parse_usize(ts.as_slice()) {
            Some(v) => v,
            None => 0,
        };
        self.timezone = utf8_string(copy_range(rest.as_slice(), timestamp_split + 1, rest.len()));
        Ok(())
    }

    /// The signature line.
    pub fn encode_to_data(&self) -> (res: Result<Vec<u8>, GitError>)
        ensures
            res matches Ok(v) && v@ == sign_bytes(*self),
    {
        let mut data: Vec<u8> = Vec::new();
        push_all(&mut data, self.t.as_str().as_bytes());
        data.push(0x20);
        push_all(&mut data, self.name.as_str().as_bytes());
        data.push(0x20);
        data.push(0x3c);
        push_all(&mut data, self.email.as_str().as_bytes());
        data.push(0x3e);
        data.push(0x20);
        let digits = decimal_bytes(self.timestamp as u64);
        push_all(&mut data, digits.as_slice());
        data.push(0x20);
        push_all(&mut data, self.timezone.as_str().as_bytes());
        assert(data@ =~= sign_bytes(*self));
        Ok(data)
    }
}

/// The `String` of valid UTF-8 bytes.
pub fn utf8_string(bytes: Vec<u8>) -> (res: String)
    requires
        valid_utf8(bytes@),
    ensures
        res@ == decode_utf8(bytes@),
{
    match string_from_utf8(bytes) {
        Some(s) => s,
        None => String::new(),
    }
}

/// A signature line parses back into the signature it was written from, when
/// the word holds no space, `<` or `>`, the name no `<` or `>`, and the email
/// no `>`.
#[verifier::rlimit(80)]
pub proof fn lemma_sign_roundtrip(s: AuthorSign)
    requires
        lacks(utf8(s.t@), 0x20),
        lacks(utf8(s.t@), 0x3c),
        lacks(utf8(s.t@), 0x3e),
        lacks(utf8(s.name@), 0x3c),
        lacks(utf8(s.name@), 0x3e),
        lacks(utf8(s.email@), 0x3e),
    ensures
        sign_decodable(sign_bytes(s)),
        sign_fields(sign_bytes(s)) == Some(
            (utf8(s.t@), utf8(s.name@), utf8(s.email@), s.timestamp as nat, utf8(s.timezone@)),
        ),
{
    let t = utf8(s.t@);
    let n = utf8(s.name@);
    let e = utf8(s.email@);
    let digits = decimal(s.timestamp as nat);
    let z = utf8(s.timezone@);
    let d = sign_bytes(s);
    lemma_decimal_value(s.timestamp as nat);
    lemma_decimal_digits(s.timestamp as nat);
    // the first space ends the word
    let a1 = seq![0x20u8] + n + seq![0x20u8, 0x3c] + e + seq![0x3eu8, 0x20] + digits + seq![0x20u8] + z;
    assert(d =~= t + a1);
    lemma_first_index_of_concat(t, a1, 0x20);
    assert(first_index_of(a1, 0x20) == Some(0int));
    // the first `<` ends the name
    let p2 = t + seq![0x20u8] + n + seq![0x20u8];
    let a2 = seq![0x3cu8] + e + seq![0x3eu8, 0x20] + digits + seq![0x20u8] + z;
    assert(d =~= p2 + a2);
    assert forall|j: int| 0 <= j < p2.len() implies p2[j] != 0x3c && p2[j] != 0x3e by {
        if j < t.len() {
        } else if j == t.len() {
        } else if j < t.len() + 1 + n.len() {
            assert(p2[j] == n[j - t.len() - 1]);
        }
    }
    lemma_first_index_of_concat(p2, a2, 0x3c);
    assert(first_index_of(a2, 0x3c) == Some(0int));
    // the first `>` ends the email
    let p3 = p2 + seq![0x3cu8] + e;
    let a3 = seq![0x3eu8, 0x20] + digits + seq![0x20u8] + z;
    assert(d =~= p3 + a3);
    assert forall|j: int| 0 <= j < p3.len() implies p3[j] != 0x3e by {
        if j < p2.len() {
            assert(p3[j] == p2[j]);
        } else if j > p2.len() {
            assert(p3[j] == e[j - p2.len() - 1]);
        }
    }
    lemma_first_index_of_concat(p3, a3, 0x3e);
    assert(first_index_of(a3, 0x3e) == Some(0int));
    let ns = t.len() as int;
    let es = p2.len() as int;
    let ee = p3.len() as int;
    assert(d.subrange(0, ns) =~= t);
    assert(d.subrange(ns + 1, es - 1) =~= n);
    assert(d.subrange(es + 1, ee) =~= e);
    let rest = d.subrange(ee + 2, d.len() as int);
    assert(rest =~= digits + (seq![0x20u8] + z));
    assert forall|j: int| 0 <= j < digits.len() implies digits[j] != 0x20 by {
        assert(0x30 <= digits[j] <= 0x39);
    }
    lemma_first_index_of_concat(digits, seq![0x20u8] + z, 0x20);
    assert(first_index_of(seq![0x20u8] + z, 0x20) == Some(0int));
    assert(rest.subrange(0, digits.len() as int) =~= digits);
    assert(digits[0] != 0x2b);
    assert(rest.subrange(digits.len() + 1int, rest.len() as int) =~= z);
    encode_utf8_valid_utf8(s.t@);
    encode_utf8_valid_utf8(s.name@);
    encode_utf8_valid_utf8(s.email@);
    encode_utf8_valid_utf8(s.timezone@);
}

/// Git object: commit.
pub struct Commit {
    pub meta: Metadata,
    pub tree_id: ID,
    pub parent_tree_ids: Vec<ID>,
    pub author: AuthorSign,
    pub committer: AuthorSign,
    pub message: String,
}

/// The parent lines of a commit: `parent <id>` and a line feed for each.
pub open spec fn parents_bytes(ps: Seq<ID>) -> Seq<u8>
    decreases ps.len(),
{
    if ps.len() == 0 {
        seq![]
    } else {
        parents_bytes(ps.drop_last()) + seq![0x70u8, 0x61, 0x72, 0x65, 0x6e, 0x74, 0x20] + utf8(
            ps.last().hash@,
        ) + seq![0x0au8]
    }
}

/// The data of a commit: its tree line, parent lines, author and committer
/// lines and message.
pub open spec fn commit_bytes(c: Commit) -> Seq<u8> {
    seq![0x74u8, 0x72, 0x65, 0x65, 0x20] + utf8(c.tree_id.hash@) + seq![0x0au8] + parents_bytes(
        c.parent_tree_ids@,
    ) + sign_bytes(c.author) + seq![0x0au8] + sign_bytes(c.committer) + seq![0x0au8] + utf8(
        c.message@,
    )
}

impl Commit {
    /// The metadata of the commit: its data and the id of that data.
    pub fn encode_metadata(&self) -> (res: Result<Metadata, ()>)
        ensures
            res matches Ok(m) && m.t == Type::Commit && m.h == Hash::Sha1 && m.data@ == commit_bytes(
                *self,
            ) && m.size == m.data@.len() && is_id_of(
                m.id,
                sha1_digest(stored_object(Type::Commit, m.data@)),
            ),
    {
        let mut data: Vec<u8> = Vec::new();
        data.push(0x74);
        data.push(0x72);
        data.push(0x65);
        data.push(0x65);
        data.push(0x20);
        let tree = self.tree_id.to_string();
        push_all(&mut data, tree.as_str().as_bytes());
        data.push(0x0a);
        let mut i: usize = 0;
        let ghost head = data@;
        while i < self.parent_tree_ids.len()
            invariant
                i <= self.parent_tree_ids@.len(),
                data@ == head + parents_bytes(self.parent_tree_ids@.subrange(0, i as int)),
            decreases self.parent_tree_ids@.len() - i,
        {
            let ghost before = data@;
            data.push(0x70);
            data.push(0x61);
            data.push(0x72);
            data.push(0x65);
            data.push(0x6e);
            data.push(0x74);
            data.push(0x20);
            let p = self.parent_tree_ids[i].to_string();
            push_all(&mut data, p.as_str().as_bytes());
            data.push(0x0a);
            proof {
                let ps = self.parent_tree_ids@.subrange(0, i + 1);
                assert(ps.drop_last() =~= self.parent_tree_ids@.subrange(0, i as int));
                assert(data@ =~= head + parents_bytes(ps));
            }
            i = i + 1;
        }
        assert(self.parent_tree_ids@.subrange(0, i as int) =~= self.parent_tree_ids@);
        let author = match self.author.encode_to_data() {
            Ok(v) => v,
            Err(_) => Vec::new(),
        };
        push_all(&mut data, author.as_slice());
        data.push(0x0a);
        let committer = match self.committer.encode_to_data() {
            Ok(v) => v,
            Err(_) => Vec::new(),
        };
        push_all(&mut data, committer.as_slice());
        data.push(0x0a);
        push_all(&mut data, self.message.as_str().as_bytes());
        assert(data@ =~= commit_bytes(*self));
        let (bytes, _, _) = ID::generate(Type::Commit, data.as_slice());
        let size = data.len();
        Ok(
            Metadata {
                t: Type::Commit,
                h: Hash::Sha1,
                id: ID::from_bytes(bytes.as_slice()),
                size,
                data,
            },
        )
    }
}

/// Git object: tag.
pub struct Tag {
    pub meta: Metadata,
    pub object: ID,
    pub t: Type,
    pub tag: String,
    pub tagger: AuthorSign,
    pub message: String,
}

/// The data of a tag: its object, type and tag lines, tagger line and
/// message.
pub open spec fn tag_bytes(g: Tag) -> Seq<u8> {
    seq![0x6fu8, 0x62, 0x6a, 0x65, 0x63, 0x74, 0x20] + utf8(g.object.hash@) + seq![0x0au8] + seq![
        0x74u8,
        0x79,
        0x70,
        0x65,
        0x20,
    ] + type_bytes(g.t) + seq![0x0au8] + seq![0x74u8, 0x61, 0x67, 0x20] + utf8(g.tag@) + seq![
        0x0au8,
    ] + sign_bytes(g.tagger) + seq![0x0au8] + utf8(g.message@)
}

impl Tag {
    /// The metadata of the tag: its data and the id of that data.
    pub fn encode_metadata(&self) -> (res: Result<Metadata, ()>)
        ensures
            res matches Ok(m) && m.t == Type::Tag && m.h == Hash::Sha1 && m.data@ == tag_bytes(*self)
                && m.size == m.data@.len() && is_id_of(
                m.id,
                sha1_digest(stored_object(Type::Tag, m.data@)),
            ),
    {
        let mut data: Vec<u8> = Vec::new();
        let obj_word: Vec<u8> = vec![0x6f, 0x62, 0x6a, 0x65, 0x63, 0x74, 0x20];
        push_all(&mut data, obj_word.as_slice());
        let object = self.object.to_string();
        push_all(&mut data, object.as_str().as_bytes());
        data.push(0x0a);
        let type_word: Vec<u8> = vec![0x74, 0x79, 0x70, 0x65, 0x20];
        push_all(&mut data, type_word.as_slice());
        let t = self.t.to_string();
        push_all(&mut data, t.as_str().as_bytes());
        data.push(0x0a);
        let tag_word: Vec<u8> = vec![0x74, 0x61, 0x67, 0x20];
        push_all(&mut data, tag_word.as_slice());
        push_all(&mut data, self.tag.as_str().as_bytes());
        data.push(0x0a);
        let tagger = match self.tagger.encode_to_data() {
            Ok(v) => v,
            Err(_) => Vec::new(),
        };
        push_all(&mut data, tagger.as_slice());
        data.push(0x0a);
        push_all(&mut data, self.message.as_str().as_bytes());
        assert(data@ =~= tag_bytes(*self));
        let size = data.len();
        let id = ID::from_vec(Type::Tag, data.as_slice());
        Ok(Metadata { t: Type::Tag, h: Hash::Sha1, id, size, data })
    }
}

} // verus!

verus! {

impl Blob {
    /// The loose file of the blob under `root_path`.
    pub fn loose_file(&self, root_path: &str) -> (res: (String, Vec<u8>))
        requires
            all_ascii(utf8(self.meta.id.hash@)),
            self.meta.id.hash@.len() >= 2,
        ensures
            res.0@ == loose_path(root_path@, self.meta.id.hash@),
            res.1@ == zlib_deflate(self.meta.data@),
    {
        self.meta.loose_file(root_path)
    }
}

impl Tree {
    /// The loose file of the tree under `root_path`.
    pub fn loose_file(&self, root_path: &str) -> (res: (String, Vec<u8>))
        requires
            all_ascii(utf8(self.meta.id.hash@)),
            self.meta.id.hash@.len() >= 2,
        ensures
            res.0@ == loose_path(root_path@, self.meta.id.hash@),
            res.1@ == zlib_deflate(self.meta.data@),
    {
        self.meta.loose_file(root_path)
    }
}

impl Commit {
    /// The loose file of the commit under `root_path`.
    pub fn loose_file(&self, root_path: &str) -> (res: (String, Vec<u8>))
        requires
            all_ascii(utf8(self.meta.id.hash@)),
            self.meta.id.hash@.len() >= 2,
        ensures
            res.0@ == loose_path(root_path@, self.meta.id.hash@),
            res.1@ == zlib_deflate(self.meta.data@),
    {
        self.meta.loose_file(root_path)
    }
}

impl Tag {
    /// The loose file of the tag under `root_path`.
    pub fn loose_file(&self, root_path: &str) -> (res: (String, Vec<u8>))
        requires
            all_ascii(utf8(self.meta.id.hash@)),
            self.meta.id.hash@.len() >= 2,
        ensures
            res.0@ == loose_path(root_path@, self.meta.id.hash@),
            res.1@ == zlib_deflate(self.meta.data@),
    {
        self.meta.loose_file(root_path)
    }
}

} // verus!

verus! {

/// The first place at or after `k` where the bytes `pat` occur in `d`.
pub open spec fn find_from(d: Seq<u8>, pat: Seq<u8>, k: int) -> Option<int>
    decreases d.len() + 1 - k,
{
    if k < 0 || k + pat.len() > d.len() {
        None
    } else if d.subrange(k, k + pat.len()) == pat {
        Some(k)
    } else {
        find_from(d, pat, k + 1)
    }
}

/// Finds the first place where the bytes `pat` occur in `d`.
pub fn find_bytes(d: &[u8], pat: &[u8]) -> (res: Option<usize>)
    ensures
        match find_from(d@, pat@, 0) {
            Some(i) => res == Some(i as usize),
            None => res is None,
        },
{
    let mut k: usize = 0;
    while pat.len() <= d.len() - k
        invariant
            k <= d@.len(),
            find_from(d@, pat@, 0) == find_from(d@, pat@, k as int),
        decreases d@.len() - k,
    {
        let part = copy_range(d, k, k + pat.len());
        if pat.len() == 0 {
            assert(part@ =~= pat@);
        }
        if bytes_eq(part.as_slice(), pat) {
            return Some(k);
        }
        k = k + 1;
    }
    None
}

/// Where `find_from` finds `pat`, it occurs, at or after `k`.
pub proof fn lemma_find_from(d: Seq<u8>, pat: Seq<u8>, k: int)
    ensures
        find_from(d, pat, k) matches Some(i) ==> k <= i && i + pat.len() <= d.len() && d.subrange(
            i,
            i + pat.len(),
        ) == pat,
    decreases d.len() + 1 - k,
{
    if !(k < 0 || k + pat.len() > d.len()) && d.subrange(k, k + pat.len()) != pat {
        lemma_find_from(d, pat, k + 1);
    }
}

/// The word `author`.
pub open spec fn author_word() -> Seq<u8> {
    seq![0x61u8, 0x75, 0x74, 0x68, 0x6f, 0x72]
}

/// The word `parent`.
pub open spec fn parent_word() -> Seq<u8> {
    seq![0x70u8, 0x61, 0x72, 0x65, 0x6e, 0x74]
}

/// The word `tagger`.
pub open spec fn tagger_word() -> Seq<u8> {
    seq![0x74u8, 0x61, 0x67, 0x67, 0x65, 0x72]
}

/// How many steps of `step` bytes it takes to go from `index` to `end` or
/// past it: one for each step begun below `end`.
pub open spec fn step_count(index: nat, end: nat, step: nat) -> nat
    decreases end - index,
{
    if index >= end || step == 0 {
        0
    } else if index + step >= end {
        1
    } else {
        1 + step_count(index + step, end, step)
    }
}

/// Text that makes an id: UTF-8 hexadecimal digits.
pub open spec fn id_text_ok(b: Seq<u8>) -> bool {
    valid_utf8(b) && hex_decode(b) is Some
}

/// The id whose text is `b`.
pub open spec fn is_id_text(id: ID, b: Seq<u8>) -> bool {
    id.bytes@ == hex_decode(b).unwrap() && id.hash@ == decode_utf8(b)
}

/// The id whose text is the bytes `text`.
pub fn id_from_text(text: Vec<u8>) -> (res: ID)
    requires
        id_text_ok(text@),
    ensures
        is_id_text(res, text@),
{
    let ghost b = text@;
    let s = utf8_string(text);
    proof {
        decode_utf8_encode_utf8(b);
    }
    ID::from_string(s.as_str())
}

/// The pieces that `Commit::decode_meta` cuts from the data of a commit.
pub struct CommitCut {
    /// The text of the tree id.
    pub tree: Seq<u8>,
    /// `None` when the rest holds no `parent`; else the text of the parent id
    /// and how many times it is taken.
    pub parent: Option<(Seq<u8>, nat)>,
    /// The author line.
    pub author: Seq<u8>,
    /// The committer line.
    pub committer: Seq<u8>,
    /// The message.
    pub message: Seq<u8>,
}

/// How `Commit::decode_meta` cuts the data `d0` of a commit: the tree id
/// between the first space and the first line feed; in the rest `d1`, the
/// author line from the first `author` to the next line feed, the committer
/// line after it, and the message after that. Where `d1` holds `parent`
/// anywhere, the parent id is the text between the first space and the first
/// line feed of `d1`, taken once for each step of that line's length begun
/// before `author`. `None` where a piece is missing.
pub open spec fn commit_cut(d0: Seq<u8>) -> Option<CommitCut> {
    match (first_index_of(d0, 0x20), first_index_of(d0, 0x0a)) {
        (Some(tb), Some(te)) => if tb + 1 <= te {
            let d1 = d0.skip(te + 1);
            match find_from(d1, author_word(), 0) {
                Some(ab) => {
                    let parent: Option<Option<(Seq<u8>, nat)>> = if find_from(
                        d1,
                        parent_word(),
                        0,
                    ) is None {
                        Some(None)
                    } else if ab == 0 {
                        Some(Some((seq![], 0nat)))
                    } else {
                        match (first_index_of(d1, 0x20), first_index_of(d1, 0x0a)) {
                            (Some(pb), Some(pe)) => if pb + 1 <= pe {
                                Some(
                                    Some(
                                        (
                                            d1.subrange(pb + 1, pe),
                                            step_count(0, ab as nat, (pe + 1) as nat),
                                        ),
                                    ),
                                )
                            } else {
                                None
                            },
                            _ => None,
                        }
                    };
                    let d2 = d1.skip(ab);
                    match (parent, first_index_of(d2, 0x0a)) {
                        (Some(p), Some(n2)) => {
                            let d3 = d2.skip(n2 + 1);
                            match first_index_of(d3, 0x0a) {
                                Some(n3) => Some(
                                    CommitCut {
                                        tree: d0.subrange(tb + 1, te),
                                        parent: p,
                                        author: d2.take(n2),
                                        committer: d3.take(n3),
                                        message: d3.skip(n3 + 1),
                                    },
                                ),
                                None => None,
                            }
                        },
                        _ => None,
                    }
                },
                None => None,
            }
        } else {
            None
        },
        _ => None,
    }
}

/// Commit data that `Commit::decode_meta` can decode: every piece is there,
/// the ids are hexadecimal text, the signature lines decode and the message
/// is UTF-8.
pub open spec fn commit_decodable(d0: Seq<u8>) -> bool {
    &&& commit_cut(d0) is Some
    &&& id_text_ok(commit_cut(d0).unwrap().tree)
    &&& (commit_cut(d0).unwrap().parent matches Some((p, n)) ==> (n > 0 ==> id_text_ok(p)))
    &&& sign_decodable(commit_cut(d0).unwrap().author)
    &&& sign_decodable(commit_cut(d0).unwrap().committer)
    &&& valid_utf8(commit_cut(d0).unwrap().message)
}

/// `s` holds the fields of the signature line `d`.
pub open spec fn is_sign_of(s: AuthorSign, d: Seq<u8>) -> bool {
    let f = sign_fields(d).unwrap();
    &&& s.t@ == decode_utf8(f.0)
    &&& s.name@ == decode_utf8(f.1)
    &&& s.email@ == decode_utf8(f.2)
    &&& s.timestamp == f.3
    &&& s.timezone@ == decode_utf8(f.4)
}

/// An empty signature, to decode into.
fn blank_sign() -> (res: AuthorSign)
    ensures
        res.t@.len() == 0,
        res.name@.len() == 0,
        res.email@.len() == 0,
        res.timestamp == 0,
        res.timezone@.len() == 0,
{
    AuthorSign {
        t: String::new(),
        name: String::new(),
        email: String::new(),
        timestamp: 0,
        timezone: String::new(),
    }
}

/// The position of the first `x` in `d`, which holds one.
fn index_of(d: &[u8], x: u8) -> (res: usize)
    requires
        first_index_of(d@, x) is Some,
    ensures
        res as int == first_index_of(d@, x).unwrap(),
        res < d@.len(),
{
    proof {
        lemma_first_index_of(d@, x);
    }
    match find_byte(d, x) {
        Some(i) => i,
        None => 0,
    }
}

impl Commit {
    /// Decodes the data of the commit's metadata into its tree id, parent ids,
    /// author, committer and message, cut as `commit_cut` says. The parent
    /// ids keep their value where the data holds no `parent`.
    pub fn decode_meta(&mut self) -> (res: Result<(), GitError>)
        requires
            commit_decodable(old(self).meta.data@),
        ensures
            res is Ok,
            final(self).meta == old(self).meta,
            ({
                let c = commit_cut(old(self).meta.data@).unwrap();
                &&& is_id_text(final(self).tree_id, c.tree)
                &&& match c.parent {
                    None => final(self).parent_tree_ids@ == old(self).parent_tree_ids@,
                    Some((p, n)) => final(self).parent_tree_ids@.len() == n && forall|i: int|
                        0 <= i < n ==> is_id_text(#[trigger] final(self).parent_tree_ids@[i], p),
                }
                &&& is_sign_of(final(self).author, c.author)
                &&& is_sign_of(final(self).committer, c.committer)
                &&& final(self).message@ == decode_utf8(c.message)
            }),
    {
        let ghost d0 = self.meta.data@;
        let ghost c = commit_cut(d0).unwrap();
        let data = copy_range(self.meta.data.as_slice(), 0, self.meta.data.len());
        assert(data@ =~= d0);
        let d = data.as_slice();
        let tree_begin = index_of(d, 0x20);
        let tree_end = index_of(d, 0x0a);
        self.tree_id = id_from_text(copy_range(d, tree_begin + 1, tree_end));
        let n = d.len();
        let rest = copy_range(d, tree_end + 1, n);
        let d1 = rest.as_slice();
        let n1 = d1.len();
        assert(d1@ =~= d0.skip(tree_end + 1));
        let author_pat: Vec<u8> = vec![0x61, 0x75, 0x74, 0x68, 0x6f, 0x72];
        assert(author_pat@ =~= author_word());
        proof {
            lemma_find_from(d1@, author_word(), 0);
        }
        let author_begin = match find_bytes(d1, author_pat.as_slice()) {
            Some(i) => i,
            None => 0,
        };
        assert(find_from(d1@, author_word(), 0) == Some(author_begin as int));
        let parent_pat: Vec<u8> = vec![0x70, 0x61, 0x72, 0x65, 0x6e, 0x74];
        assert(parent_pat@ =~= parent_word());
        if find_bytes(d1, parent_pat.as_slice()).is_some() {
            let mut parents: Vec<ID> = Vec::new();
            let mut index: usize = 0;
            let ghost pe_g: int = if author_begin > 0 {
                first_index_of(d1@, 0x0a).unwrap()
            } else {
                0
            };
            let ghost p_g: Seq<u8> = if author_begin > 0 {
                d1@.subrange(first_index_of(d1@, 0x20).unwrap() + 1, pe_g)
            } else {
                seq![]
            };
            proof {
                if author_begin > 0 {
                    lemma_first_index_of(d1@, 0x0a);
                }
            }
            while index < author_begin
                invariant
                    n1 == d1@.len(),
                    index <= author_begin <= d1@.len(),
                    author_begin > 0 ==> (first_index_of(d1@, 0x20) matches Some(pb) && pb + 1
                        <= pe_g && first_index_of(d1@, 0x0a) == Some(pe_g) && p_g == d1@.subrange(
                        pb + 1,
                        pe_g,
                    ) && id_text_ok(p_g) && pe_g < d1@.len()),
                    parents@.len() + step_count(index as nat, author_begin as nat, (pe_g + 1) as nat)
                        == step_count(0, author_begin as nat, (pe_g + 1) as nat),
                    forall|i: int| 0 <= i < parents@.len() ==> is_id_text(#[trigger] parents@[i], p_g),
                decreases author_begin - index,
            {
                let parent_begin = index_of(d1, 0x20);
                let parent_end = index_of(d1, 0x0a);
                let id = id_from_text(copy_range(d1, parent_begin + 1, parent_end));
                parents.push(id);
                let step = parent_end + 1;
                index = if step >= author_begin - index {
                    author_begin
                } else {
                    index + step
                };
            }
            self.parent_tree_ids = parents;
        }
        let d2v = copy_range(d1, author_begin, n1);
        let d2 = d2v.as_slice();
        assert(d2@ =~= d1@.skip(author_begin as int));
        let n2 = index_of(d2, 0x0a);
        let author_line = copy_range(d2, 0, n2);
        assert(author_line@ =~= d2@.take(n2 as int));
        let mut author = blank_sign();
        let _ = author.decode_from_data(author_line);
        self.author = author;
        let d3v = copy_range(d2, n2 + 1, d2.len());
        let d3 = d3v.as_slice();
        assert(d3@ =~= d2@.skip(n2 + 1));
        let n3 = index_of(d3, 0x0a);
        let committer_line = copy_range(d3, 0, n3);
        assert(committer_line@ =~= d3@.take(n3 as int));
        let mut committer = blank_sign();
        let _ = committer.decode_from_data(committer_line);
        self.committer = committer;
        self.message = utf8_string(copy_range(d3, n3 + 1, d3.len()));
        Ok(())
    }
}

/// The pieces that `Tag::decode_metadata` cuts from the data of a tag.
pub struct TagCut {
    /// The text of the object id.
    pub object: Seq<u8>,
    /// The name of the object's type.
    pub kind_text: Seq<u8>,
    /// The tag name.
    pub tag: Seq<u8>,
    /// The tagger line.
    pub tagger: Seq<u8>,
    /// The message, from the line feed before it.
    pub message: Seq<u8>,
}

/// How `Tag::decode_metadata` cuts the data `d0` of a tag: the object id
/// between the first space and the first line feed; in what follows (`d1`),
/// the type name likewise; in what follows that (`d2`), the tag name
/// likewise. The tagger line is then sought in `d2` from the offset just past
/// the type name's line in `d1`: it runs to the next line feed, which must
/// hold `tagger`, and the message is what follows from the second line feed
/// after it, that line feed included. `None` where a piece is missing.
pub open spec fn tag_cut(d0: Seq<u8>) -> Option<TagCut> {
    match (first_index_of(d0, 0x20), first_index_of(d0, 0x0a)) {
        (Some(ob), Some(oe)) => if ob + 1 <= oe {
            let d1 = d0.skip(oe + 1);
            match (first_index_of(d1, 0x20), first_index_of(d1, 0x0a)) {
                (Some(tb), Some(te)) => if tb + 1 <= te {
                    let d2 = d1.skip(te + 1);
                    match (first_index_of(d2, 0x20), first_index_of(d2, 0x0a)) {
                        (Some(gb), Some(ge)) => if gb + 1 <= ge && te <= d2.len() {
                            let d3 = d2.skip(te);
                            match (find_from(d3, tagger_word(), 0), first_index_of(d3, 0x0a)) {
                                (Some(_), Some(n3)) => {
                                    let d4 = d3.skip(n3 + 1);
                                    match first_index_of(d4, 0x0a) {
                                        Some(n4) => Some(
                                            TagCut {
                                                object: d0.subrange(ob + 1, oe),
                                                kind_text: d1.subrange(tb + 1, te),
                                                tag: d2.subrange(gb + 1, ge),
                                                tagger: d3.take(n3),
                                                message: d4.skip(n4),
                                            },
                                        ),
                                        None => None,
                                    }
                                },
                                _ => None,
                            }
                        } else {
                            None
                        },
                        _ => None,
                    }
                } else {
                    None
                },
                _ => None,
            }
        } else {
            None
        },
        _ => None,
    }
}

/// Tag data that `Tag::decode_metadata` can decode: every piece is there,
/// the object id is hexadecimal text, the type name names a type, the tagger
/// line decodes and the texts are UTF-8.
pub open spec fn tag_decodable(d0: Seq<u8>) -> bool {
    &&& tag_cut(d0) is Some
    &&& id_text_ok(tag_cut(d0).unwrap().object)
    &&& valid_utf8(tag_cut(d0).unwrap().kind_text)
    &&& type_named(tag_cut(d0).unwrap().kind_text) is Some
    &&& valid_utf8(tag_cut(d0).unwrap().tag)
    &&& sign_decodable(tag_cut(d0).unwrap().tagger)
    &&& valid_utf8(tag_cut(d0).unwrap().message)
}

impl Tag {
    /// Decodes the data of the tag's metadata into its object id, type, tag
    /// name, tagger and message, cut as `tag_cut` says.
    #[verifier::rlimit(60)]
    #[verifier::spinoff_prover]
    pub fn decode_metadata(&mut self) -> (res: Result<(), GitError>)
        requires
            tag_decodable(old(self).meta.data@),
        ensures
            res is Ok,
            final(self).meta == old(self).meta,
            ({
                let c = tag_cut(old(self).meta.data@).unwrap();
                &&& is_id_text(final(self).object, c.object)
                &&& type_named(c.kind_text) == Some(final(self).t)
                &&& final(self).tag@ == decode_utf8(c.tag)
                &&& is_sign_of(final(self).tagger, c.tagger)
                &&& final(self).message@ == decode_utf8(c.message)
            }),
    {
        let ghost d0 = self.meta.data@;
        let data = copy_range(self.meta.data.as_slice(), 0, self.meta.data.len());
        assert(data@ =~= d0);
        let d = data.as_slice();
        let object_begin = index_of(d, 0x20);
        let object_end = index_of(d, 0x0a);
        self.object = id_from_text(copy_range(d, object_begin + 1, object_end));
        let d1v = copy_range(d, object_end + 1, d.len());
        let d1 = d1v.as_slice();
        assert(d1@ =~= d0.skip(object_end + 1));
        let type_begin = index_of(d1, 0x20);
        let type_end = index_of(d1, 0x0a);
        let type_text = copy_range(d1, type_begin + 1, type_end);
        let ghost type_bytes_seen = type_text@;
        let kind_text = utf8_string(type_text);
        proof {
            decode_utf8_encode_utf8(type_bytes_seen);
            lemma_type_named(type_bytes_seen);
        }
        self.t = match Type::from_string(kind_text.as_str()) {
            Ok(t) => t,
            Err(_) => Type::Blob,
        };
        let d2v = copy_range(d1, type_end + 1, d1.len());
        let d2 = d2v.as_slice();
        assert(d2@ =~= d1@.skip(type_end + 1));
        let tag_begin = index_of(d2, 0x20);
        let tag_end = index_of(d2, 0x0a);
        self.tag = utf8_string(copy_range(d2, tag_begin + 1, tag_end));
        let d3v = copy_range(d2, type_end, d2.len());
        let d3 = d3v.as_slice();
        assert(d3@ =~= d2@.skip(type_end as int));
        let n3 = index_of(d3, 0x0a);
        let tagger_line = copy_range(d3, 0, n3);
        assert(tagger_line@ =~= d3@.take(n3 as int));
        let mut tagger = blank_sign();
        let _ = tagger.decode_from_data(tagger_line);
        self.tagger = tagger;
        let d4v = copy_range(d3, n3 + 1, d3.len());
        let d4 = d4v.as_slice();
        assert(d4@ =~= d3@.skip(n3 + 1));
        let n4 = index_of(d4, 0x0a);
        self.message = utf8_string(copy_range(d4, n4, d4.len()));
        Ok(())
    }
}

/// The text of a signature: its name, its email in angle brackets, its
/// timestamp and its timezone.
pub open spec fn sign_text(s: AuthorSign) -> Seq<char> {
    s.name@ + " <"@ + s.email@ + "> "@ + ascii_chars(decimal(s.timestamp as nat)) + " "@ + s.timezone@
}

impl AuthorSign {
    /// The text of the signature.
    pub fn to_string(&self) -> (res: String)
        ensures
            res@ == sign_text(*self),
    {
        let mut r = self.name.clone();
        r.append(" <");
        r.append(self.email.as_str());
        r.append("> ");
        let ts = crate::text::decimal_string(self.timestamp as u64);
        r.append(ts.as_str());
        r.append(" ");
        r.append(self.timezone.as_str());
        r
    }
}

/// The text of the parent lines of a commit, each followed by an empty
/// line.
pub open spec fn parents_text(ps: Seq<ID>) -> Seq<char>
    decreases ps.len(),
{
    if ps.len() == 0 {
        Seq::empty()
    } else {
        parents_text(ps.drop_last()) + "parent "@ + ps.last().hash@ + "\n\n"@
    }
}

/// The text of a commit: its tree, parents, author and committer, each
/// followed by an empty line, then its message after an empty line.
pub open spec fn commit_text(c: Commit) -> Seq<char> {
    "tree "@ + c.tree_id.hash@ + "\n\n"@ + parents_text(c.parent_tree_ids@) + "author "@ + sign_text(
        c.author,
    ) + "\n\n"@ + "committer "@ + sign_text(c.committer) + "\n\n"@ + "\n"@ + c.message@ + "\n"@
}

impl Commit {
    /// The text of the commit.
    pub fn to_string(&self) -> (res: String)
        ensures
            res@ == commit_text(*self),
    {
        let mut r = String::from_str("tree ");
        r.append(self.tree_id.hash.as_str());
        r.append("\n\n");
        let mut i: usize = 0;
        let ghost head = r@;
        assert(self.parent_tree_ids@.take(0) =~= Seq::<ID>::empty());
        while i < self.parent_tree_ids.len()
            invariant
                i <= self.parent_tree_ids@.len(),
                r@ == head + parents_text(self.parent_tree_ids@.take(i as int)),
            decreases self.parent_tree_ids@.len() - i,
        {
            r.append("parent ");
            r.append(self.parent_tree_ids[i].hash.as_str());
            r.append("\n\n");
            assert(self.parent_tree_ids@.take(i + 1).drop_last() =~= self.parent_tree_ids@.take(i as int));
            i = i + 1;
        }
        assert(self.parent_tree_ids@.take(i as int) =~= self.parent_tree_ids@);
        r.append("author ");
        let a = self.author.to_string();
        r.append(a.as_str());
        r.append("\n\n");
        r.append("committer ");
        let c = self.committer.to_string();
        r.append(c.as_str());
        r.append("\n\n");
        r.append("\n");
        r.append(self.message.as_str());
        r.append("\n");
        r
    }
}

/// The text of the entries of a tree, a line each: mode, kind, id and file
/// name, separated by spaces.
pub open spec fn tree_text(items: Seq<TreeItem>) -> Seq<char>
    decreases items.len(),
{
    if items.len() == 0 {
        Seq::empty()
    } else {
        let it = items.last();
        tree_text(items.drop_last()) + decode_utf8(it.mode@) + " "@ + ascii_chars(
            item_type_name(it.item_type),
        ) + " "@ + it.id.hash@ + " "@ + it.filename@ + "\n"@
    }
}

impl Tree {
    /// The text of the tree; every mode must be UTF-8.
    pub fn to_string(&self) -> (res: String)
        requires
            forall|i: int| 0 <= i < self.tree_items@.len() ==> valid_utf8(#[trigger] self.tree_items@[i].mode@),
        ensures
            res@ == tree_text(self.tree_items@),
    {
        let mut r = String::new();
        let mut i: usize = 0;
        assert(self.tree_items@.take(0) =~= Seq::<TreeItem>::empty());
        while i < self.tree_items.len()
            invariant
                i <= self.tree_items@.len(),
                forall|k: int| 0 <= k < self.tree_items@.len() ==> valid_utf8(#[trigger] self.tree_items@[k].mode@),
                r@ == tree_text(self.tree_items@.take(i as int)),
            decreases self.tree_items@.len() - i,
        {
            let it = &self.tree_items[i];
            assert(valid_utf8(self.tree_items@[i as int].mode@));
            assert(it.mode@.subrange(0, it.mode@.len() as int) =~= it.mode@);
            let mode = utf8_string(copy_range(it.mode.as_slice(), 0, it.mode.len()));
            r.append(mode.as_str());
            r.append(" ");
            let kind = it.item_type.to_string();
            r.append(kind.as_str());
            r.append(" ");
            r.append(it.id.hash.as_str());
            r.append(" ");
            r.append(it.filename.as_str());
            r.append("\n");
            assert(self.tree_items@.take(i + 1).drop_last() =~= self.tree_items@.take(i as int));
            i = i + 1;
        }
        assert(self.tree_items@.take(i as int) =~= self.tree_items@);
        r
    }
}

/// Hexadecimal text holds hexadecimal digits only.
proof fn lemma_hex_digits(s: Seq<u8>)
    requires
        hex_decode(s) is Some,
    ensures
        forall|i: int| 0 <= i < s.len() ==> (#[trigger] crate::text::hex_value(s[i])) is Some,
    decreases s.len(),
{
    if s.len() >= 2 {
        let r = s.subrange(2, s.len() as int);
        lemma_hex_digits(r);
        assert forall|i: int| 0 <= i < s.len() implies (#[trigger] crate::text::hex_value(s[i])) is Some by {
            if i >= 2 {
                assert(s[i] == r[i - 2]);
            }
        }
    }
}

/// An id whose text is its digest in hexadecimal.
pub open spec fn id_consistent(id: ID) -> bool {
    hex_decode(utf8(id.hash@)) == Some(id.bytes@)
}

/// The line that names a parent: `parent`, a space, its id and a line feed.
pub open spec fn parent_line(h: Seq<u8>) -> Seq<u8> {
    seq![0x70u8, 0x61, 0x72, 0x65, 0x6e, 0x74, 0x20] + h + seq![0x0au8]
}

/// The parent lines of parents that all have the id text `h`: that line,
/// once per parent.
proof fn lemma_same_parents(ps: Seq<ID>, h: Seq<u8>)
    requires
        forall|i: int| 0 <= i < ps.len() ==> utf8((#[trigger] ps[i]).hash@) == h,
    ensures
        parents_bytes(ps).len() == ps.len() * (h.len() + 8),
        ps.len() > 0 ==> parents_bytes(ps).take(h.len() + 8int) == parent_line(h),
    decreases ps.len(),
{
    if ps.len() > 0 {
        let d = ps.drop_last();
        assert forall|i: int| 0 <= i < d.len() implies utf8((#[trigger] d[i]).hash@) == h by {
            assert(d[i] == ps[i]);
        }
        lemma_same_parents(d, h);
        assert(utf8(ps.last().hash@) == h);
        let line = parent_line(h);
        let pb = parents_bytes(ps);
        assert(pb =~= parents_bytes(d) + line);
        assert(pb.len() == ps.len() * (h.len() + 8)) by (nonlinear_arith)
            requires
                pb.len() == parents_bytes(d).len() + h.len() + 8,
                parents_bytes(d).len() == d.len() * (h.len() + 8),
                d.len() + 1 == ps.len(),
        ;
        if d.len() == 0 {
            assert(parents_bytes(d).len() == 0);
            assert(pb.take(h.len() + 8int) =~= line);
        } else {
            assert(parents_bytes(d).len() >= h.len() + 8) by (nonlinear_arith)
                requires
                    parents_bytes(d).len() == d.len() * (h.len() + 8),
                    d.len() >= 1,
            ;
            assert(pb.take(h.len() + 8int) =~= parents_bytes(d).take(h.len() + 8int));
        }
    }
}

/// The bytes of parent lines whose ids are hexadecimal text: none is a `u`.
proof fn lemma_parents_no_u(ps: Seq<ID>)
    requires
        forall|i: int| 0 <= i < ps.len() ==> hex_decode(utf8((#[trigger] ps[i]).hash@)) is Some,
    ensures
        forall|i: int| 0 <= i < parents_bytes(ps).len() ==> #[trigger] parents_bytes(ps)[i] != 0x75,
    decreases ps.len(),
{
    if ps.len() > 0 {
        let d = ps.drop_last();
        assert forall|i: int| 0 <= i < d.len() implies hex_decode(utf8((#[trigger] d[i]).hash@)) is Some by {
            assert(d[i] == ps[i]);
        }
        lemma_parents_no_u(d);
        let h = utf8(ps.last().hash@);
        assert(hex_decode(utf8(ps[ps.len() - 1].hash@)) is Some);
        lemma_hex_digits(h);
        let pb = parents_bytes(ps);
        assert(pb =~= parents_bytes(d) + parent_line(h));
        assert forall|i: int| 0 <= i < pb.len() implies #[trigger] pb[i] != 0x75 by {
            let k = parents_bytes(d).len() as int;
            if i < k {
                assert(pb[i] == parents_bytes(d)[i]);
            } else if i >= k + 7 && i < k + 7 + h.len() {
                assert(pb[i] == h[i - k - 7]);
                assert(crate::text::hex_value(h[i - k - 7]) is Some);
            }
        }
    }
}

/// One step of `step` bytes per line: as many steps as lines.
proof fn lemma_step_count(j: nat, k: nat, step: nat)
    requires
        step > 0,
    ensures
        step_count(j, j + k * step, step) == k,
    decreases k,
{
    if k == 0 {
        assert(k * step == 0) by (nonlinear_arith)
            requires
                k == 0,
        ;
    } else {
        assert(k * step >= step) by (nonlinear_arith)
            requires
                k >= 1,
                step > 0,
        ;
        if k == 1 {
            assert(k * step == step) by (nonlinear_arith)
                requires
                    k == 1,
            ;
        } else {
            assert(k * step == step + (k - 1) * step) by (nonlinear_arith);
            assert((k - 1) * step >= step) by (nonlinear_arith)
                requires
                    k >= 2,
                    step > 0,
            ;
            lemma_step_count(j + step, (k - 1) as nat, step);
            assert(j + step + ((k - 1) as nat) * step == j + k * step);
        }
    }
}

/// The bytes `pat` occur in `d` at `j`.
pub open spec fn occurs_at(d: Seq<u8>, pat: Seq<u8>, j: int) -> bool {
    d.subrange(j, j + pat.len()) == pat
}

/// `find_from` finds `pat` at `ab` when it does not occur between `k` and
/// `ab`.
proof fn lemma_find_from_at(d: Seq<u8>, pat: Seq<u8>, k: int, ab: int)
    requires
        0 <= k <= ab,
        ab + pat.len() <= d.len(),
        d.subrange(ab, ab + pat.len()) == pat,
        forall|j: int| k <= j < ab ==> !#[trigger] occurs_at(d, pat, j),
    ensures
        find_from(d, pat, k) == Some(ab),
    decreases ab - k,
{
    if k < ab {
        assert(!occurs_at(d, pat, k));
        lemma_find_from_at(d, pat, k + 1, ab);
    } else {
        assert(occurs_at(d, pat, ab));
    }
}

/// No line feed in a signature line whose fields have none.
proof fn lemma_sign_one_line(s: AuthorSign)
    requires
        lacks(utf8(s.t@), 0x0a),
        lacks(utf8(s.name@), 0x0a),
        lacks(utf8(s.email@), 0x0a),
        lacks(utf8(s.timezone@), 0x0a),
    ensures
        lacks(sign_bytes(s), 0x0a),
{
    let t = utf8(s.t@);
    let n = utf8(s.name@);
    let e = utf8(s.email@);
    let digits = decimal(s.timestamp as nat);
    let z = utf8(s.timezone@);
    lemma_decimal_digits(s.timestamp as nat);
    let b = sign_bytes(s);
    assert forall|i: int| 0 <= i < b.len() implies b[i] != 0x0a by {
        let a1 = t.len() as int;
        let a2 = a1 + 1 + n.len();
        let a3 = a2 + 2 + e.len();
        let a4 = a3 + 2 + digits.len();
        if i < a1 {
            assert(b[i] == t[i]);
        } else if i == a1 {
        } else if i < a2 {
            assert(b[i] == n[i - a1 - 1]);
        } else if i < a2 + 2 {
        } else if i < a3 {
            assert(b[i] == e[i - a2 - 2]);
        } else if i < a3 + 2 {
        } else if i < a4 {
            assert(b[i] == digits[i - a3 - 2]);
        } else if i == a4 {
        } else {
            assert(b[i] == z[i - a4 - 1]);
        }
    }
}

/// A signature that reads back and fits on one line.
pub open spec fn sign_roundtrips(s: AuthorSign) -> bool {
    &&& lacks(utf8(s.t@), 0x20)
    &&& lacks(utf8(s.t@), 0x3c)
    &&& lacks(utf8(s.t@), 0x3e)
    &&& lacks(utf8(s.name@), 0x3c)
    &&& lacks(utf8(s.name@), 0x3e)
    &&& lacks(utf8(s.email@), 0x3e)
    &&& lacks(utf8(s.t@), 0x0a)
    &&& lacks(utf8(s.name@), 0x0a)
    &&& lacks(utf8(s.email@), 0x0a)
    &&& lacks(utf8(s.timezone@), 0x0a)
}

/// A commit that its data reads back into: its ids are the hexadecimal text
/// of their digests, all its parents are one commit, its author line starts
/// with the word `author`, and its signatures read back and fit on a line.
pub open spec fn commit_roundtrips(c: Commit) -> bool {
    &&& id_consistent(c.tree_id)
    &&& forall|i: int| 0 <= i < c.parent_tree_ids@.len() ==> id_consistent(#[trigger] c.parent_tree_ids@[i])
    &&& forall|i: int|
        0 <= i < c.parent_tree_ids@.len() ==> (#[trigger] c.parent_tree_ids@[i]).hash@
            == c.parent_tree_ids@[0].hash@
    &&& utf8(c.author.t@) == author_word()
    &&& sign_roundtrips(c.author)
    &&& sign_roundtrips(c.committer)
}

/// The data of a commit after its tree line.
pub open spec fn commit_body(c: Commit) -> Seq<u8> {
    parents_bytes(c.parent_tree_ids@) + sign_bytes(c.author) + seq![0x0au8] + sign_bytes(c.committer)
        + seq![0x0au8] + utf8(c.message@)
}

/// The tree line of a commit's data: the id between the first space and
/// the first line feed, the body after it.
#[verifier::rlimit(60)]
#[verifier::spinoff_prover]
proof fn lemma_commit_tree_line(c: Commit)
    requires
        id_consistent(c.tree_id),
    ensures
        first_index_of(commit_bytes(c), 0x20) == Some(4int),
        first_index_of(commit_bytes(c), 0x0a) == Some(5int + utf8(c.tree_id.hash@).len()),
        commit_bytes(c).subrange(5, 5int + utf8(c.tree_id.hash@).len()) == utf8(c.tree_id.hash@),
        commit_bytes(c).skip(6int + utf8(c.tree_id.hash@).len()) == commit_body(c),
{
    let t = utf8(c.tree_id.hash@);
    let d0 = commit_bytes(c);
    let d1 = commit_body(c);
    lemma_hex_digits(t);
    let rest0 = seq![0x20u8] + t + seq![0x0au8] + d1;
    assert(d0 =~= seq![0x74u8, 0x72, 0x65, 0x65] + rest0);
    crate::object::metadata::lemma_first_index_of_concat(seq![0x74u8, 0x72, 0x65, 0x65], rest0, 0x20);
    assert(first_index_of(rest0, 0x20) == Some(0int));
    let pre = seq![0x74u8, 0x72, 0x65, 0x65, 0x20] + t;
    assert(d0 =~= pre + (seq![0x0au8] + d1));
    assert forall|i: int| 0 <= i < pre.len() implies pre[i] != 0x0a by {
        if i >= 5 {
            assert(pre[i] == t[i - 5]);
            assert(crate::text::hex_value(t[i - 5]) is Some);
        }
    }
    crate::object::metadata::lemma_first_index_of_concat(pre, seq![0x0au8] + d1, 0x0a);
    assert(first_index_of(seq![0x0au8] + d1, 0x0a) == Some(0int));
    assert(d0.subrange(5, 5int + t.len()) =~= t);
    assert(d0.skip(6int + t.len()) =~= d1);
}

/// The parent lines of a commit whose parents are one commit: the first
/// names it, and there is one per parent.
#[verifier::rlimit(60)]
#[verifier::spinoff_prover]
proof fn lemma_commit_parents(c: Commit)
    requires
        c.parent_tree_ids@.len() > 0,
        id_consistent(c.parent_tree_ids@[0]),
        forall|i: int|
            0 <= i < c.parent_tree_ids@.len() ==> (#[trigger] c.parent_tree_ids@[i]).hash@
                == c.parent_tree_ids@[0].hash@,
    ensures
        ({
            let ps = c.parent_tree_ids@;
            let h = utf8(ps[0].hash@);
            let d1 = commit_body(c);
            &&& find_from(d1, parent_word(), 0) is Some
            &&& first_index_of(d1, 0x20) == Some(6int)
            &&& first_index_of(d1, 0x0a) == Some(7int + h.len())
            &&& d1.subrange(7, 7int + h.len()) == h
            &&& step_count(0, parents_bytes(ps).len(), (h.len() + 8) as nat) == ps.len()
            &&& id_text_ok(h)
        }),
{
    let ps = c.parent_tree_ids@;
    let h = utf8(ps[0].hash@);
    let d1 = commit_body(c);
    assert(id_consistent(ps[0]));
    lemma_hex_digits(h);
    assert forall|i: int| 0 <= i < ps.len() implies utf8((#[trigger] ps[i]).hash@) == h by {
        assert(ps[i].hash@ == ps[0].hash@);
    }
    lemma_same_parents(ps, h);
    let line = parent_line(h);
    let p = parents_bytes(ps);
    assert(d1.take(h.len() + 8int) =~= p.take(h.len() + 8int));
    assert(d1.take(h.len() + 8int) =~= line);
    assert(d1.subrange(0, 6) =~= parent_word());
    let tail = d1.skip(h.len() + 8int);
    assert(d1 =~= line + tail);
    let r1 = seq![0x20u8] + h + seq![0x0au8] + tail;
    assert(d1 =~= seq![0x70u8, 0x61, 0x72, 0x65, 0x6e, 0x74] + r1);
    crate::object::metadata::lemma_first_index_of_concat(seq![0x70u8, 0x61, 0x72, 0x65, 0x6e, 0x74], r1, 0x20);
    assert(first_index_of(r1, 0x20) == Some(0int));
    let pre1 = seq![0x70u8, 0x61, 0x72, 0x65, 0x6e, 0x74, 0x20] + h;
    assert(d1 =~= pre1 + (seq![0x0au8] + tail));
    assert forall|i: int| 0 <= i < pre1.len() implies pre1[i] != 0x0a by {
        if i >= 7 {
            assert(pre1[i] == h[i - 7]);
            assert(crate::text::hex_value(h[i - 7]) is Some);
        }
    }
    crate::object::metadata::lemma_first_index_of_concat(pre1, seq![0x0au8] + tail, 0x0a);
    assert(first_index_of(seq![0x0au8] + tail, 0x0a) == Some(0int));
    assert(d1.subrange(7, 7int + h.len()) =~= h);
    lemma_step_count(0, ps.len(), (h.len() + 8) as nat);
    assert(p.len() == 0 + ps.len() * (h.len() + 8));
    encode_utf8_valid_utf8(ps[0].hash@);
}

/// The author line of a commit starts right after its parent lines, and
/// `author` occurs nowhere before it.
#[verifier::rlimit(60)]
#[verifier::spinoff_prover]
proof fn lemma_commit_author_at(c: Commit)
    requires
        forall|i: int| 0 <= i < c.parent_tree_ids@.len() ==> id_consistent(#[trigger] c.parent_tree_ids@[i]),
        utf8(c.author.t@) == author_word(),
    ensures
        find_from(commit_body(c), author_word(), 0) == Some(parents_bytes(c.parent_tree_ids@).len() as int),
{
    let ps = c.parent_tree_ids@;
    let p = parents_bytes(ps);
    let a = sign_bytes(c.author);
    let d1 = commit_body(c);
    assert forall|i: int| 0 <= i < ps.len() implies hex_decode(utf8((#[trigger] ps[i]).hash@)) is Some by {
        assert(id_consistent(ps[i]));
    }
    lemma_parents_no_u(ps);
    let ab = p.len() as int;
    assert(a.take(6) =~= author_word());
    assert(d1.subrange(ab, ab + 6) =~= author_word());
    assert forall|j: int| 0 <= j < ab implies !#[trigger] occurs_at(d1, author_word(), j) by {
        let w = d1.subrange(j, j + 6);
        if j + 1 < ab {
            assert(w[1] == p[j + 1]);
        } else {
            assert(w[1] == a[0]);
        }
        assert(w[1] != 0x75);
    }
    lemma_find_from_at(d1, author_word(), 0, ab);
}

/// The lines of a commit after its parent lines: the author line, the
/// committer line, and the message.
#[verifier::rlimit(60)]
#[verifier::spinoff_prover]
proof fn lemma_commit_lines(c: Commit)
    requires
        sign_roundtrips(c.author),
        sign_roundtrips(c.committer),
    ensures
        ({
            let d2 = commit_body(c).skip(parents_bytes(c.parent_tree_ids@).len() as int);
            let a = sign_bytes(c.author);
            let cm = sign_bytes(c.committer);
            let d3 = d2.skip(a.len() + 1int);
            &&& first_index_of(d2, 0x0a) == Some(a.len() as int)
            &&& d2.take(a.len() as int) == a
            &&& first_index_of(d3, 0x0a) == Some(cm.len() as int)
            &&& d3.take(cm.len() as int) == cm
            &&& d3.skip(cm.len() + 1int) == utf8(c.message@)
        }),
{
    let a = sign_bytes(c.author);
    let cm = sign_bytes(c.committer);
    let m = utf8(c.message@);
    lemma_sign_one_line(c.author);
    lemma_sign_one_line(c.committer);
    let d2 = commit_body(c).skip(parents_bytes(c.parent_tree_ids@).len() as int);
    assert(d2 =~= a + (seq![0x0au8] + (cm + seq![0x0au8] + m)));
    crate::object::metadata::lemma_first_index_of_concat(a, seq![0x0au8] + (cm + seq![0x0au8] + m), 0x0a);
    assert(first_index_of(seq![0x0au8] + (cm + seq![0x0au8] + m), 0x0a) == Some(0int));
    assert(d2.take(a.len() as int) =~= a);
    let d3 = d2.skip(a.len() + 1int);
    assert(d3 =~= cm + (seq![0x0au8] + m));
    crate::object::metadata::lemma_first_index_of_concat(cm, seq![0x0au8] + m, 0x0a);
    assert(first_index_of(seq![0x0au8] + m, 0x0a) == Some(0int));
    assert(d3.take(cm.len() as int) =~= cm);
    assert(d3.skip(cm.len() + 1int) =~= m);
}

/// Commit data parses back into the commit it was written from: the data
/// that `encode_metadata` writes is cut by `decode_meta` into the tree id,
/// the parents (none left when there were none), the author and committer
/// lines and the message it was written from, and those decode.
#[verifier::rlimit(100)]
#[verifier::spinoff_prover]
pub proof fn lemma_commit_roundtrip(c: Commit)
    requires
        commit_roundtrips(c),
    ensures
        commit_decodable(commit_bytes(c)),
        ({
            let cut = commit_cut(commit_bytes(c)).unwrap();
            let ps = c.parent_tree_ids@;
            &&& cut.tree == utf8(c.tree_id.hash@)
            &&& cut.author == sign_bytes(c.author)
            &&& cut.committer == sign_bytes(c.committer)
            &&& cut.message == utf8(c.message@)
            &&& ps.len() > 0 ==> cut.parent == Some((utf8(ps[0].hash@), ps.len()))
            &&& ps.len() == 0 ==> (cut.parent is None || cut.parent == Some((Seq::<u8>::empty(), 0nat)))
        }),
        sign_fields(sign_bytes(c.author)) == Some(
            (utf8(c.author.t@), utf8(c.author.name@), utf8(c.author.email@), c.author.timestamp as nat, utf8(c.author.timezone@)),
        ),
        sign_fields(sign_bytes(c.committer)) == Some(
            (utf8(c.committer.t@), utf8(c.committer.name@), utf8(c.committer.email@), c.committer.timestamp as nat, utf8(c.committer.timezone@)),
        ),
{
    let ps = c.parent_tree_ids@;
    let t = utf8(c.tree_id.hash@);
    lemma_sign_roundtrip(c.author);
    lemma_sign_roundtrip(c.committer);
    lemma_commit_tree_line(c);
    lemma_commit_author_at(c);
    lemma_commit_lines(c);
    if ps.len() > 0 {
        lemma_commit_parents(c);
    } else {
        assert(parents_bytes(ps).len() == 0);
    }
    lemma_hex_digits(t);
    encode_utf8_valid_utf8(c.tree_id.hash@);
    encode_utf8_valid_utf8(c.message@);
}

/// A tag that its data reads back into: its object id is the hexadecimal
/// text of its digest, its name has no line feed and is as long as the name
/// of its object's type, its tagger line starts with the word `tagger`, reads
/// back and fits on a line, and its message starts with a line feed.
pub open spec fn tag_roundtrips(g: Tag) -> bool {
    &&& id_consistent(g.object)
    &&& lacks(utf8(g.tag@), 0x0a)
    &&& utf8(g.tag@).len() == type_bytes(g.t).len()
    &&& utf8(g.tagger.t@) == tagger_word()
    &&& sign_roundtrips(g.tagger)
    &&& utf8(g.message@).len() > 0
    &&& utf8(g.message@)[0] == 0x0a
}

/// The data of a tag after its object line.
pub open spec fn tag_after_object(g: Tag) -> Seq<u8> {
    seq![0x74u8, 0x79, 0x70, 0x65, 0x20] + type_bytes(g.t) + seq![0x0au8] + tag_after_type(g)
}

/// The data of a tag after its type line.
pub open spec fn tag_after_type(g: Tag) -> Seq<u8> {
    seq![0x74u8, 0x61, 0x67, 0x20] + utf8(g.tag@) + seq![0x0au8] + sign_bytes(g.tagger) + seq![0x0au8]
        + utf8(g.message@)
}

/// The line `word` (without space), a space, `text` and a line feed, at the
/// start of `d`: the first space and the first line feed.
proof fn lemma_word_line(word: Seq<u8>, text: Seq<u8>, rest: Seq<u8>)
    requires
        lacks(word, 0x20),
        lacks(word, 0x0a),
        lacks(text, 0x0a),
    ensures
        first_index_of(word + seq![0x20u8] + text + seq![0x0au8] + rest, 0x20) == Some(word.len() as int),
        first_index_of(word + seq![0x20u8] + text + seq![0x0au8] + rest, 0x0a) == Some(word.len() + 1int + text.len()),
        (word + seq![0x20u8] + text + seq![0x0au8] + rest).subrange(word.len() + 1int, word.len() + 1int + text.len()) == text,
        (word + seq![0x20u8] + text + seq![0x0au8] + rest).skip(word.len() + 2int + text.len()) == rest,
{
    let d = word + seq![0x20u8] + text + seq![0x0au8] + rest;
    let r1 = seq![0x20u8] + text + seq![0x0au8] + rest;
    assert(d =~= word + r1);
    crate::object::metadata::lemma_first_index_of_concat(word, r1, 0x20);
    assert(first_index_of(r1, 0x20) == Some(0int));
    let pre = word + seq![0x20u8] + text;
    assert(d =~= pre + (seq![0x0au8] + rest));
    assert forall|i: int| 0 <= i < pre.len() implies pre[i] != 0x0a by {
        if i < word.len() {
            assert(pre[i] == word[i]);
        } else if i > word.len() {
            assert(pre[i] == text[i - word.len() - 1]);
        }
    }
    crate::object::metadata::lemma_first_index_of_concat(pre, seq![0x0au8] + rest, 0x0a);
    assert(first_index_of(seq![0x0au8] + rest, 0x0a) == Some(0int));
    assert(d.subrange(word.len() + 1int, word.len() + 1int + text.len()) =~= text);
    assert(d.skip(word.len() + 2int + text.len()) =~= rest);
}

/// The name of a type names it, is ASCII and holds no space or line feed.
proof fn lemma_type_bytes(t: Type)
    ensures
        type_named(type_bytes(t)) == Some(t),
        lacks(type_bytes(t), 0x0a),
        lacks(type_bytes(t), 0x20),
        valid_utf8(type_bytes(t)),
{
    let tn = type_bytes(t);
    match t {
        Type::Blob => {},
        Type::Tree => {
            assert(tn != type_bytes(Type::Blob)) by { assert(tn[1] != type_bytes(Type::Blob)[1]); }
        },
        Type::Commit => {
            assert(tn != type_bytes(Type::Blob)) by { assert(tn[0] != type_bytes(Type::Blob)[0]); }
            assert(tn != type_bytes(Type::Tree)) by { assert(tn[0] != type_bytes(Type::Tree)[0]); }
        },
        Type::Tag => {
            assert(tn != type_bytes(Type::Blob)) by { assert(tn[0] != type_bytes(Type::Blob)[0]); }
            assert(tn != type_bytes(Type::Tree)) by { assert(tn[1] != type_bytes(Type::Tree)[1]); }
            assert(tn != type_bytes(Type::Commit)) by { assert(tn[0] != type_bytes(Type::Commit)[0]); }
        },
    }
    assert(crate::text::all_ascii(tn));
    crate::text::lemma_ascii_utf8(tn);
}

/// The object line of the data of a tag whose object id is hexadecimal
/// text.
#[verifier::rlimit(60)]
#[verifier::spinoff_prover]
proof fn lemma_tag_object_line(g: Tag)
    requires
        id_consistent(g.object),
    ensures
        ({
            let h = utf8(g.object.hash@);
            let d0 = tag_bytes(g);
            &&& first_index_of(d0, 0x20) == Some(6int)
            &&& first_index_of(d0, 0x0a) == Some(7int + h.len())
            &&& d0.subrange(7, 7int + h.len()) == h
            &&& d0.skip(8int + h.len()) == tag_after_object(g)
        }),
{
    let h = utf8(g.object.hash@);
    lemma_hex_digits(h);
    assert(lacks(h, 0x0a)) by {
        assert forall|i: int| 0 <= i < h.len() implies h[i] != 0x0a by {
            assert(crate::text::hex_value(h[i]) is Some);
        }
    }
    let object_word = seq![0x6fu8, 0x62, 0x6a, 0x65, 0x63, 0x74];
    let d1 = tag_after_object(g);
    assert(tag_bytes(g) =~= object_word + seq![0x20u8] + h + seq![0x0au8] + d1);
    lemma_word_line(object_word, h, d1);
}

/// The type line of the data of a tag.
#[verifier::rlimit(60)]
#[verifier::spinoff_prover]
proof fn lemma_tag_type_line(g: Tag)
    ensures
        ({
            let tn = type_bytes(g.t);
            let d1 = tag_after_object(g);
            &&& first_index_of(d1, 0x20) == Some(4int)
            &&& first_index_of(d1, 0x0a) == Some(5int + tn.len())
            &&& d1.subrange(5, 5int + tn.len()) == tn
            &&& d1.skip(6int + tn.len()) == tag_after_type(g)
        }),
{
    let tn = type_bytes(g.t);
    lemma_type_bytes(g.t);
    let type_word = seq![0x74u8, 0x79, 0x70, 0x65];
    let d2 = tag_after_type(g);
    assert(tag_after_object(g) =~= type_word + seq![0x20u8] + tn + seq![0x0au8] + d2);
    lemma_word_line(type_word, tn, d2);
}

/// The tag line, tagger line and message of the data of a tag that reads
/// back.
#[verifier::rlimit(60)]
#[verifier::spinoff_prover]
proof fn lemma_tag_rest(g: Tag)
    requires
        tag_roundtrips(g),
    ensures
        ({
            let tn = type_bytes(g.t);
            let d2 = tag_after_type(g);
            let d3 = sign_bytes(g.tagger) + seq![0x0au8] + utf8(g.message@);
            &&& first_index_of(d2, 0x20) == Some(3int)
            &&& first_index_of(d2, 0x0a) == Some(4int + utf8(g.tag@).len())
            &&& d2.subrange(4, 4int + utf8(g.tag@).len()) == utf8(g.tag@)
            &&& d2.skip(5int + tn.len()) == d3
            &&& find_from(d3, tagger_word(), 0) is Some
            &&& first_index_of(d3, 0x0a) == Some(sign_bytes(g.tagger).len() as int)
            &&& d3.take(sign_bytes(g.tagger).len() as int) == sign_bytes(g.tagger)
            &&& d3.skip(sign_bytes(g.tagger).len() + 1int) == utf8(g.message@)
            &&& first_index_of(utf8(g.message@), 0x0a) == Some(0int)
        }),
{
    let tn = type_bytes(g.t);
    let name = utf8(g.tag@);
    let tg = sign_bytes(g.tagger);
    let m = utf8(g.message@);
    lemma_sign_one_line(g.tagger);
    let d2 = tag_after_type(g);
    let tag_word = seq![0x74u8, 0x61, 0x67];
    let d3 = tg + seq![0x0au8] + m;
    assert(d2 =~= tag_word + seq![0x20u8] + name + seq![0x0au8] + d3);
    lemma_word_line(tag_word, name, d3);
    assert(d2.skip(5int + tn.len()) =~= d3);
    assert(d3.subrange(0, 6) =~= tagger_word());
    assert(find_from(d3, tagger_word(), 0) == Some(0int));
    crate::object::metadata::lemma_first_index_of_concat(tg, seq![0x0au8] + m, 0x0a);
    assert(first_index_of(seq![0x0au8] + m, 0x0a) == Some(0int));
    assert(d3 =~= tg + (seq![0x0au8] + m));
    assert(d3.take(tg.len() as int) =~= tg);
    assert(d3.skip(tg.len() + 1int) =~= m);
}

/// Tag data parses back into the tag it was written from: the data that
/// `encode_metadata` writes is cut by `decode_metadata` into the object id,
/// type name, tag name, tagger line and message it was written from, and
/// those decode. Where the tag name and the type name differ in length the
/// tagger line is sought at another offset, and the message is read from its
/// first line feed on.
#[verifier::rlimit(100)]
#[verifier::spinoff_prover]
pub proof fn lemma_tag_roundtrip(g: Tag)
    requires
        tag_roundtrips(g),
    ensures
        tag_decodable(tag_bytes(g)),
        ({
            let cut = tag_cut(tag_bytes(g)).unwrap();
            &&& cut.object == utf8(g.object.hash@)
            &&& cut.kind_text == type_bytes(g.t)
            &&& cut.tag == utf8(g.tag@)
            &&& cut.tagger == sign_bytes(g.tagger)
            &&& cut.message == utf8(g.message@)
        }),
        type_named(type_bytes(g.t)) == Some(g.t),
        sign_fields(sign_bytes(g.tagger)) == Some(
            (utf8(g.tagger.t@), utf8(g.tagger.name@), utf8(g.tagger.email@), g.tagger.timestamp as nat, utf8(g.tagger.timezone@)),
        ),
{
    lemma_tag_object_line(g);
    lemma_tag_type_line(g);
    lemma_tag_rest(g);
    lemma_type_bytes(g.t);
    lemma_sign_roundtrip(g.tagger);
    lemma_hex_digits(utf8(g.object.hash@));
    assert(utf8(g.message@).skip(0) =~= utf8(g.message@));
    encode_utf8_valid_utf8(g.object.hash@);
    encode_utf8_valid_utf8(g.tag@);
    encode_utf8_valid_utf8(g.message@);
}

} // verus!
