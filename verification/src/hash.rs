//! Object ids: SHA-1 digests.

use sha1::{Digest, Sha1};
use vstd::prelude::*;
use vstd::utf8::*;

use crate::errors::GitError;
use crate::text::{
    ascii_chars, ascii_string, copy_range, hex_decode, hex_decode_bytes, hex_encode, hex_encode_bytes,
    hex_string, lemma_ascii_utf8, lemma_hex_encode,
};

verus! {

/// Number of bytes of a SHA-1 digest.
pub const HASH_BYTES: usize = 20;

/// The SHA-1 digest of `data`.
pub uninterp spec fn sha1_digest(data: Seq<u8>) -> Seq<u8>;

/// Computes the SHA-1 digest of `data`.
///
/// Trusted: calls `Sha1::update` and `Sha1::finalize` of the `sha1` crate,
/// whose result is the 20-byte digest of the bytes given; the contract names
/// that digest.
#[verifier::external_body]
pub(crate) fn sha1(data: &[u8]) -> (res: [u8; 20])
    ensures
        res@ == sha1_digest(data@),
{
    let mut h = Sha1::new();
    h.update(data);
    h.finalize().into()
}

/// Git object hash type; only SHA-1 for now.
#[derive(Clone, Copy, Debug, PartialEq, Eq, Hash, PartialOrd, Ord)]
pub enum HashType {
    Sha1,
}

/// An object id: the 20 bytes of a SHA-1 digest.
#[derive(Clone, Copy, Debug, PartialEq, Eq, Hash, PartialOrd, Ord)]
pub struct Hash(pub [u8; 20]);

impl Default for Hash {
    fn default() -> (res: Hash)
        ensures
            res.0@ == Seq::new(20, |i: int| 0u8),
    {
        let r = Hash([0u8; 20]);
        assert(r.0@ =~= Seq::new(20, |i: int| 0u8));
        r
    }
}

/// The array holding the 20 bytes of `b`.
pub fn array20(b: &[u8]) -> (res: [u8; 20])
    requires
        b@.len() == 20,
    ensures
        res@ == b@,
{
    let r = [
        b[0], b[1], b[2], b[3], b[4], b[5], b[6], b[7], b[8], b[9], b[10], b[11], b[12], b[13],
        b[14], b[15], b[16], b[17], b[18], b[19],
    ];
    assert(r@ =~= b@);
    r
}

impl Hash {
    /// The digest of `data`.
    pub fn new(data: &Vec<u8>) -> (res: Hash)
        ensures
            res.0@ == sha1_digest(data@),
    {
        Hash(sha1(data.as_slice()))
    }

    /// Decodes 40 hexadecimal digits, in either case, into a hash; `None` for
    /// any other text.
    pub fn from_bytes(hex_hash: &[u8]) -> (res: Option<Hash>)
        ensures
            res is Some <==> (hex_decode(hex_hash@) matches Some(b) && b.len() == 20),
            res matches Some(h) ==> hex_decode(hex_hash@) == Some(h.0@),
    {
        match hex_decode_bytes(hex_hash) {
            Some(bytes) => {
                if bytes.len() == HASH_BYTES {
                    Some(Hash(array20(bytes.as_slice())))
                } else {
                    None
                }
            },
            None => None,
        }
    }

    /// The hash whose digest bytes are `hex_hash`, which holds exactly 20 bytes.
    pub fn from_row(hex_hash: &[u8]) -> (res: Hash)
        requires
            hex_hash@.len() == 20,
        ensures
            res.0@ == hex_hash@,
    {
        Hash(array20(hex_hash))
    }

    /// The first byte of the digest.
    pub fn get_first(&self) -> (res: u8)
        ensures
            res == self.0@[0],
    {
        self.0[0]
    }

    /// The lowercase hexadecimal text of the digest.
    pub fn to_plain_str(&self) -> (res: String)
        ensures
            res@ == ascii_chars(hex_encode(self.0@)),
    {
        hex_string(self.0.as_slice())
    }

    /// The first two hexadecimal digits: the folder of a loose object.
    pub fn to_folder(&self) -> (res: String)
        ensures
            res@ == ascii_chars(hex_encode(self.0@).subrange(0, 2)),
    {
        let hex = hex_encode_bytes(self.0.as_slice());
        proof {
            lemma_hex_encode(self.0@);
        }
        let part = copy_range(hex.as_slice(), 0, 2);
        ascii_string(part)
    }

    /// The last 38 hexadecimal digits: the file name of a loose object.
    pub fn to_filename(&self) -> (res: String)
        ensures
            res@ == ascii_chars(hex_encode(self.0@).subrange(2, 40)),
    {
        let hex = hex_encode_bytes(self.0.as_slice());
        proof {
            lemma_hex_encode(self.0@);
        }
        let part = copy_range(hex.as_slice(), 2, 40);
        ascii_string(part)
    }

    /// Parses the hexadecimal text of a hash.
    pub fn from_str(hex_hash: &str) -> (res: Result<Hash, GitError>)
        ensures
            match res {
                Ok(h) => hex_decode(encode_utf8(hex_hash@)) == Some(h.0@),
                Err(e) => (e matches GitError::InvalidHashValue(s) && s@ == hex_hash@) && !(
                hex_decode(encode_utf8(hex_hash@)) matches Some(b) && b.len() == 20),
            },
    {
        match Hash::from_bytes(hex_hash.as_bytes()) {
            Some(h) => Ok(h),
            None => Err(GitError::InvalidHashValue(hex_hash.to_owned())),
        }
    }
}

/// The hexadecimal text of a hash parses back to the same hash.
pub proof fn lemma_hash_text_roundtrip(h: Hash)
    ensures
        hex_decode(encode_utf8(ascii_chars(hex_encode(h.0@)))) == Some(h.0@),
{
    lemma_hex_encode(h.0@);
    lemma_ascii_utf8(hex_encode(h.0@));
}

} // verus!
