//! Blobs: stored file contents.

use vstd::prelude::*;
use vstd::utf8::valid_utf8;
use crate::error::GitError;
use crate::objectid::{hash_object, is_object_id, object_id};
use crate::objectreader::{
    kind_word, payload_start, sniffed_kind, word_of, ObjectKind, ObjectReader,
};
use crate::stream::{inflate_all, zlib_inflate};
use crate::text::{copy_range, utf8_str};

verus! {

/// The content of one stored file, with the id it is stored under.
#[derive(Debug)]
pub struct Blob {
    /// The object id, as 40 hexadecimal digits.
    pub hash: String,
    /// The file's bytes, without the object header.
    pub content: Vec<u8>,
}

/// A blob as plain values.
pub struct BlobView {
    pub hash: Seq<char>,
    pub content: Seq<u8>,
}

impl View for Blob {
    type V = BlobView;

    open spec fn view(&self) -> BlobView {
        BlobView { hash: self.hash@, content: self.content@ }
    }
}

/// The id of a blob with this content.
pub open spec fn blob_id(content: Seq<u8>) -> Seq<char> {
    object_id(kind_word(ObjectKind::Blob), content)
}

/// What reading a blob under `hash` from the bytes of its file gives: with
/// no file, the object is not found; a stream that does not inflate, or
/// that inflates to anything but a blob's header and content, is corrupt.
pub open spec fn read_blob(hash: Seq<char>, inflated: Option<Option<Seq<u8>>>) -> Result<
    BlobView,
    GitError,
> {
    match inflated {
        None => Err(GitError::ObjectNotFound),
        Some(None) => Err(GitError::CorruptObject),
        Some(Some(raw)) => if sniffed_kind(raw) == Some(ObjectKind::Blob) && payload_start(raw)
            is Some {
            Ok(BlobView { hash, content: raw.skip(payload_start(raw)->0) })
        } else {
            Err(GitError::CorruptObject)
        },
    }
}

/// The result with the blob as plain values.
pub open spec fn blob_result_view(r: Result<Blob, GitError>) -> Result<BlobView, GitError> {
    match r {
        Ok(blob) => Ok(blob@),
        Err(e) => Err(e),
    }
}

impl Blob {
    /// A blob with the given id and content.
    pub fn new(hash: String, content: Vec<u8>) -> (blob: Self)
        ensures
            blob.hash == hash,
            blob.content == content,
    {
        Self { hash, content }
    }

    /// Reads a blob, stored under `hash`, from the inflated bytes of its
    /// object.
    pub fn from_bytes(hash: &str, raw: &[u8]) -> (r: Result<Self, GitError>)
        ensures
            blob_result_view(r) == read_blob(hash@, Some(Some(raw@))),
    {
        let start = match ObjectReader::find_payload(raw) {
            Some(start) => start,
            None => {
                return Err(GitError::CorruptObject);
            },
        };
        match ObjectReader::sniff(raw) {
            Some(ObjectKind::Blob) => {},
            _ => {
                return Err(GitError::CorruptObject);
            },
        }
        let content = copy_range(raw, start, raw.len());
        assert(raw@.skip(start as int) =~= raw@.subrange(start as int, raw@.len() as int));
        Ok(Blob { hash: hash.to_owned(), content })
    }

    /// Reads a blob, stored under `hash`, from the bytes of its file, or
    /// from the lack of one.
    pub fn from_hash(hash: &str, stored: Option<&[u8]>) -> (r: Result<Self, GitError>)
        ensures
            blob_result_view(r) == read_blob(
                hash@,
                match stored {
                    Some(s) => Some(zlib_inflate(s@)),
                    None => None,
                },
            ),
    {
        match stored {
            None => Err(GitError::ObjectNotFound),
            Some(s) => match inflate_all(s) {
                None => Err(GitError::CorruptObject),
                Some(raw) => Blob::from_bytes(hash, raw.as_slice()),
            },
        }
    }

    /// The blob that a file of the working tree with this content would be
    /// stored as.
    pub fn from_file(content: Vec<u8>) -> (blob: Self)
        ensures
            blob.content == content,
            blob.hash@ == blob_id(content@),
    {
        let hash = compute_file_hash(content.as_slice());
        Self { hash, content }
    }

    /// Whether the content is text, that is, valid UTF-8.
    pub fn is_text(&self) -> (r: bool)
        ensures
            r == valid_utf8(self.content@),
    {
        utf8_str(self.content.as_slice()).is_some()
    }
}

/// The id that a file with this content is stored under.
pub fn compute_file_hash(content: &[u8]) -> (id: String)
    ensures
        id@ == blob_id(content@),
        is_object_id(id@),
{
    let payload = copy_range(content, 0, content.len());
    assert(payload@ =~= content@);
    let word = word_of(ObjectKind::Blob);
    hash_object(word.as_slice(), payload)
}

} // verus!
