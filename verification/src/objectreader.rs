//! Loose objects as they are stored: deflated, with a header that tells
//! kind and length.

use vstd::prelude::*;
use crate::error::GitError;
use crate::objectid::decimal;
use crate::stream::{inflate_all, inflate_start, zlib_bytes, zlib_inflate, zlib_whole};
use crate::text::{find_byte, first_index, has_bytes_at, occurs_at};

verus! {

/// The kind of a stored object.
#[derive(Clone, Copy, Debug, PartialEq, Eq, Structural)]
pub enum ObjectKind {
    Blob,
    Tree,
    Commit,
}

/// Reads loose objects.
#[derive(Debug)]
pub struct ObjectReader;

/// The word that names a kind in an object's header.
pub open spec fn kind_word(kind: ObjectKind) -> Seq<u8> {
    match kind {
        ObjectKind::Blob => seq![98u8, 108, 111, 98],
        ObjectKind::Tree => seq![116u8, 114, 101, 101],
        ObjectKind::Commit => seq![99u8, 111, 109, 109, 105, 116],
    }
}

/// The kind whose word and a space stand at the start of `bytes`.
pub open spec fn sniffed_kind(bytes: Seq<u8>) -> Option<ObjectKind> {
    if occurs_at(bytes, 0, kind_word(ObjectKind::Blob) + seq![32u8]) {
        Some(ObjectKind::Blob)
    } else if occurs_at(bytes, 0, kind_word(ObjectKind::Tree) + seq![32u8]) {
        Some(ObjectKind::Tree)
    } else if occurs_at(bytes, 0, kind_word(ObjectKind::Commit) + seq![32u8]) {
        Some(ObjectKind::Commit)
    } else {
        None
    }
}

/// Where the payload of the object `bytes` starts, if its header is well
/// formed: the word of a kind, a space, the length of all that follows the
/// header in decimal, and a NUL.
pub open spec fn payload_start(bytes: Seq<u8>) -> Option<int> {
    let nul = first_index(bytes, 0u8);
    match sniffed_kind(bytes) {
        Some(kind) => if nul < bytes.len() && bytes.take(nul) == kind_word(kind) + seq![32u8]
            + decimal((bytes.len() - nul - 1) as nat) {
            Some(nul + 1)
        } else {
            None
        },
        None => None,
    }
}

/// What reading a stored object gives: with no file, the object is not
/// found; a stream that does not inflate, or that inflates to bytes without
/// a well-formed header, is corrupt.
pub open spec fn read_result(inflated: Option<Option<Seq<u8>>>) -> Result<Seq<u8>, GitError> {
    match inflated {
        None => Err(GitError::ObjectNotFound),
        Some(None) => Err(GitError::CorruptObject),
        Some(Some(bytes)) => if payload_start(bytes) is Some {
            Ok(bytes)
        } else {
            Err(GitError::CorruptObject)
        },
    }
}

/// What sniffing a stored object gives: the kind that the start of its
/// inflated bytes tells. A stream that breaks before the seven bytes that
/// tell the kinds apart is corrupt, and so is one that starts with no
/// kind's word.
pub open spec fn sniff_result(stored: Seq<u8>) -> Result<ObjectKind, GitError> {
    if zlib_bytes(stored).len() < 7 && !zlib_whole(stored) {
        Err(GitError::CorruptObject)
    } else {
        match sniffed_kind(zlib_bytes(stored)) {
            Some(kind) => Ok(kind),
            None => Err(GitError::CorruptObject),
        }
    }
}

/// The start of some bytes tells their kind, if it has seven bytes or is
/// all of them.
pub proof fn lemma_sniff_start(bytes: Seq<u8>, n: int)
    requires
        0 <= n <= bytes.len(),
        n >= 7 || n == bytes.len(),
    ensures
        sniffed_kind(bytes.take(n)) == sniffed_kind(bytes),
{
    let start = bytes.take(n);
    let blob = kind_word(ObjectKind::Blob) + seq![32u8];
    let tree = kind_word(ObjectKind::Tree) + seq![32u8];
    let commit = kind_word(ObjectKind::Commit) + seq![32u8];
    if n == bytes.len() {
        assert(start =~= bytes);
    } else {
        assert(start.subrange(0, 5) =~= bytes.subrange(0, 5));
        assert(start.subrange(0, 7) =~= bytes.subrange(0, 7));
        assert(blob.len() == 5 && tree.len() == 5 && commit.len() == 7);
    }
}

/// The word that names a kind in an object's header.
pub fn word_of(kind: ObjectKind) -> (word: Vec<u8>)
    ensures
        word@ == kind_word(kind),
{
    let word: Vec<u8> = match kind {
        ObjectKind::Blob => vec![98u8, 108, 111, 98],
        ObjectKind::Tree => vec![116u8, 114, 101, 101],
        ObjectKind::Commit => vec![99u8, 111, 109, 109, 105, 116],
    };
    assert(word@ =~= kind_word(kind));
    word
}

fn starts_with_kind(bytes: &[u8], kind: ObjectKind) -> (r: bool)
    ensures
        r == occurs_at(bytes@, 0, kind_word(kind) + seq![32u8]),
{
    let mut word = word_of(kind);
    word.push(32);
    assert(word@ =~= kind_word(kind) + seq![32u8]);
    has_bytes_at(bytes, 0, word.as_slice())
}

impl ObjectReader {
    /// Tells the kind of an object from the first bytes of its header.
    pub fn sniff(bytes: &[u8]) -> (r: Option<ObjectKind>)
        ensures
            r == sniffed_kind(bytes@),
    {
        if starts_with_kind(bytes, ObjectKind::Blob) {
            Some(ObjectKind::Blob)
        } else if starts_with_kind(bytes, ObjectKind::Tree) {
            Some(ObjectKind::Tree)
        } else if starts_with_kind(bytes, ObjectKind::Commit) {
            Some(ObjectKind::Commit)
        } else {
            None
        }
    }

    /// Tells the kind of a stored object, given the bytes of its file. It
    /// inflates the stream only as far as the seven bytes that tell the
    /// kinds apart.
    pub fn find_object_type(stored: &[u8]) -> (r: Result<ObjectKind, GitError>)
        ensures
            r == sniff_result(stored@),
    {
        match inflate_start(stored, 7) {
            Some(bytes) => {
                proof {
                    lemma_sniff_start(zlib_bytes(stored@), bytes@.len() as int);
                }
                match ObjectReader::sniff(bytes.as_slice()) {
                    Some(kind) => Ok(kind),
                    None => Err(GitError::CorruptObject),
                }
            },
            None => Err(GitError::CorruptObject),
        }
    }

    /// Finds where the payload starts in the bytes of an object, if the
    /// header is well formed.
    pub fn find_payload(bytes: &[u8]) -> (r: Option<usize>)
        ensures
            match r {
                Some(start) => payload_start(bytes@) == Some(start as int) && start <= bytes@.len(),
                None => payload_start(bytes@) is None,
            },
    {
        let kind = match ObjectReader::sniff(bytes) {
            Some(kind) => kind,
            None => {
                return None;
            },
        };
        assert(bytes@.skip(0) =~= bytes@);
        let nul = find_byte(bytes, 0, 0);
        if nul >= bytes.len() {
            return None;
        }
        let mut expected = crate::objectid::object_header(
            word_of(kind).as_slice(),
            bytes.len() - nul - 1,
        );
        expected.pop();
        assert(expected@ =~= kind_word(kind) + seq![32u8] + decimal(
            (bytes@.len() - nul - 1) as nat,
        ));
        assert(bytes@.take(nul as int) =~= bytes@.subrange(0, nul as int));
        if expected.len() == nul && has_bytes_at(bytes, 0, expected.as_slice()) {
            Some(nul + 1)
        } else {
            None
        }
    }

    /// Reads a stored object from the bytes of its file, or from the lack
    /// of one: the inflated bytes, header and all.
    pub fn read_object(stored: Option<&[u8]>) -> (r: Result<Vec<u8>, GitError>)
        ensures
            match r {
                Ok(bytes) => read_result(
                    match stored {
                        Some(s) => Some(zlib_inflate(s@)),
                        None => None,
                    },
                ) == Ok::<Seq<u8>, GitError>(bytes@),
                Err(e) => read_result(
                    match stored {
                        Some(s) => Some(zlib_inflate(s@)),
                        None => None,
                    },
                ) == Err::<Seq<u8>, GitError>(e),
            },
    {
        match stored {
            None => Err(GitError::ObjectNotFound),
            Some(s) => match inflate_all(s) {
                None => Err(GitError::CorruptObject),
                Some(bytes) => ObjectReader::check_object(bytes),
            },
        }
    }

    /// Accepts the inflated bytes of an object if their header is well
    /// formed.
    pub fn check_object(bytes: Vec<u8>) -> (r: Result<Vec<u8>, GitError>)
        ensures
            match r {
                Ok(checked) => checked == bytes && payload_start(bytes@) is Some,
                Err(e) => e == GitError::CorruptObject && payload_start(bytes@) is None,
            },
    {
        match ObjectReader::find_payload(bytes.as_slice()) {
            Some(_) => Ok(bytes),
            None => Err(GitError::CorruptObject),
        }
    }
}

} // verus!
