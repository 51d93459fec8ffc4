use std::io::Write;

use mini_git::blob::{compute_file_hash, Blob};
use mini_git::commit::Commit;
use mini_git::error::GitError;
use mini_git::object_finder::{find_object_path, try_find_object_path};
use mini_git::objectid::{
    decimal_digits, hash_object, is_valid_object_id, object_header, object_id_bytes,
};
use mini_git::objectreader::{word_of, ObjectKind, ObjectReader};
use mini_git::stream::{inflate_all, inflate_start};

const HELLO: &str = "ce013625030ba8dba906f756967f9e9ca394464a";

fn deflate(bytes: &[u8]) -> Vec<u8> {
    let mut encoder =
        flate2::write::ZlibEncoder::new(Vec::new(), flate2::Compression::default());
    encoder.write_all(bytes).unwrap();
    encoder.finish().unwrap()
}

fn object(kind: &str, payload: &[u8]) -> Vec<u8> {
    let mut raw = format!("{} {}\0", kind, payload.len()).into_bytes();
    raw.extend_from_slice(payload);
    raw
}

#[test]
fn file_hash_of_known_contents() {
    assert_eq!(compute_file_hash(b""), "e69de29bb2d1d6434b8b29ae775ad8c2e48c5391");
    assert_eq!(compute_file_hash(b"hello\n"), HELLO);
    assert_eq!(compute_file_hash(b"world\n"), "cc628ccd10742baea8241c5924df992b5c019f71");
}

#[test]
fn file_hash_of_large_content_counts_all_digits() {
    let content = vec![b'x'; 12345];
    let mut hasher = <sha1::Sha1 as sha1::Digest>::new();
    sha1::Digest::update(&mut hasher, b"blob 12345\0");
    sha1::Digest::update(&mut hasher, &content);
    let expected = hex::encode(sha1::Digest::finalize(hasher));
    assert_eq!(compute_file_hash(&content), expected);
}

#[test]
fn hash_object_of_empty_tree() {
    let id = hash_object(&word_of(ObjectKind::Tree), Vec::new());
    assert_eq!(id, "4b825dc642cb6eb9a060e54bf8d69288fbee4904");
}

#[test]
fn object_header_has_word_length_and_nul() {
    assert_eq!(object_header(b"blob", 0), b"blob 0\0".to_vec());
    assert_eq!(object_header(b"tree", 1234), b"tree 1234\0".to_vec());
    assert_eq!(word_of(ObjectKind::Commit), b"commit".to_vec());
}

#[test]
fn decimal_digits_of_numbers() {
    assert_eq!(decimal_digits(0), b"0".to_vec());
    assert_eq!(decimal_digits(7), b"7".to_vec());
    assert_eq!(decimal_digits(10), b"10".to_vec());
    assert_eq!(decimal_digits(40960), b"40960".to_vec());
    assert_eq!(decimal_digits(usize::MAX), usize::MAX.to_string().into_bytes());
}

#[test]
fn object_ids_are_forty_hex_digits() {
    assert!(is_valid_object_id(HELLO));
    assert!(is_valid_object_id("CE013625030BA8DBA906F756967F9E9CA394464A"));
    assert!(!is_valid_object_id(""));
    assert!(!is_valid_object_id("ce01"));
    assert!(!is_valid_object_id("ge013625030ba8dba906f756967f9e9ca394464a"));
    assert!(!is_valid_object_id("ce013625030ba8dba906f756967f9e9ca394464"));
    assert!(!is_valid_object_id("ce013625030ba8dba906f756967f9e9ca394464a0"));
    assert!(!is_valid_object_id("é013625030ba8dba906f756967f9e9ca394464a"));
}

#[test]
fn object_id_bytes_decode_the_digits() {
    let bytes = object_id_bytes(HELLO).unwrap();
    assert_eq!(bytes.len(), 20);
    assert_eq!(bytes[0], 0xce);
    assert_eq!(bytes[1], 0x01);
    assert_eq!(bytes[19], 0x4a);
    assert_eq!(object_id_bytes("0A0b"), None);
    assert_eq!(object_id_bytes("xyz"), None);
}

#[test]
fn object_path_splits_after_two_digits() {
    assert_eq!(
        find_object_path(HELLO),
        ".git/objects/ce/013625030ba8dba906f756967f9e9ca394464a"
    );
}

#[test]
fn object_path_of_what_is_no_id() {
    assert_eq!(try_find_object_path("main"), None);
    assert_eq!(try_find_object_path(""), None);
    assert_eq!(
        try_find_object_path(HELLO),
        Some(".git/objects/ce/013625030ba8dba906f756967f9e9ca394464a".to_string())
    );
}

#[test]
fn sniff_tells_the_kinds_apart() {
    assert_eq!(ObjectReader::sniff(b"blob 3\0abc"), Some(ObjectKind::Blob));
    assert_eq!(ObjectReader::sniff(b"tree 0\0"), Some(ObjectKind::Tree));
    assert_eq!(ObjectReader::sniff(b"commit 12\0x"), Some(ObjectKind::Commit));
    assert_eq!(ObjectReader::sniff(b"blob"), None);
    assert_eq!(ObjectReader::sniff(b"blobs 3\0abc"), None);
    assert_eq!(ObjectReader::sniff(b"tag 3\0abc"), None);
    assert_eq!(ObjectReader::sniff(b""), None);
}

#[test]
fn find_object_type_inflates_the_start() {
    let big = vec![b'z'; 100_000];
    assert_eq!(
        ObjectReader::find_object_type(&deflate(&object("blob", &big))),
        Ok(ObjectKind::Blob)
    );
    assert_eq!(
        ObjectReader::find_object_type(&deflate(&object("tree", b""))),
        Ok(ObjectKind::Tree)
    );
    assert_eq!(
        ObjectReader::find_object_type(&deflate(&object("commit", b"tree x\n\nm"))),
        Ok(ObjectKind::Commit)
    );
    assert_eq!(
        ObjectReader::find_object_type(&deflate(b"tag 0\0")),
        Err(GitError::CorruptObject)
    );
    assert_eq!(
        ObjectReader::find_object_type(b"not a zlib stream"),
        Err(GitError::CorruptObject)
    );
}

#[test]
fn find_payload_checks_the_header() {
    assert_eq!(ObjectReader::find_payload(b"blob 3\0abc"), Some(7));
    assert_eq!(ObjectReader::find_payload(b"tree 0\0"), Some(7));
    assert_eq!(ObjectReader::find_payload(b"commit 10\0aaaaaaaaaa"), Some(10));
    assert_eq!(ObjectReader::find_payload(b"blob 4\0abc"), None);
    assert_eq!(ObjectReader::find_payload(b"blob 03\0abc"), None);
    assert_eq!(ObjectReader::find_payload(b"blob 3abc"), None);
    assert_eq!(ObjectReader::find_payload(b"blob  3\0abc"), None);
    assert_eq!(ObjectReader::find_payload(b"blub 3\0abc"), None);
    assert_eq!(ObjectReader::find_payload(b"blob 3\0ab\0"), Some(7));
}

#[test]
fn read_object_reports_each_failure() {
    assert_eq!(ObjectReader::read_object(None), Err(GitError::ObjectNotFound));
    assert_eq!(ObjectReader::read_object(Some(b"garbage")), Err(GitError::CorruptObject));
    assert_eq!(
        ObjectReader::read_object(Some(&deflate(b"blob 9\0abc"))),
        Err(GitError::CorruptObject)
    );
    assert_eq!(
        ObjectReader::read_object(Some(&deflate(b"blob 3\0abc"))),
        Ok(b"blob 3\0abc".to_vec())
    );
    assert_eq!(ObjectReader::check_object(b"tree 0\0".to_vec()), Ok(b"tree 0\0".to_vec()));
    assert_eq!(ObjectReader::check_object(b"tree 1\0".to_vec()), Err(GitError::CorruptObject));
}

#[test]
fn blob_from_hash_strips_the_header() {
    let stored = deflate(&object("blob", b"hello\n"));
    let blob = Blob::from_hash(HELLO, Some(&stored)).unwrap();
    assert_eq!(blob.hash, HELLO);
    assert_eq!(blob.content, b"hello\n".to_vec());
    assert_eq!(compute_file_hash(&blob.content), blob.hash);
}

#[test]
fn blob_from_hash_reports_each_failure() {
    assert_eq!(Blob::from_hash(HELLO, None).unwrap_err(), GitError::ObjectNotFound);
    assert_eq!(Blob::from_hash(HELLO, Some(b"\x01\x02")).unwrap_err(), GitError::CorruptObject);
    let tree = deflate(&object("tree", b""));
    assert_eq!(Blob::from_hash(HELLO, Some(&tree)).unwrap_err(), GitError::CorruptObject);
    assert_eq!(Blob::from_bytes(HELLO, b"blob 2\0abc").unwrap_err(), GitError::CorruptObject);
}

#[test]
fn blob_with_nul_in_content() {
    let blob = Blob::from_bytes("x", b"blob 5\0a\0b\0c").unwrap();
    assert_eq!(blob.content, b"a\0b\0c".to_vec());
}

#[test]
fn blob_from_file_hashes_the_content() {
    let blob = Blob::from_file(b"hello\n".to_vec());
    assert_eq!(blob.hash, HELLO);
    assert_eq!(blob.content, b"hello\n".to_vec());
    assert!(blob.is_text());
    assert!(!Blob::new(String::new(), vec![0xff, 0xfe]).is_text());
}

#[test]
fn commit_from_hash_reads_the_object() {
    let payload = format!("tree {}\nauthor A B 1700000000 +0000\n\nhi\n", HELLO);
    let stored = deflate(&object("commit", payload.as_bytes()));
    let c = Commit::from_hash("abc", Some(&stored)).unwrap();
    assert_eq!(c.hash, "abc");
    assert_eq!(c.tree, HELLO);
    assert_eq!(c.author, "A B");
    assert_eq!(c.timestamp, "1700000000");
    assert_eq!(c.message, "hi");
}

#[test]
fn commit_from_hash_reports_each_failure() {
    assert_eq!(Commit::from_hash("abc", None).unwrap_err(), GitError::ObjectNotFound);
    assert_eq!(Commit::from_hash("abc", Some(b"zz")).unwrap_err(), GitError::CorruptObject);
    let blob = deflate(&object("blob", b"tree x\n\nm"));
    assert_eq!(Commit::from_hash("abc", Some(&blob)).unwrap_err(), GitError::CorruptObject);
    let no_tree = deflate(&object("commit", b"author A 1 +0000\n\nm"));
    assert_eq!(Commit::from_hash("abc", Some(&no_tree)).unwrap_err(), GitError::MalformedCommit);
}

#[test]
fn inflate_all_gives_the_whole_stream() {
    let big: Vec<u8> = (0..50_000u32).map(|i| (i % 251) as u8).collect();
    assert_eq!(inflate_all(&deflate(&big)), Some(big));
    assert_eq!(inflate_all(&deflate(b"")), Some(Vec::new()));
    assert_eq!(inflate_all(&deflate(b"abc")), Some(b"abc".to_vec()));
}

#[test]
fn inflate_all_of_broken_stream_is_nothing() {
    let big: Vec<u8> = (0..50_000u32).map(|i| (i * 7 % 253) as u8).collect();
    let stored = deflate(&big);
    assert_eq!(inflate_all(&stored[..stored.len() / 2]), None);
    assert_eq!(inflate_all(&stored[..stored.len() - 1]), None);
    assert_eq!(inflate_all(b""), None);
    assert_eq!(inflate_all(b"plain text"), None);
}

#[test]
fn inflate_start_stops_early() {
    let big: Vec<u8> = (0..50_000u32).map(|i| (i * 7 % 253) as u8).collect();
    let stored = deflate(&big);
    let start = inflate_start(&stored, 7).unwrap();
    assert!(start.len() >= 7);
    assert_eq!(start[..], big[..start.len()]);
    // What is broken further on is not seen.
    let start = inflate_start(&stored[..stored.len() / 2], 7).unwrap();
    assert!(start.len() >= 7);
    assert_eq!(start[..], big[..start.len()]);
    assert_eq!(inflate_start(&deflate(b"abc"), 7), Some(b"abc".to_vec()));
    assert_eq!(inflate_start(&deflate(b"abc"), 0), Some(Vec::new()));
    assert_eq!(inflate_start(b"junk", 7), None);
}

#[test]
fn find_object_type_reads_only_the_start() {
    let big = vec![b'q'; 200_000];
    let stored = deflate(&object("blob", &big));
    let cut = &stored[..stored.len() - 10];
    assert_eq!(ObjectReader::find_object_type(cut), Ok(ObjectKind::Blob));
    assert_eq!(ObjectReader::read_object(Some(cut)), Err(GitError::CorruptObject));
    assert_eq!(ObjectReader::find_object_type(&deflate(b"blob")), Err(GitError::CorruptObject));
    assert_eq!(ObjectReader::find_object_type(&deflate(b"")), Err(GitError::CorruptObject));
}
