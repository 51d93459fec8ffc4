use std::io::Write;

use mini_git::error::GitError;
use mini_git::order::{bytes_le, sort_by_name};
use mini_git::tree::{is_excluded_name, DirItem, Tree, TreeEntry};

const HELLO: &str = "ce013625030ba8dba906f756967f9e9ca394464a";
const WORLD: &str = "cc628ccd10742baea8241c5924df992b5c019f71";
const SUB: &str = "0f0c36b22b19d06e96ea685aa6aff180420ca10e";

fn deflate(bytes: &[u8]) -> Vec<u8> {
    let mut encoder =
        flate2::write::ZlibEncoder::new(Vec::new(), flate2::Compression::default());
    encoder.write_all(bytes).unwrap();
    encoder.finish().unwrap()
}

fn object(kind: &str, payload: &[u8]) -> Vec<u8> {
    let mut raw = format!("{} {}\0", kind, payload.len()).into_bytes();
    raw.extend_from_slice(payload);
    raw
}

fn entry(mode: &str, name: &str, hash: &str) -> TreeEntry {
    TreeEntry::new(mode.to_string(), name.to_string(), hash.to_string())
}

fn item(name: &str, is_file: bool, hash: &str) -> DirItem {
    DirItem { name: name.to_string(), is_file, hash: hash.to_string() }
}

fn fields(entries: &[TreeEntry]) -> Vec<(&str, &str, &str)> {
    entries.iter().map(|e| (e.mode.as_str(), e.name.as_str(), e.hash.as_str())).collect()
}

fn payload_of(entries: &[(&str, &str, &str)]) -> Vec<u8> {
    let mut out = Vec::new();
    for (mode, name, hash) in entries {
        out.extend_from_slice(mode.as_bytes());
        out.push(b' ');
        out.extend_from_slice(name.as_bytes());
        out.push(0);
        out.extend_from_slice(&hex::decode(hash).unwrap());
    }
    out
}

#[test]
fn tree_from_bytes_reads_every_entry() {
    let payload = payload_of(&[("100644", "a.txt", HELLO), ("40000", "dir", SUB)]);
    let tree = Tree::from_bytes("t", &object("tree", &payload)).unwrap();
    assert_eq!(tree.hash, "t");
    assert_eq!(
        fields(&tree.entries),
        vec![("100644", "a.txt", HELLO), ("40000", "dir", SUB)]
    );
}

#[test]
fn tree_from_bytes_of_empty_tree() {
    let tree = Tree::from_bytes("t", b"tree 0\0").unwrap();
    assert!(tree.entries.is_empty());
}

#[test]
fn tree_from_bytes_rejects_cut_entries() {
    let payload = payload_of(&[("100644", "a.txt", HELLO)]);
    for cut in 1..payload.len() {
        let raw = object("tree", &payload[..cut]);
        assert_eq!(Tree::from_bytes("t", &raw).unwrap_err(), GitError::CorruptObject);
    }
    assert_eq!(Tree::from_bytes("t", b"blob 0\0").unwrap_err(), GitError::CorruptObject);
    assert_eq!(Tree::from_bytes("t", b"tree 5\0").unwrap_err(), GitError::CorruptObject);
}

#[test]
fn tree_read_entry_tells_where_the_next_starts() {
    let payload = payload_of(&[("100644", "a", HELLO), ("40000", "bc", SUB)]);
    let (first, next) = Tree::read_entry(&payload, 0).unwrap();
    assert_eq!((first.mode.as_str(), first.name.as_str(), first.hash.as_str()), ("100644", "a", HELLO));
    assert_eq!(next, 6 + 1 + 1 + 1 + 20);
    let (second, end) = Tree::read_entry(&payload, next).unwrap();
    assert_eq!((second.mode.as_str(), second.name.as_str(), second.hash.as_str()), ("40000", "bc", SUB));
    assert_eq!(end, payload.len());
    assert!(Tree::read_entry(&payload[..payload.len() - 1], next).is_none());
    assert!(Tree::read_entry(b"100644", 0).is_none());
    assert!(Tree::read_entry(b"100644 name", 0).is_none());
}

#[test]
fn tree_from_hash_inflates_and_reads() {
    let payload = payload_of(&[("100644", "hello.txt", HELLO)]);
    let stored = deflate(&object("tree", &payload));
    let tree = Tree::from_hash("aaa9", Some(&stored)).unwrap();
    assert_eq!(fields(&tree.entries), vec![("100644", "hello.txt", HELLO)]);
    assert_eq!(Tree::from_hash("t", None).unwrap_err(), GitError::ObjectNotFound);
    assert_eq!(Tree::from_hash("t", Some(b"junk")).unwrap_err(), GitError::CorruptObject);
}

#[test]
fn write_dir_entry_inverts_read_entry() {
    let e = entry("100644", "hello.txt", HELLO);
    let bytes = Tree::write_dir_entry(&e);
    assert_eq!(bytes, payload_of(&[("100644", "hello.txt", HELLO)]));
    let (back, next) = Tree::read_entry(&bytes, 0).unwrap();
    assert_eq!(next, bytes.len());
    assert_eq!(fields(&[back]), fields(&[e]));
}

#[test]
fn serialize_sorts_by_name() {
    let tree = Tree::new(
        "t".to_string(),
        vec![entry("100644", "b", HELLO), entry("100644", "a", WORLD)],
    );
    let payload = tree.serialize();
    assert_eq!(payload, payload_of(&[("100644", "a", WORLD), ("100644", "b", HELLO)]));
    assert_eq!(fields(&tree.entries)[0].1, "b");
    let back = Tree::from_bytes("t", &object("tree", &payload)).unwrap();
    assert_eq!(fields(&back.entries), vec![("100644", "a", WORLD), ("100644", "b", HELLO)]);
}

#[test]
fn hash_entries_of_known_trees() {
    assert_eq!(Tree::hash_entries(Vec::new()), "4b825dc642cb6eb9a060e54bf8d69288fbee4904");
    assert_eq!(
        Tree::hash_entries(vec![entry("100644", "hello.txt", HELLO)]),
        "aaa96ced2d9a1c8e72c56b253a0e2fe78393feb7"
    );
    assert_eq!(
        Tree::hash_entries(vec![entry("100644", "b", HELLO), entry("100644", "a", WORLD)]),
        "f05849f91f5fb7d5892dfd5f12aec10ee3d030f6"
    );
    assert_eq!(
        Tree::hash_entries(vec![entry("100644", "a", WORLD), entry("100644", "b", HELLO)]),
        "f05849f91f5fb7d5892dfd5f12aec10ee3d030f6"
    );
}

#[test]
fn hash_folder_of_known_directories() {
    assert_eq!(Tree::hash_folder(&Vec::new()), "4b825dc642cb6eb9a060e54bf8d69288fbee4904");
    assert_eq!(
        Tree::hash_folder(&vec![item("w.txt", true, WORLD)]),
        SUB
    );
    let items = vec![item("dir", false, SUB), item("a.txt", true, HELLO)];
    assert_eq!(Tree::hash_folder(&items), "4a299ec3ed92b1f606809130b11c81dcabd5e6a7");
}

#[test]
fn hash_folder_passes_over_git_and_target() {
    let items = vec![
        item(".git", false, ""),
        item("hello.txt", true, HELLO),
        item("target", false, "not an id"),
    ];
    assert_eq!(Tree::hash_folder(&items), "aaa96ced2d9a1c8e72c56b253a0e2fe78393feb7");
}

#[test]
fn hash_folder_round_trip_through_stored_tree() {
    // A directory, the tree it is stored as, and the directory that a
    // checkout of that tree gives have one id.
    let items = vec![item("dir", false, SUB), item("a.txt", true, HELLO)];
    let id = Tree::hash_folder(&items);
    let entries: Vec<TreeEntry> = items.iter().map(Tree::read_dir_entry).collect();
    let payload = Tree::write_entries(entries);
    let tree = Tree::from_bytes(&id, &object("tree", &payload)).unwrap();
    let checked_out: Vec<DirItem> = tree
        .entries
        .iter()
        .map(|e| item(&e.name, e.mode == "100644", &e.hash))
        .collect();
    assert_eq!(Tree::hash_folder(&checked_out), id);
}

#[test]
fn read_dir_entry_sets_the_mode() {
    let file = Tree::read_dir_entry(&item("f", true, HELLO));
    assert_eq!(fields(&[file]), vec![("100644", "f", HELLO)]);
    let dir = Tree::read_dir_entry(&item("d", false, SUB));
    assert_eq!(fields(&[dir]), vec![("40000", "d", SUB)]);
}

#[test]
fn read_dir_to_set_drops_repeats_and_excluded_names() {
    let names: Vec<String> =
        ["b", ".git", "a", "target", "b", ".gitignore", "targets"].iter().map(|s| s.to_string()).collect();
    assert_eq!(Tree::read_dir_to_set(&names), vec!["b", "a", ".gitignore", "targets"]);
    assert!(is_excluded_name(".git"));
    assert!(is_excluded_name("target"));
    assert!(!is_excluded_name(".gitignore"));
    assert!(!is_excluded_name(""));
}

#[test]
fn bytes_le_orders_like_strings() {
    let words = ["", "a", "ab", "b", "B", "a/b", "a.b", "é", "z"];
    for x in words {
        for y in words {
            assert_eq!(bytes_le(x.as_bytes(), y.as_bytes()), x <= y, "{:?} {:?}", x, y);
        }
    }
}

#[test]
fn sort_by_name_is_stable() {
    let sorted = sort_by_name(vec![
        entry("1", "b", "x"),
        entry("2", "a", "x"),
        entry("3", "b", "y"),
        entry("4", "a", "y"),
        entry("5", "", "z"),
    ]);
    assert_eq!(
        fields(&sorted),
        vec![("5", "", "z"), ("2", "a", "x"), ("4", "a", "y"), ("1", "b", "x"), ("3", "b", "y")]
    );
}

#[test]
fn tree_entry_copy_keeps_the_fields() {
    let e = entry("100644", "n", HELLO);
    assert_eq!(fields(&[e.copy()]), fields(&[e]));
}

#[test]
fn well_formed_ids_are_forty_hex_digits_each() {
    assert!(Tree::has_well_formed_ids(&Vec::new()));
    assert!(Tree::has_well_formed_ids(&vec![entry("100644", "a", HELLO), entry("40000", "d", SUB)]));
    assert!(!Tree::has_well_formed_ids(&vec![entry("100644", "a", HELLO), entry("40000", "d", "abc")]));
}

#[test]
fn try_hash_folder_wants_ids() {
    let good = vec![item(".git", false, "junk"), item("a.txt", true, HELLO)];
    assert_eq!(Tree::try_hash_folder(&good), Some(Tree::hash_folder(&good)));
    let bad = vec![item("a.txt", true, HELLO), item("b.txt", true, "junk")];
    assert_eq!(Tree::try_hash_folder(&bad), None);
    assert_eq!(
        Tree::try_hash_folder(&Vec::new()),
        Some("4b825dc642cb6eb9a060e54bf8d69288fbee4904".to_string())
    );
}
