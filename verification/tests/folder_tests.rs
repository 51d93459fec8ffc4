use std::collections::BTreeMap;

use mini_git::blob::compute_file_hash;
use mini_git::folder::{FolderAsk, FolderEvent, FolderWait, FolderWalk};
use mini_git::tree::{DirItem, Tree};
use mini_git::untracked::Listed;

/// A file or a directory that is kept in memory.
#[derive(Clone, Debug, PartialEq)]
enum Entry {
    File(Vec<u8>),
    Dir(BTreeMap<String, Entry>),
}

fn file(content: &str) -> Entry {
    Entry::File(content.as_bytes().to_vec())
}

fn dir(items: Vec<(&str, Entry)>) -> Entry {
    Entry::Dir(items.into_iter().map(|(name, entry)| (name.to_string(), entry)).collect())
}

fn find<'a>(entry: &'a Entry, path: &str) -> &'a Entry {
    let mut at = entry;
    for part in path.split('/').filter(|part| !part.is_empty() && *part != ".") {
        at = match at {
            Entry::Dir(items) => &items[part],
            Entry::File(_) => panic!("{} leads through a file", path),
        };
    }
    at
}

/// Runs a walk to its end; gives the id and what was asked for.
fn run(root: &Entry, start: &str) -> (String, Vec<String>) {
    let mut asked = Vec::new();
    let (mut walk, mut ask) = FolderWalk::start(start);
    loop {
        let event = match ask {
            FolderAsk::List(path) => {
                asked.push(format!("list {}", path));
                match find(root, &path) {
                    Entry::Dir(items) => FolderEvent::Listing(
                        items
                            .iter()
                            .map(|(name, entry)| {
                                let is_file = matches!(entry, Entry::File(_));
                                Listed::new(name.clone(), !is_file, is_file)
                            })
                            .collect(),
                    ),
                    Entry::File(_) => panic!("{} is a file", path),
                }
            }
            FolderAsk::Read(path) => {
                asked.push(format!("read {}", path));
                match find(root, &path) {
                    Entry::File(content) => FolderEvent::Content(content.clone()),
                    Entry::Dir(_) => panic!("{} is a directory", path),
                }
            }
            FolderAsk::Finished(id) => return (id, asked),
        };
        let next = walk.step(event);
        walk = next.0;
        ask = next.1;
    }
}

/// The id of the entry, found by plain recursion.
fn hash_of(entry: &Entry) -> String {
    match entry {
        Entry::File(content) => compute_file_hash(content),
        Entry::Dir(items) => {
            let listed: Vec<DirItem> = items
                .iter()
                .filter(|(name, _)| *name != ".git" && *name != "target")
                .map(|(name, child)| DirItem {
                    name: name.clone(),
                    is_file: matches!(child, Entry::File(_)),
                    hash: hash_of(child),
                })
                .collect();
            Tree::hash_folder(&listed)
        }
    }
}

#[test]
fn folder_walk_of_empty_directory() {
    let (id, asked) = run(&dir(vec![]), ".");
    assert_eq!(id, "4b825dc642cb6eb9a060e54bf8d69288fbee4904");
    assert_eq!(asked, vec!["list ."]);
}

#[test]
fn folder_walk_of_known_directory() {
    let root = dir(vec![("a.txt", file("hello\n")), ("dir", dir(vec![("w.txt", file("world\n"))]))]);
    let (id, asked) = run(&root, ".");
    assert_eq!(id, "4a299ec3ed92b1f606809130b11c81dcabd5e6a7");
    assert_eq!(asked, vec!["list .", "read ./a.txt", "list ./dir", "read ./dir/w.txt"]);
}

#[test]
fn folder_walk_hashes_what_lies_below_first() {
    let root = dir(vec![
        ("b", dir(vec![("c", dir(vec![("d", file("d"))])), ("e", file("e"))])),
        ("a", file("a")),
        ("z", dir(vec![])),
    ]);
    let (id, asked) = run(&root, ".");
    assert_eq!(id, hash_of(&root));
    assert_eq!(
        asked,
        vec![
            "list .",
            "read ./a",
            "list ./b",
            "list ./b/c",
            "read ./b/c/d",
            "read ./b/e",
            "list ./z",
        ]
    );
}

#[test]
fn folder_walk_passes_over_git_and_target() {
    let plain = dir(vec![("src", dir(vec![("main.rs", file("fn main() {}\n"))]))]);
    let with_extras = dir(vec![
        (".git", dir(vec![("HEAD", file("ref: refs/heads/main\n"))])),
        ("src", dir(vec![("main.rs", file("fn main() {}\n"))])),
        ("target", dir(vec![("debug", dir(vec![]))])),
    ]);
    let (id, asked) = run(&with_extras, ".");
    assert_eq!(id, run(&plain, ".").0);
    assert_eq!(asked, vec!["list .", "list ./src", "read ./src/main.rs"]);
    // Below the root the two names are passed over as well.
    let nested = dir(vec![("src", dir(vec![("target", file("x")), ("main.rs", file("fn main() {}\n"))]))]);
    assert_eq!(run(&nested, ".").0, id);
}

#[test]
fn folder_walk_agrees_with_plain_recursion() {
    let root = dir(vec![
        ("one", file("1")),
        ("two", dir(vec![("three", file("3")), ("four", dir(vec![("five", file("5"))]))])),
        ("six", dir(vec![("seven", dir(vec![("eight", dir(vec![]))]))])),
    ]);
    assert_eq!(run(&root, ".").0, hash_of(&root));
}

#[test]
fn folder_walk_starts_by_listing() {
    let (walk, ask) = FolderWalk::start("some/dir");
    assert!(matches!(ask, FolderAsk::List(ref path) if path == "some/dir"));
    assert!(matches!(walk.wait, FolderWait::Listing { .. }));
    assert!(walk.frames.is_empty());
    let (walk, ask) = walk.step(FolderEvent::Listing(vec![Listed::new("f".to_string(), false, true)]));
    assert!(matches!(ask, FolderAsk::Read(ref path) if path == "some/dir/f"));
    assert!(matches!(walk.wait, FolderWait::Content { ref name } if name == "f"));
    let (walk, ask) = walk.step(FolderEvent::Content(b"hello\n".to_vec()));
    assert!(matches!(walk.wait, FolderWait::Over));
    match ask {
        FolderAsk::Finished(id) => assert_eq!(id, expected_single()),
        other => panic!("{:?}", other),
    }
}

fn expected_single() -> String {
    Tree::hash_folder(&vec![DirItem {
        name: "f".to_string(),
        is_file: true,
        hash: compute_file_hash(b"hello\n"),
    }])
}
