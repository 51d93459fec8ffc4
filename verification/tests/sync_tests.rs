use std::collections::BTreeMap;
use std::io::Write;

use mini_git::blob::compute_file_hash;
use mini_git::error::GitError;
use mini_git::objectid::hash_object;
use mini_git::sync::{SyncAsk, SyncEvent, SyncWait, SyncWalk};
use mini_git::text::join_dir;
use mini_git::tree::{DirItem, Tree, TreeEntry};

/// A file or a directory of a working tree that is kept in memory.
#[derive(Clone, Debug, PartialEq)]
enum Node {
    File(Vec<u8>),
    Dir(BTreeMap<String, Node>),
}

/// A working tree and an object store, both in memory, and what was done
/// to the working tree.
struct World {
    root: Node,
    store: BTreeMap<String, Vec<u8>>,
    done: Vec<String>,
}

fn file(content: &str) -> Node {
    Node::File(content.as_bytes().to_vec())
}

fn dir(items: Vec<(&str, Node)>) -> Node {
    Node::Dir(items.into_iter().map(|(name, node)| (name.to_string(), node)).collect())
}

fn deflate(bytes: &[u8]) -> Vec<u8> {
    let mut encoder =
        flate2::write::ZlibEncoder::new(Vec::new(), flate2::Compression::default());
    encoder.write_all(bytes).unwrap();
    encoder.finish().unwrap()
}

fn object(kind: &str, payload: &[u8]) -> Vec<u8> {
    let mut raw = format!("{} {}\0", kind, payload.len()).into_bytes();
    raw.extend_from_slice(payload);
    raw
}

fn parts(path: &str) -> Vec<&str> {
    path.split('/').filter(|part| !part.is_empty() && *part != ".").collect()
}

fn find<'a>(node: &'a Node, path: &[&str]) -> Option<&'a Node> {
    match path.split_first() {
        None => Some(node),
        Some((first, rest)) => match node {
            Node::Dir(items) => items.get(*first).and_then(|child| find(child, rest)),
            Node::File(_) => None,
        },
    }
}

fn slot<'a>(node: &'a mut Node, path: &[&str]) -> &'a mut BTreeMap<String, Node> {
    match node {
        Node::Dir(items) => match path.split_first() {
            None => items,
            Some((first, rest)) => slot(items.get_mut(*first).unwrap(), rest),
        },
        Node::File(_) => panic!("a file is in the way"),
    }
}

/// The id that the node would be stored under, as the library hashes it.
fn hash_node(node: &Node) -> String {
    match node {
        Node::File(content) => compute_file_hash(content),
        Node::Dir(items) => {
            let listed: Vec<DirItem> = items
                .iter()
                .map(|(name, child)| DirItem {
                    name: name.clone(),
                    is_file: matches!(child, Node::File(_)),
                    hash: if name == ".git" || name == "target" {
                        String::new()
                    } else {
                        hash_node(child)
                    },
                })
                .collect();
            Tree::hash_folder(&listed)
        }
    }
}

/// Stores the node and all below it; gives its id.
fn store_node(store: &mut BTreeMap<String, Vec<u8>>, node: &Node) -> String {
    match node {
        Node::File(content) => {
            let id = compute_file_hash(content);
            store.insert(id.clone(), deflate(&object("blob", content)));
            id
        }
        Node::Dir(items) => {
            let entries: Vec<TreeEntry> = items
                .iter()
                .map(|(name, child)| {
                    let mode = if matches!(child, Node::File(_)) { "100644" } else { "40000" };
                    TreeEntry::new(mode.to_string(), name.clone(), store_node(store, child))
                })
                .collect();
            let payload = Tree::write_entries(entries);
            let id = hash_object(b"tree", payload.clone());
            store.insert(id.clone(), deflate(&object("tree", &payload)));
            id
        }
    }
}

fn load_tree(world: &World, id: &str) -> Tree {
    Tree::from_hash(id, world.store.get(id).map(|bytes| bytes.as_slice())).unwrap()
}

/// Runs a walk to its end, doing in the world what it asks.
fn run(world: &mut World, tree: Tree) -> Result<(), GitError> {
    let (mut walk, mut ask) = SyncWalk::start(tree, ".");
    loop {
        let event = match ask {
            SyncAsk::List(path) => match find(&world.root, &parts(&path)) {
                Some(Node::Dir(items)) => SyncEvent::Names(items.keys().cloned().collect()),
                other => panic!("{} is no directory: {:?}", path, other),
            },
            SyncAsk::Load(id) => SyncEvent::Stored(world.store.get(&id).cloned()),
            SyncAsk::HashFile(path) | SyncAsk::HashFolder(path) => {
                SyncEvent::Current(find(&world.root, &parts(&path)).map(hash_node))
            }
            SyncAsk::Remove(path) => {
                let names = parts(&path);
                let (name, above) = names.split_last().unwrap();
                assert!(slot(&mut world.root, above).remove(*name).is_some());
                world.done.push(format!("remove {}", path));
                SyncEvent::Done
            }
            SyncAsk::Write(path, content) => {
                let names = parts(&path);
                let (name, above) = names.split_last().unwrap();
                slot(&mut world.root, above).insert(name.to_string(), Node::File(content));
                world.done.push(format!("write {}", path));
                SyncEvent::Done
            }
            SyncAsk::MakeDir(path) => {
                let names = parts(&path);
                let (name, above) = names.split_last().unwrap();
                let items = slot(&mut world.root, above);
                if !matches!(items.get(*name), Some(Node::Dir(_))) {
                    items.insert(name.to_string(), Node::Dir(BTreeMap::new()));
                }
                world.done.push(format!("mkdir {}", path));
                SyncEvent::Done
            }
            SyncAsk::Finished => return Ok(()),
            SyncAsk::Fail(error) => return Err(error),
        };
        let next = walk.step(event);
        walk = next.0;
        ask = next.1;
    }
}

fn wanted() -> Node {
    dir(vec![
        ("keep.txt", file("same\n")),
        ("new.txt", file("new\n")),
        ("sub", dir(vec![("x", file("x two\n")), ("y", file("y\n")), ("deep", dir(vec![("z", file("z\n"))]))])),
        ("was_file", dir(vec![("inner", file("inner\n"))])),
    ])
}

fn world() -> (World, String) {
    let root = dir(vec![
        (".git", dir(vec![("config", file("cfg"))])),
        ("target", dir(vec![("out", file("bin"))])),
        ("old.txt", file("old\n")),
        ("keep.txt", file("same\n")),
        ("gone", dir(vec![("a", file("a\n"))])),
        ("sub", dir(vec![("x", file("x one\n")), ("stale", file("s\n"))])),
        ("was_file", file("plain\n")),
    ]);
    let mut store = BTreeMap::new();
    let id = store_node(&mut store, &wanted());
    (World { root, store, done: Vec::new() }, id)
}

fn without_excluded(node: &Node) -> Node {
    match node {
        Node::Dir(items) => Node::Dir(
            items
                .iter()
                .filter(|(name, _)| *name != ".git" && *name != "target")
                .map(|(name, child)| (name.clone(), child.clone()))
                .collect(),
        ),
        other => other.clone(),
    }
}

#[test]
fn sync_brings_the_directory_to_the_tree() {
    let (mut world, id) = world();
    let tree = load_tree(&world, &id);
    assert_eq!(run(&mut world, tree), Ok(()));
    assert_eq!(without_excluded(&world.root), wanted());
    assert_eq!(find(&world.root, &[".git", "config"]), Some(&file("cfg")));
    assert_eq!(find(&world.root, &["target", "out"]), Some(&file("bin")));
}

#[test]
fn sync_deletes_first_and_makes_directories_before_it_fills_them() {
    let (mut world, id) = world();
    let tree = load_tree(&world, &id);
    run(&mut world, tree).unwrap();
    assert_eq!(
        world.done,
        vec![
            "remove ./gone",
            "remove ./old.txt",
            "write ./new.txt",
            "mkdir ./sub",
            "remove ./sub/stale",
            "mkdir ./sub/deep",
            "write ./sub/deep/z",
            "write ./sub/x",
            "write ./sub/y",
            "mkdir ./was_file",
            "write ./was_file/inner",
        ]
    );
}

#[test]
fn second_sync_performs_no_writes() {
    let (mut first, id) = world();
    let tree = load_tree(&first, &id);
    run(&mut first, tree).unwrap();
    assert!(!first.done.is_empty());
    let mut second =
        World { root: first.root.clone(), store: first.store.clone(), done: Vec::new() };
    let tree = load_tree(&second, &id);
    assert_eq!(run(&mut second, tree), Ok(()));
    assert_eq!(second.done, Vec::<String>::new());
    assert_eq!(second.root, first.root);
}

#[test]
fn hash_of_checked_out_directory_is_the_tree_id() {
    let (mut world, id) = world();
    let tree = load_tree(&world, &id);
    run(&mut world, tree).unwrap();
    assert_eq!(hash_node(&world.root), id);
    // And a checkout of the tree that the directory is stored as gives the
    // same id again.
    let again = store_node(&mut world.store, &without_excluded(&world.root));
    assert_eq!(again, id);
    let mut empty = World { root: dir(vec![]), store: world.store.clone(), done: Vec::new() };
    let tree = load_tree(&empty, &again);
    run(&mut empty, tree).unwrap();
    assert_eq!(hash_node(&empty.root), id);
}

#[test]
fn sync_into_empty_directory_writes_everything() {
    let mut store = BTreeMap::new();
    let want = dir(vec![("a", file("1")), ("d", dir(vec![("b", file("2"))]))]);
    let id = store_node(&mut store, &want);
    let mut world = World { root: dir(vec![]), store, done: Vec::new() };
    let tree = load_tree(&world, &id);
    assert_eq!(run(&mut world, tree), Ok(()));
    assert_eq!(world.root, want);
    assert_eq!(world.done, vec!["write ./a", "mkdir ./d", "write ./d/b"]);
}

#[test]
fn sync_fails_where_an_object_is_missing() {
    let (mut world, id) = world();
    let tree = load_tree(&world, &id);
    let lost = compute_file_hash(b"new\n");
    world.store.remove(&lost);
    assert_eq!(run(&mut world, tree), Err(GitError::ObjectNotFound));
    // What was done before the failure stays done.
    assert_eq!(world.done, vec!["remove ./gone", "remove ./old.txt"]);
}

#[test]
fn sync_fails_on_corrupt_object() {
    let (mut world, id) = world();
    let tree = load_tree(&world, &id);
    let broken = compute_file_hash(b"new\n");
    world.store.insert(broken, b"no zlib".to_vec());
    assert_eq!(run(&mut world, tree), Err(GitError::CorruptObject));
}

#[test]
fn sync_fails_on_entry_that_names_a_commit() {
    let commit = object("commit", b"tree x\n\nm");
    let id = hash_object(b"commit", b"tree x\n\nm".to_vec());
    let mut store = BTreeMap::new();
    store.insert(id.clone(), deflate(&commit));
    let tree = Tree::new(
        "t".to_string(),
        vec![TreeEntry::new("160000".to_string(), "module".to_string(), id)],
    );
    let mut world = World { root: dir(vec![]), store, done: Vec::new() };
    assert_eq!(run(&mut world, tree), Err(GitError::UnknownObjectType));
    assert!(world.done.is_empty());
}

#[test]
fn sync_passes_over_names_that_begin_with_git() {
    let mut store = BTreeMap::new();
    let id = store_node(&mut store, &dir(vec![(".gitignore", file("x")), ("a", file("1"))]));
    let mut world = World { root: dir(vec![]), store, done: Vec::new() };
    let tree = load_tree(&world, &id);
    assert_eq!(run(&mut world, tree), Ok(()));
    assert_eq!(world.root, dir(vec![("a", file("1"))]));
}

#[test]
fn sync_walk_starts_by_listing() {
    let tree = Tree::new("t".to_string(), Vec::new());
    let (walk, ask) = SyncWalk::start(tree, "some/dir");
    assert!(matches!(ask, SyncAsk::List(ref path) if path == "some/dir"));
    assert!(matches!(walk.wait, SyncWait::Names { .. }));
    let (walk, ask) = walk.step(SyncEvent::Names(vec!["x".to_string(), ".git".to_string()]));
    assert!(matches!(ask, SyncAsk::Remove(ref path) if path == "some/dir/x"));
    let (walk, ask) = walk.step(SyncEvent::Done);
    assert!(matches!(ask, SyncAsk::Finished));
    assert!(matches!(walk.wait, SyncWait::Over));
    assert_eq!(join_dir(".", "a"), "./a");
}
