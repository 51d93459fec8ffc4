use std::io::Write;

use mini_git::checkout::{
    checkout, checkout_step, CheckoutAction, CheckoutEvent, CheckoutState, SyncAction,
};
use mini_git::commit::Commit;
use mini_git::error::GitError;
use mini_git::gitignore::GitIgnore;
use mini_git::index::{Index, IndexEntry};
use mini_git::objectreader::ObjectKind;
use mini_git::status::{
    create_index_files, find_path, get_staged_files, ChangedFile, FileStatus, TreeFile,
};
use mini_git::tree::{Tree, TreeEntry};
use mini_git::treewalk::{create_tree_files, join_path, TreeWalk};
use mini_git::unstaged::{commit_time, get_unstaged_files, should_hash, WorkFile};
use mini_git::untracked::{
    get_untracked_files, join_listed, tracked_directories, tracked_files, Listed,
};

const A: &str = "ce013625030ba8dba906f756967f9e9ca394464a";
const B: &str = "cc628ccd10742baea8241c5924df992b5c019f71";
const C: &str = "0f0c36b22b19d06e96ea685aa6aff180420ca10e";

fn deflate(bytes: &[u8]) -> Vec<u8> {
    let mut encoder =
        flate2::write::ZlibEncoder::new(Vec::new(), flate2::Compression::default());
    encoder.write_all(bytes).unwrap();
    encoder.finish().unwrap()
}

fn object(kind: &str, payload: &[u8]) -> Vec<u8> {
    let mut raw = format!("{} {}\0", kind, payload.len()).into_bytes();
    raw.extend_from_slice(payload);
    raw
}

fn staged(name: &str, hash: &str) -> IndexEntry {
    IndexEntry::new(0, 0, 0, 0, 0, 0, 0o100644, 0, 0, 0, hash.to_string(), name.len() as u16, name.to_string())
}

fn index(entries: &[(&str, &str)]) -> Index {
    Index::new(2, entries.iter().map(|(n, h)| staged(n, h)).collect())
}

fn tree(entries: &[(&str, &str, &str)]) -> Tree {
    Tree::new(
        "t".to_string(),
        entries.iter().map(|(m, n, h)| TreeEntry::new(m.to_string(), n.to_string(), h.to_string())).collect(),
    )
}

fn tree_files(files: &[(&str, &str)]) -> Vec<TreeFile> {
    files.iter().map(|(p, h)| TreeFile::new(p.to_string(), h.to_string())).collect()
}

fn pairs(files: &[TreeFile]) -> Vec<(&str, &str)> {
    files.iter().map(|f| (f.path.as_str(), f.hash.as_str())).collect()
}

fn changes(files: &[ChangedFile]) -> Vec<(&str, FileStatus)> {
    files.iter().map(|f| (f.path.as_str(), f.status)).collect()
}

fn commit_at(timestamp: &str) -> Commit {
    Commit::new(
        "c".to_string(),
        "t".to_string(),
        None,
        "A".to_string(),
        "A".to_string(),
        "m".to_string(),
        timestamp.to_string(),
        "+0000".to_string(),
    )
}

fn listed(name: &str, is_dir: bool) -> Listed {
    Listed::new(name.to_string(), is_dir, !is_dir)
}

fn none() -> GitIgnore {
    GitIgnore::empty()
}

#[test]
fn staged_files_fall_into_one_category_each() {
    let idx = index(&[("new.txt", A), ("same.txt", A), ("changed.txt", B)]);
    let files = tree_files(&[("same.txt", A), ("changed.txt", A), ("gone.txt", C)]);
    let got = get_staged_files(&idx, &files, &none());
    assert_eq!(
        changes(&got),
        vec![
            ("changed.txt", FileStatus::Modified),
            ("gone.txt", FileStatus::Deleted),
            ("new.txt", FileStatus::Created),
        ]
    );
}

#[test]
fn staged_files_are_sorted_by_path() {
    let idx = index(&[("z", A), ("m/b", A), ("a", A), ("m/a", A), ("B", A)]);
    let got = get_staged_files(&idx, &Vec::new(), &none());
    let paths: Vec<&str> = got.iter().map(|f| f.path.as_str()).collect();
    assert_eq!(paths, vec!["B", "a", "m/a", "m/b", "z"]);
    assert!(got.iter().all(|f| f.status == FileStatus::Created));
}

#[test]
fn staged_files_of_equal_states_are_none() {
    let idx = index(&[("a", A), ("b", B)]);
    let files = tree_files(&[("b", B), ("a", A)]);
    assert!(get_staged_files(&idx, &files, &none()).is_empty());
    assert!(get_staged_files(&index(&[]), &Vec::new(), &none()).is_empty());
}

#[test]
fn staged_files_leave_out_ignored_index_entries() {
    let g = GitIgnore::from_text("*.log\n").unwrap();
    let idx = index(&[("a.log", A), ("a.txt", A)]);
    let got = get_staged_files(&idx, &Vec::new(), &g);
    assert_eq!(changes(&got), vec![("a.txt", FileStatus::Created)]);
}

#[test]
fn staged_files_name_each_path_once() {
    let idx = index(&[("a", A), ("a", A), ("b", B), ("b", B)]);
    let files = tree_files(&[("b", A), ("c", C), ("c", C)]);
    let got = get_staged_files(&idx, &files, &none());
    assert_eq!(
        changes(&got),
        vec![
            ("a", FileStatus::Created),
            ("b", FileStatus::Modified),
            ("c", FileStatus::Deleted),
        ]
    );
}

#[test]
fn index_files_keep_order_of_index() {
    let g = GitIgnore::from_text("skip*\n").unwrap();
    let idx = index(&[("b", B), ("skip.me", C), ("a", A)]);
    assert_eq!(pairs(&create_index_files(&idx, &g)), vec![("b", B), ("a", A)]);
}

#[test]
fn tree_files_of_one_level() {
    let g = GitIgnore::from_text("src/gen*\n").unwrap();
    let t = tree(&[("100644", "main.rs", A), ("100644", "gen.rs", B), ("40000", "sub", C)]);
    assert_eq!(
        pairs(&create_tree_files("src", &t, &g)),
        vec![("src/main.rs", A), ("src/sub", C)]
    );
    assert_eq!(
        pairs(&create_tree_files("", &t, &g)),
        vec![("main.rs", A), ("gen.rs", B), ("sub", C)]
    );
    assert_eq!(join_path("", "a"), "a");
    assert_eq!(join_path("x/y", "a"), "x/y/a");
}

#[test]
fn tree_walk_lists_files_depth_first() {
    let root = tree(&[("100644", "a", A), ("40000", "d", C), ("100644", "z", B)]);
    let sub = tree(&[("100644", "x", B), ("100644", "y", A)]);
    let mut walk = TreeWalk::new(&root, &none());
    let mut asked = Vec::new();
    while let Some(next) = walk.next() {
        asked.push(next.path.clone());
        if next.hash == C {
            walk.visit(ObjectKind::Tree, Some(&sub), &none());
        } else {
            walk.visit(ObjectKind::Blob, None, &none());
        }
    }
    assert_eq!(asked, vec!["a", "d", "d/x", "d/y", "z"]);
    assert_eq!(pairs(&walk.finish()), vec![("a", A), ("d/x", B), ("d/y", A), ("z", B)]);
}

#[test]
fn tree_walk_does_not_enter_ignored_trees() {
    let g = GitIgnore::from_text("d\nk/skip\n").unwrap();
    let root = tree(&[("40000", "d", C), ("40000", "k", C)]);
    let sub = tree(&[("100644", "skip", B), ("100644", "keep", A)]);
    let mut walk = TreeWalk::new(&root, &g);
    assert_eq!(walk.next().unwrap().path, "k");
    walk.visit(ObjectKind::Tree, Some(&sub), &g);
    assert_eq!(walk.next().unwrap().path, "k/keep");
    walk.visit(ObjectKind::Blob, None, &g);
    assert!(walk.next().is_none());
    assert_eq!(pairs(&walk.finish()), vec![("k/keep", A)]);
}

#[test]
fn tree_walk_takes_a_commit_for_a_file() {
    let root = tree(&[("160000", "module", C)]);
    let mut walk = TreeWalk::new(&root, &none());
    walk.visit(ObjectKind::Commit, None, &none());
    assert_eq!(pairs(&walk.finish()), vec![("module", C)]);
}

#[test]
fn find_path_gives_first_position() {
    let files = tree_files(&[("a", A), ("b", B), ("a", C)]);
    assert_eq!(find_path(&files, "a"), Some(0));
    assert_eq!(find_path(&files, "b"), Some(1));
    assert_eq!(find_path(&files, "c"), None);
}

#[test]
fn unstaged_files_deleted_and_modified() {
    let idx = index(&[("gone", A), ("old", A), ("touched", A), ("edited", A)]);
    let files = vec![
        WorkFile::new(false, 0, String::new()),
        WorkFile::new(true, 100, String::new()),
        WorkFile::new(true, 101, A.to_string()),
        WorkFile::new(true, 101, B.to_string()),
    ];
    let got = get_unstaged_files(&commit_at("100"), &idx, &none(), &files).unwrap();
    assert_eq!(
        changes(&got),
        vec![("gone", FileStatus::Deleted), ("edited", FileStatus::Modified)]
    );
}

#[test]
fn unstaged_files_trust_files_not_newer_than_commit() {
    let idx = index(&[("f", A)]);
    let same_second = vec![WorkFile::new(true, 1700000000, B.to_string())];
    assert!(get_unstaged_files(&commit_at("1700000000"), &idx, &none(), &same_second).unwrap().is_empty());
    let later = vec![WorkFile::new(true, 1700000001, B.to_string())];
    assert_eq!(
        changes(&get_unstaged_files(&commit_at("1700000000"), &idx, &none(), &later).unwrap()),
        vec![("f", FileStatus::Modified)]
    );
}

#[test]
fn unstaged_files_ignore_changes_but_not_deletions() {
    let g = GitIgnore::from_text("*.log\n").unwrap();
    let idx = index(&[("a.log", A), ("b.log", A)]);
    let files = vec![WorkFile::new(true, 9, B.to_string()), WorkFile::new(false, 0, String::new())];
    let got = get_unstaged_files(&commit_at("1"), &idx, &g, &files).unwrap();
    assert_eq!(changes(&got), vec![("b.log", FileStatus::Deleted)]);
}

#[test]
fn unstaged_files_need_a_numeric_timestamp() {
    let idx = index(&[("f", A)]);
    let files = vec![WorkFile::new(true, 5, A.to_string())];
    assert_eq!(
        get_unstaged_files(&commit_at("soon"), &idx, &none(), &files).unwrap_err(),
        GitError::MalformedCommit
    );
    assert_eq!(
        get_unstaged_files(&commit_at(""), &idx, &none(), &files).unwrap_err(),
        GitError::MalformedCommit
    );
    assert_eq!(commit_time(&commit_at("1700000000")), Ok(1700000000));
    assert_eq!(commit_time(&commit_at("x")), Err(GitError::MalformedCommit));
}

#[test]
fn should_hash_only_newer_existing_unignored_files() {
    let g = GitIgnore::from_text("*.log\n").unwrap();
    let e = staged("a.txt", A);
    assert!(should_hash(&e, &g, 10, true, 11));
    assert!(!should_hash(&e, &g, 10, true, 10));
    assert!(!should_hash(&e, &g, 10, false, 11));
    assert!(!should_hash(&staged("a.log", A), &g, 10, true, 11));
}

#[test]
fn untracked_scope_example() {
    let idx = index(&[("src/a.txt", A)]);
    let dirs = tracked_directories(&idx, &none());
    let files = tracked_files(&idx, &none());
    assert_eq!(dirs, vec![".", "src"]);
    assert_eq!(files, vec!["src/a.txt"]);
    let listings = vec![
        vec![listed(".git", true), listed("src", true), listed("docs", true)],
        vec![listed("a.txt", false), listed("b.txt", false)],
    ];
    let got = get_untracked_files(&dirs, &files, &listings, &none());
    assert_eq!(got, vec!["docs/", "src/b.txt"]);
    assert!(!got.contains(&"docs/readme.txt".to_string()));
}

#[test]
fn untracked_files_leave_out_ignored_paths() {
    let g = GitIgnore::from_text("*.o\nbuild\n").unwrap();
    let idx = index(&[("main.c", A), ("lib/x.c", A), ("lib/y.o", A)]);
    let dirs = tracked_directories(&idx, &g);
    let files = tracked_files(&idx, &g);
    assert_eq!(dirs, vec![".", "lib"]);
    assert_eq!(files, vec!["main.c", "lib/x.c"]);
    let listings = vec![
        vec![listed("main.c", false), listed("main.o", false), listed("build", true), listed("lib", true), listed("notes", false)],
        vec![listed("x.c", false), listed("y.o", false), listed("z.c", false), listed("deep", true)],
    ];
    let got = get_untracked_files(&dirs, &files, &listings, &g);
    assert_eq!(got, vec!["notes", "lib/z.c", "lib/deep/"]);
}

#[test]
fn untracked_files_pass_over_what_is_neither_file_nor_directory() {
    let idx = index(&[]);
    let dirs = tracked_directories(&idx, &none());
    assert_eq!(dirs, vec!["."]);
    let listings = vec![vec![Listed::new("socket".to_string(), false, false), listed("f", false)]];
    assert_eq!(get_untracked_files(&dirs, &Vec::new(), &listings, &none()), vec!["f"]);
}

#[test]
fn tracked_directories_name_every_level_once() {
    let idx = index(&[("a/b/c.txt", A), ("a/d.txt", A), ("top", A), ("a/b/e.txt", A), ("x/y", A)]);
    assert_eq!(tracked_directories(&idx, &none()), vec![".", "a", "a/b", "x"]);
    assert_eq!(
        tracked_files(&idx, &none()),
        vec!["a/b/c.txt", "a/d.txt", "top", "a/b/e.txt", "x/y"]
    );
    assert_eq!(join_listed(".", "a"), "a");
    assert_eq!(join_listed("a/b", "c"), "a/b/c");
}

#[test]
fn sync_plan_deletes_what_the_tree_lacks() {
    let t = tree(&[("100644", "keep.txt", A), ("40000", "dir", C), ("100644", ".gitignore", B)]);
    let names: Vec<String> =
        ["old.txt", ".git", "keep.txt", "target", "stale", "dir"].iter().map(|s| s.to_string()).collect();
    let plan = t.sync_tree_to_dir(&names);
    assert_eq!(plan.delete, vec!["old.txt", "stale"]);
    let visit: Vec<&str> = plan.visit.iter().map(|e| e.name.as_str()).collect();
    assert_eq!(visit, vec!["keep.txt", "dir"]);
}

#[test]
fn sync_plan_of_matching_directory_deletes_nothing() {
    let t = tree(&[("100644", "a", A), ("100644", "b", B)]);
    let names: Vec<String> = ["b", "a", ".git"].iter().map(|s| s.to_string()).collect();
    assert!(t.sync_tree_to_dir(&names).delete.is_empty());
}

#[test]
fn sync_entry_writes_only_on_mismatch() {
    let e = TreeEntry::new("100644".to_string(), "f".to_string(), A.to_string());
    assert_eq!(Tree::sync_entry(&e, ObjectKind::Blob, None), Ok(SyncAction::WriteFile));
    assert_eq!(Tree::sync_entry(&e, ObjectKind::Blob, Some(B)), Ok(SyncAction::WriteFile));
    assert_eq!(Tree::sync_entry(&e, ObjectKind::Blob, Some(A)), Ok(SyncAction::Keep));
    assert_eq!(Tree::sync_entry(&e, ObjectKind::Tree, None), Ok(SyncAction::SyncDir));
    assert_eq!(Tree::sync_entry(&e, ObjectKind::Tree, Some(B)), Ok(SyncAction::SyncDir));
    assert_eq!(Tree::sync_entry(&e, ObjectKind::Tree, Some(A)), Ok(SyncAction::Keep));
    assert_eq!(Tree::sync_entry(&e, ObjectKind::Commit, Some(A)), Err(GitError::UnknownObjectType));
    assert_eq!(Tree::sync_entry(&e, ObjectKind::Commit, None), Err(GitError::UnknownObjectType));
}

#[test]
fn sync_entry_passes_over_git_names() {
    for name in [".git", ".gitignore", ".git/config", ".github"] {
        let e = TreeEntry::new("100644".to_string(), name.to_string(), A.to_string());
        assert_eq!(Tree::sync_entry(&e, ObjectKind::Blob, None), Ok(SyncAction::Skip));
        assert_eq!(Tree::sync_entry(&e, ObjectKind::Commit, None), Ok(SyncAction::Skip));
    }
    let e = TreeEntry::new("100644".to_string(), "a.git".to_string(), A.to_string());
    assert_eq!(Tree::sync_entry(&e, ObjectKind::Blob, None), Ok(SyncAction::WriteFile));
}

#[test]
fn checkout_runs_to_head_update() {
    let (state, action) = checkout("main");
    match action {
        CheckoutAction::ReadFile(path) => assert_eq!(path, ".git/refs/heads/main"),
        other => panic!("{:?}", other),
    }
    let (state, action) =
        checkout_step(state, CheckoutEvent::File(Some(format!("{}\n", A).into_bytes())));
    match action {
        CheckoutAction::ReadFile(path) => {
            assert_eq!(path, ".git/objects/ce/013625030ba8dba906f756967f9e9ca394464a")
        }
        other => panic!("{:?}", other),
    }
    let commit = deflate(&object("commit", format!("tree {}\nauthor A 1 +0000\n\nm\n", C).as_bytes()));
    let (state, action) = checkout_step(state, CheckoutEvent::File(Some(commit)));
    match action {
        CheckoutAction::ReadFile(path) => {
            assert_eq!(path, ".git/objects/0f/0c36b22b19d06e96ea685aa6aff180420ca10e")
        }
        other => panic!("{:?}", other),
    }
    let mut payload = b"100644 w.txt\0".to_vec();
    payload.extend_from_slice(&hex::decode(B).unwrap());
    let (state, action) = checkout_step(state, CheckoutEvent::File(Some(deflate(&object("tree", &payload)))));
    match action {
        CheckoutAction::Sync(tree) => {
            assert_eq!(tree.hash, C);
            assert_eq!(tree.entries.len(), 1);
            assert_eq!(tree.entries[0].name, "w.txt");
        }
        other => panic!("{:?}", other),
    }
    let (state, action) = checkout_step(state, CheckoutEvent::Synced(Ok(())));
    match action {
        CheckoutAction::WriteHead(content) => assert_eq!(content, "ref: refs/heads/main"),
        other => panic!("{:?}", other),
    }
    assert!(matches!(state, CheckoutState::Done));
}

#[test]
fn checkout_fails_without_moving_head() {
    let (state, _) = checkout("nobranch");
    let (state, action) = checkout_step(state, CheckoutEvent::File(None));
    assert!(matches!(state, CheckoutState::Failed));
    assert!(matches!(action, CheckoutAction::Fail(GitError::ObjectNotFound)));

    let (state, _) = checkout("main");
    let (state, action) = checkout_step(state, CheckoutEvent::File(Some(b"not an id\n".to_vec())));
    assert!(matches!(state, CheckoutState::Failed));
    assert!(matches!(action, CheckoutAction::Fail(GitError::ObjectNotFound)));

    let (state, _) = checkout("main");
    let (state, _) = checkout_step(state, CheckoutEvent::File(Some(A.as_bytes().to_vec())));
    let (state, action) = checkout_step(state, CheckoutEvent::File(Some(b"junk".to_vec())));
    assert!(matches!(state, CheckoutState::Failed));
    assert!(matches!(action, CheckoutAction::Fail(GitError::CorruptObject)));

    let syncing = CheckoutState::Syncing { branch: "main".to_string() };
    let (state, action) =
        checkout_step(syncing, CheckoutEvent::Synced(Err(GitError::UnknownObjectType)));
    assert!(matches!(state, CheckoutState::Failed));
    assert!(matches!(action, CheckoutAction::Fail(GitError::UnknownObjectType)));
}

#[test]
fn checkout_of_commit_without_tree_id_fails() {
    let reading = CheckoutState::ReadingCommit { branch: "main".to_string(), commit: A.to_string() };
    let commit = deflate(&object("commit", b"tree nothex\n\nm\n"));
    let (state, action) = checkout_step(reading, CheckoutEvent::File(Some(commit)));
    assert!(matches!(state, CheckoutState::Failed));
    assert!(matches!(action, CheckoutAction::Fail(GitError::ObjectNotFound)));
    let reading = CheckoutState::ReadingTree { branch: "main".to_string(), tree: C.to_string() };
    let (state, action) = checkout_step(reading, CheckoutEvent::File(None));
    assert!(matches!(state, CheckoutState::Failed));
    assert!(matches!(action, CheckoutAction::Fail(GitError::ObjectNotFound)));
}

#[test]
fn second_sync_changes_nothing() {
    let t = tree(&[("100644", "a", A), ("40000", "d", C), ("100644", ".gitignore", B)]);
    // What the directory holds after a first synchronisation.
    let names: Vec<String> =
        [".git", "a", "d", ".gitignore", "target"].iter().map(|s| s.to_string()).collect();
    let plan = t.sync_tree_to_dir(&names);
    assert!(plan.delete.is_empty());
    for entry in plan.visit.iter() {
        let kind = if entry.mode == "40000" { ObjectKind::Tree } else { ObjectKind::Blob };
        assert_eq!(Tree::sync_entry(entry, kind, Some(&entry.hash)), Ok(SyncAction::Keep));
    }
}

#[test]
fn tree_walk_of_empty_tree_is_over_at_once() {
    let walk = TreeWalk::new(&tree(&[]), &none());
    assert!(walk.next().is_none());
    assert!(walk.finish().is_empty());
}
