//! Status: what is staged against the last commit.
//!
//! What has changed in the working tree since is told in `unstaged`, what
//! is not tracked in `untracked`, and the files of the last commit are
//! listed by a walk, in `treewalk`.

use vstd::prelude::*;
use vstd::utf8::encode_utf8;
use crate::gitignore::{ignored, GitIgnore};
use crate::index::{Index, IndexEntryView};
use crate::order::{lemma_sorted_views, sort_by_name, sorted_by_name, NameBytes, Named};
use crate::text::{holds_text, same_text, texts};

verus! {

/// What happened to a file.
#[derive(Clone, Copy, Debug, PartialEq, Eq, Structural)]
pub enum FileStatus {
    Created,
    Modified,
    Deleted,
}

/// A file that differs between two states.
#[derive(Debug)]
pub struct ChangedFile {
    pub path: String,
    pub status: FileStatus,
}

/// A changed file as plain values.
pub struct ChangedFileView {
    pub path: Seq<char>,
    pub status: FileStatus,
}

impl View for ChangedFile {
    type V = ChangedFileView;

    open spec fn view(&self) -> ChangedFileView {
        ChangedFileView { path: self.path@, status: self.status }
    }
}

impl Named for ChangedFileView {
    open spec fn name_bytes(&self) -> Seq<u8> {
        encode_utf8(self.path)
    }
}

impl Named for ChangedFile {
    open spec fn name_bytes(&self) -> Seq<u8> {
        encode_utf8(self.path@)
    }
}

impl NameBytes for ChangedFile {
    fn name_as_bytes(&self) -> (bytes: &[u8]) {
        self.path.as_str().as_bytes()
    }
}

impl ChangedFile {
    /// A file at `path` with the given status.
    pub fn new(path: String, status: FileStatus) -> (file: Self)
        ensures
            file.path == path,
            file.status == status,
    {
        Self { path, status }
    }
}

/// The changed files as plain values.
pub open spec fn changes_view(files: Seq<ChangedFile>) -> Seq<ChangedFileView> {
    files.map_values(|f: ChangedFile| f@)
}

/// A file with the id of its content, as the index or a commit's tree has
/// it.
#[derive(Debug)]
pub struct TreeFile {
    /// The path from the root of the working tree.
    pub path: String,
    /// The id of the content.
    pub hash: String,
}

/// A tree file as plain values.
pub struct TreeFileView {
    pub path: Seq<char>,
    pub hash: Seq<char>,
}

impl View for TreeFile {
    type V = TreeFileView;

    open spec fn view(&self) -> TreeFileView {
        TreeFileView { path: self.path@, hash: self.hash@ }
    }
}

impl TreeFile {
    /// A file at `path` whose content has the id `hash`.
    pub fn new(path: String, hash: String) -> (file: Self)
        ensures
            file.path == path,
            file.hash == hash,
    {
        Self { path, hash }
    }
}

/// The files as plain values.
pub open spec fn files_view(files: Seq<TreeFile>) -> Seq<TreeFileView> {
    files.map_values(|f: TreeFile| f@)
}

/// The staged files that are not ignored, in the order of the index.
pub open spec fn index_files(entries: Seq<IndexEntryView>, patterns: Seq<Seq<char>>) -> Seq<
    TreeFileView,
>
    decreases entries.len(),
{
    if entries.len() == 0 {
        Seq::empty()
    } else if ignored(patterns, entries.last().name) {
        index_files(entries.drop_last(), patterns)
    } else {
        index_files(entries.drop_last(), patterns).push(
            TreeFileView { path: entries.last().name, hash: entries.last().sha1 },
        )
    }
}

/// The staged files that are not ignored, in the order of the index.
pub fn create_index_files(index: &Index, gitignore: &GitIgnore) -> (files: Vec<TreeFile>)
    ensures
        files_view(files@) == index_files(index@.entries, texts(gitignore.ignore_list@)),
{
    let ghost all = index@.entries;
    let ghost patterns = texts(gitignore.ignore_list@);
    let mut files: Vec<TreeFile> = Vec::new();
    let mut i: usize = 0;
    assert(all.take(0) =~= Seq::empty());
    assert(files_view(files@) =~= Seq::empty());
    while i < index.entries.len()
        invariant
            i <= index.entries.len(),
            all == index@.entries,
            patterns == texts(gitignore.ignore_list@),
            files_view(files@) == index_files(all.take(i as int), patterns),
        decreases index.entries.len() - i,
    {
        proof {
            assert(all.take(i + 1).drop_last() =~= all.take(i as int));
            assert(all.take(i + 1).last() == index.entries@[i as int]@);
        }
        let entry = &index.entries[i];
        if !gitignore.is_ignored(entry.name.as_str()) {
            let ghost before = files_view(files@);
            files.push(TreeFile { path: entry.name.clone(), hash: entry.sha1.clone() });
            assert(files_view(files@) =~= before.push(
                TreeFileView { path: entry.name@, hash: entry.sha1@ },
            ));
        }
        i += 1;
    }
    assert(all.take(all.len() as int) =~= all);
    files
}

/// Whether one of the files has the path.
pub open spec fn has_path(files: Seq<TreeFileView>, path: Seq<char>) -> bool {
    exists|i: int| 0 <= i < files.len() && (#[trigger] files[i]).path == path
}

/// The position of the first file with the path, or the number of files
/// when there is none.
pub open spec fn first_with_path(files: Seq<TreeFileView>, path: Seq<char>) -> int
    decreases files.len(),
{
    if files.len() == 0 || files[0].path == path {
        0
    } else {
        1 + first_with_path(files.skip(1), path)
    }
}

/// The paths of the files of `a` that `b` has no file for, each once, in
/// the order of `a`.
pub open spec fn paths_only_in(a: Seq<TreeFileView>, b: Seq<TreeFileView>) -> Seq<Seq<char>>
    decreases a.len(),
{
    if a.len() == 0 {
        Seq::empty()
    } else {
        let front = paths_only_in(a.drop_last(), b);
        if has_path(b, a.last().path) || front.contains(a.last().path) {
            front
        } else {
            front.push(a.last().path)
        }
    }
}

/// Whether the tree has the file's path under another id: the first of
/// the tree's files with that path counts.
pub open spec fn differs_from_tree(file: TreeFileView, tree_files: Seq<TreeFileView>) -> bool {
    has_path(tree_files, file.path) && tree_files[first_with_path(tree_files, file.path)].hash
        != file.hash
}

/// The staged files that the tree has under another id, each once, in the
/// order of the index.
pub open spec fn differing(staged: Seq<TreeFileView>, tree_files: Seq<TreeFileView>) -> Seq<
    TreeFileView,
>
    decreases staged.len(),
{
    if staged.len() == 0 {
        Seq::empty()
    } else {
        let front = differing(staged.drop_last(), tree_files);
        if differs_from_tree(staged.last(), tree_files) && !front.contains(staged.last()) {
            front.push(staged.last())
        } else {
            front
        }
    }
}

/// The paths, each with the status.
pub open spec fn with_status(paths: Seq<Seq<char>>, status: FileStatus) -> Seq<ChangedFileView> {
    Seq::new(paths.len(), |i: int| ChangedFileView { path: paths[i], status })
}

/// The paths of the files.
pub open spec fn paths_of(files: Seq<TreeFileView>) -> Seq<Seq<char>> {
    Seq::new(files.len(), |i: int| files[i].path)
}

/// The staged changes before they are sorted: the files that only the
/// index has are created, those that only the tree has are deleted, those
/// that both have under different ids are modified.
pub open spec fn staged_unsorted(staged: Seq<TreeFileView>, tree_files: Seq<TreeFileView>) -> Seq<
    ChangedFileView,
> {
    with_status(paths_only_in(staged, tree_files), FileStatus::Created) + with_status(
        paths_only_in(tree_files, staged),
        FileStatus::Deleted,
    ) + with_status(paths_of(differing(staged, tree_files)), FileStatus::Modified)
}

/// The staged changes: what differs between the staged files and the files
/// of the last commit's tree, in the order of the paths.
pub open spec fn staged_changes(staged: Seq<TreeFileView>, tree_files: Seq<TreeFileView>) -> Seq<
    ChangedFileView,
> {
    sorted_by_name(staged_unsorted(staged, tree_files))
}

/// The position of the first file with the path, if there is one.
pub fn find_path(files: &Vec<TreeFile>, path: &str) -> (r: Option<usize>)
    ensures
        match r {
            Some(i) => i == first_with_path(files_view(files@), path@) && i < files@.len()
                && files@[i as int].path@ == path@ && has_path(files_view(files@), path@),
            None => !has_path(files_view(files@), path@),
        },
{
    let ghost all = files_view(files@);
    let mut i: usize = 0;
    assert(all.skip(0) =~= all);
    while i < files.len()
        invariant
            i <= files.len(),
            all == files_view(files@),
            first_with_path(all, path@) == i + first_with_path(all.skip(i as int), path@),
            forall|j: int| 0 <= j < i ==> (#[trigger] all[j]).path != path@,
        decreases files.len() - i,
    {
        assert(all.skip(i as int)[0] == files@[i as int]@);
        if same_text(files[i].path.as_str(), path) {
            assert(all[i as int].path == path@);
            return Some(i);
        }
        assert(all.skip(i as int).skip(1) =~= all.skip(i + 1));
        i += 1;
    }
    None
}

fn only_in(a: &Vec<TreeFile>, b: &Vec<TreeFile>) -> (paths: Vec<String>)
    ensures
        texts(paths@) == paths_only_in(files_view(a@), files_view(b@)),
{
    let ghost all = files_view(a@);
    let mut paths: Vec<String> = Vec::new();
    let mut i: usize = 0;
    assert(all.take(0) =~= Seq::empty());
    assert(texts(paths@) =~= Seq::empty());
    while i < a.len()
        invariant
            i <= a.len(),
            all == files_view(a@),
            texts(paths@) == paths_only_in(all.take(i as int), files_view(b@)),
        decreases a.len() - i,
    {
        proof {
            assert(all.take(i + 1).drop_last() =~= all.take(i as int));
            assert(all.take(i + 1).last() == a@[i as int]@);
        }
        let path = &a[i].path;
        if find_path(b, path.as_str()).is_none() && !holds_text(&paths, path.as_str()) {
            let ghost before = texts(paths@);
            paths.push(path.clone());
            assert(texts(paths@) =~= before.push(path@));
        }
        i += 1;
    }
    assert(all.take(all.len() as int) =~= all);
    paths
}

fn holds_file(files: &Vec<TreeFile>, file: &TreeFile) -> (r: bool)
    ensures
        r == files_view(files@).contains(file@),
{
    let mut i: usize = 0;
    while i < files.len()
        invariant
            i <= files.len(),
            forall|j: int| 0 <= j < i ==> files_view(files@)[j] != file@,
        decreases files.len() - i,
    {
        if same_text(files[i].path.as_str(), file.path.as_str()) && same_text(
            files[i].hash.as_str(),
            file.hash.as_str(),
        ) {
            assert(files_view(files@)[i as int] == file@);
            return true;
        }
        i += 1;
    }
    false
}

fn differing_files(staged: &Vec<TreeFile>, tree_files: &Vec<TreeFile>) -> (files: Vec<TreeFile>)
    ensures
        files_view(files@) == differing(files_view(staged@), files_view(tree_files@)),
{
    let ghost all = files_view(staged@);
    let mut files: Vec<TreeFile> = Vec::new();
    let mut i: usize = 0;
    assert(all.take(0) =~= Seq::empty());
    assert(files_view(files@) =~= Seq::empty());
    while i < staged.len()
        invariant
            i <= staged.len(),
            all == files_view(staged@),
            files_view(files@) == differing(all.take(i as int), files_view(tree_files@)),
        decreases staged.len() - i,
    {
        proof {
            assert(all.take(i + 1).drop_last() =~= all.take(i as int));
            assert(all.take(i + 1).last() == staged@[i as int]@);
        }
        let file = &staged[i];
        let differs = match find_path(tree_files, file.path.as_str()) {
            Some(at) => {
                assert(files_view(tree_files@)[at as int] == tree_files@[at as int]@);
                !same_text(tree_files[at].hash.as_str(), file.hash.as_str())
            },
            None => false,
        };
        if differs && !holds_file(&files, file) {
            let ghost before = files_view(files@);
            files.push(TreeFile { path: file.path.clone(), hash: file.hash.clone() });
            assert(files_view(files@) =~= before.push(file@));
        }
        i += 1;
    }
    assert(all.take(all.len() as int) =~= all);
    files
}

fn push_changes(changes: &mut Vec<ChangedFile>, paths: &Vec<String>, status: FileStatus)
    ensures
        changes_view(final(changes)@) == changes_view(old(changes)@) + with_status(
            texts(paths@),
            status,
        ),
{
    let ghost before = changes_view(changes@);
    let mut i: usize = 0;
    assert(changes_view(changes@) =~= before + with_status(texts(paths@), status).take(0));
    while i < paths.len()
        invariant
            i <= paths.len(),
            changes_view(changes@) == before + with_status(texts(paths@), status).take(i as int),
        decreases paths.len() - i,
    {
        let ghost prev = changes_view(changes@);
        changes.push(ChangedFile { path: paths[i].clone(), status });
        proof {
            let view = ChangedFileView { path: paths@[i as int]@, status };
            assert(changes_view(changes@) =~= prev.push(view));
            assert(with_status(texts(paths@), status).take(i + 1) =~= with_status(
                texts(paths@),
                status,
            ).take(i as int).push(view));
        }
        i += 1;
    }
    assert(with_status(texts(paths@), status).take(paths@.len() as int) =~= with_status(
        texts(paths@),
        status,
    ));
}

fn paths_of_files(files: &Vec<TreeFile>) -> (paths: Vec<String>)
    ensures
        texts(paths@) == paths_of(files_view(files@)),
{
    let mut paths: Vec<String> = Vec::new();
    let mut i: usize = 0;
    while i < files.len()
        invariant
            i <= files.len(),
            paths@.len() == i,
            forall|j: int| 0 <= j < i ==> paths@[j]@ == files@[j].path@,
        decreases files.len() - i,
    {
        paths.push(files[i].path.clone());
        i += 1;
    }
    assert(texts(paths@) =~= paths_of(files_view(files@)));
    paths
}

/// The staged changes: what differs between the index and the files of the
/// last commit's tree, which a `TreeWalk` lists. Ignored paths are left out
/// of the index as they were left out of the tree's files.
pub fn get_staged_files(index: &Index, tree_files: &Vec<TreeFile>, gitignore: &GitIgnore) -> (changes:
    Vec<ChangedFile>)
    ensures
        changes_view(changes@) == staged_changes(
            index_files(index@.entries, texts(gitignore.ignore_list@)),
            files_view(tree_files@),
        ),
{
    let staged = create_index_files(index, gitignore);
    let added = only_in(&staged, tree_files);
    let removed = only_in(tree_files, &staged);
    let modified = differing_files(&staged, tree_files);
    let modified_paths = paths_of_files(&modified);
    let mut changes: Vec<ChangedFile> = Vec::new();
    assert(changes_view(changes@) =~= Seq::empty());
    push_changes(&mut changes, &added, FileStatus::Created);
    push_changes(&mut changes, &removed, FileStatus::Deleted);
    push_changes(&mut changes, &modified_paths, FileStatus::Modified);
    proof {
        assert(changes_view(changes@) =~= staged_unsorted(
            files_view(staged@),
            files_view(tree_files@),
        ));
        lemma_sorted_views(changes@, |f: ChangedFile| f@);
    }
    sort_by_name(changes)
}


/// Whether the path is staged but not in the commit's tree.
pub open spec fn is_added(staged: Seq<TreeFileView>, tree_files: Seq<TreeFileView>, path: Seq<char>) -> bool {
    has_path(staged, path) && !has_path(tree_files, path)
}

/// Whether the path is in the commit's tree but not staged.
pub open spec fn is_removed(staged: Seq<TreeFileView>, tree_files: Seq<TreeFileView>, path: Seq<char>) -> bool {
    has_path(tree_files, path) && !has_path(staged, path)
}

/// Whether the path is staged under another id than the commit's tree has
/// for it.
pub open spec fn is_modified(staged: Seq<TreeFileView>, tree_files: Seq<TreeFileView>, path: Seq<char>) -> bool {
    exists|i: int|
        0 <= i < staged.len() && (#[trigger] staged[i]).path == path && differs_from_tree(
            staged[i],
            tree_files,
        )
}

/// Whether the path is staged as the commit's tree has it.
pub open spec fn is_unchanged(staged: Seq<TreeFileView>, tree_files: Seq<TreeFileView>, path: Seq<char>) -> bool {
    has_path(staged, path) && has_path(tree_files, path) && !is_modified(staged, tree_files, path)
}

/// How many of the four categories the path belongs to.
pub open spec fn category_count(staged: Seq<TreeFileView>, tree_files: Seq<TreeFileView>, path: Seq<char>) -> nat {
    (if is_added(staged, tree_files, path) {
        1nat
    } else {
        0nat
    }) + (if is_removed(staged, tree_files, path) {
        1nat
    } else {
        0nat
    }) + (if is_modified(staged, tree_files, path) {
        1nat
    } else {
        0nat
    }) + (if is_unchanged(staged, tree_files, path) {
        1nat
    } else {
        0nat
    })
}

/// A path that is staged or in the commit's tree is in exactly one of the
/// four categories: added, removed, modified or unchanged. Any other path is
/// in none.
pub proof fn lemma_status_complete(
    staged: Seq<TreeFileView>,
    tree_files: Seq<TreeFileView>,
    path: Seq<char>,
)
    ensures
        has_path(staged, path) || has_path(tree_files, path) ==> category_count(
            staged,
            tree_files,
            path,
        ) == 1,
        !has_path(staged, path) && !has_path(tree_files, path) ==> category_count(
            staged,
            tree_files,
            path,
        ) == 0,
{
    if is_modified(staged, tree_files, path) {
        let i = choose|i: int|
            0 <= i < staged.len() && (#[trigger] staged[i]).path == path && differs_from_tree(
                staged[i],
                tree_files,
            );
        assert(has_path(staged, path));
        assert(has_path(tree_files, path));
    }
}

/// `paths_only_in` holds each path once, and holds exactly the paths that
/// `a` has and `b` lacks.
pub proof fn lemma_paths_only_in(a: Seq<TreeFileView>, b: Seq<TreeFileView>)
    ensures
        paths_only_in(a, b).no_duplicates(),
        forall|path: Seq<char>| #[trigger]
            paths_only_in(a, b).contains(path) <==> has_path(a, path) && !has_path(b, path),
    decreases a.len(),
{
    if a.len() > 0 {
        let front = paths_only_in(a.drop_last(), b);
        let out = paths_only_in(a, b);
        lemma_paths_only_in(a.drop_last(), b);
        assert forall|path: Seq<char>| #[trigger]
            out.contains(path) <==> has_path(a, path) && !has_path(b, path) by {
            if has_path(a, path) {
                let at = choose|at: int| 0 <= at < a.len() && (#[trigger] a[at]).path == path;
                if at < a.len() - 1 {
                    assert(a.drop_last()[at].path == path);
                }
            }
            if has_path(a.drop_last(), path) {
                let at = choose|at: int|
                    0 <= at < a.drop_last().len() && (#[trigger] a.drop_last()[at]).path == path;
                assert(a[at].path == path);
            }
            if front.contains(path) && out.len() > front.len() {
                let at = choose|at: int| 0 <= at < front.len() && front[at] == path;
                assert(out[at] == path);
            }
            if out.contains(path) && !front.contains(path) {
                let at = choose|at: int| 0 <= at < out.len() && out[at] == path;
                if at < front.len() {
                    assert(front[at] == path);
                }
                assert(a[a.len() - 1].path == path);
            }
            if a.last().path == path && !has_path(b, path) && !front.contains(path) {
                assert(out[front.len() as int] == path);
            }
        }
    }
}

/// `differing` holds exactly the staged files that the tree has under
/// another id.
pub proof fn lemma_differing(staged: Seq<TreeFileView>, tree_files: Seq<TreeFileView>)
    ensures
        forall|file: TreeFileView| #[trigger]
            differing(staged, tree_files).contains(file) <==> staged.contains(file)
                && differs_from_tree(file, tree_files),
    decreases staged.len(),
{
    if staged.len() > 0 {
        let front = differing(staged.drop_last(), tree_files);
        let out = differing(staged, tree_files);
        lemma_differing(staged.drop_last(), tree_files);
        assert forall|file: TreeFileView| #[trigger]
            out.contains(file) <==> staged.contains(file) && differs_from_tree(
                file,
                tree_files,
            ) by {
            if staged.contains(file) {
                let at = choose|at: int| 0 <= at < staged.len() && staged[at] == file;
                if at < staged.len() - 1 {
                    assert(staged.drop_last()[at] == file);
                }
            }
            if staged.drop_last().contains(file) {
                let at = choose|at: int|
                    0 <= at < staged.drop_last().len() && staged.drop_last()[at] == file;
                assert(staged[at] == file);
            }
            if front.contains(file) && out.len() > front.len() {
                let at = choose|at: int| 0 <= at < front.len() && front[at] == file;
                assert(out[at] == file);
            }
            if out.contains(file) && !front.contains(file) {
                let at = choose|at: int| 0 <= at < out.len() && out[at] == file;
                if at < front.len() {
                    assert(front[at] == file);
                }
                assert(staged[staged.len() - 1] == file);
            }
            if staged.last() == file && differs_from_tree(file, tree_files) && !front.contains(
                file,
            ) {
                assert(out[front.len() as int] == file);
            }
        }
    }
}

/// The staged changes name a path as created exactly where it is added, as
/// deleted exactly where it is removed, and as modified exactly where it
/// is modified; so no path is named with two statuses, and an unchanged
/// path is not named at all.
pub proof fn lemma_staged_changes(
    staged: Seq<TreeFileView>,
    tree_files: Seq<TreeFileView>,
    path: Seq<char>,
)
    ensures
        staged_changes(staged, tree_files).contains(
            ChangedFileView { path, status: FileStatus::Created },
        ) <==> is_added(staged, tree_files, path),
        staged_changes(staged, tree_files).contains(
            ChangedFileView { path, status: FileStatus::Deleted },
        ) <==> is_removed(staged, tree_files, path),
        staged_changes(staged, tree_files).contains(
            ChangedFileView { path, status: FileStatus::Modified },
        ) <==> is_modified(staged, tree_files, path),
{
    broadcast use vstd::seq_lib::group_to_multiset_ensures;

    let added = with_status(paths_only_in(staged, tree_files), FileStatus::Created);
    let removed = with_status(paths_only_in(tree_files, staged), FileStatus::Deleted);
    let diff = differing(staged, tree_files);
    let modified = with_status(paths_of(diff), FileStatus::Modified);
    let unsorted = staged_unsorted(staged, tree_files);
    let sorted = staged_changes(staged, tree_files);
    crate::order::lemma_sorted_by_name(unsorted);
    lemma_paths_only_in(staged, tree_files);
    lemma_paths_only_in(tree_files, staged);
    lemma_differing(staged, tree_files);
    assert forall|change: ChangedFileView| #[trigger]
        sorted.contains(change) <==> added.contains(change) || removed.contains(change)
            || modified.contains(change) by {
        vstd::seq_lib::to_multiset_contains(sorted, change);
        vstd::seq_lib::to_multiset_contains(unsorted, change);
        assert(sorted.contains(change) <==> unsorted.contains(change));
        if unsorted.contains(change) {
            let at = choose|at: int| 0 <= at < unsorted.len() && unsorted[at] == change;
            if at < added.len() {
                assert(added[at] == change);
            } else if at < added.len() + removed.len() {
                assert(removed[at - added.len()] == change);
            } else {
                assert(modified[at - added.len() - removed.len()] == change);
            }
        }
        if added.contains(change) {
            let at = choose|at: int| 0 <= at < added.len() && added[at] == change;
            assert(unsorted[at] == change);
        }
        if removed.contains(change) {
            let at = choose|at: int| 0 <= at < removed.len() && removed[at] == change;
            assert(unsorted[added.len() + at] == change);
        }
        if modified.contains(change) {
            let at = choose|at: int| 0 <= at < modified.len() && modified[at] == change;
            assert(unsorted[added.len() + removed.len() + at] == change);
        }
    }
    lemma_with_status(paths_only_in(staged, tree_files), FileStatus::Created);
    lemma_with_status(paths_only_in(tree_files, staged), FileStatus::Deleted);
    lemma_with_status(paths_of(diff), FileStatus::Modified);
    assert(paths_of(diff).contains(path) <==> is_modified(staged, tree_files, path)) by {
        if paths_of(diff).contains(path) {
            let at = choose|at: int| 0 <= at < paths_of(diff).len() && paths_of(diff)[at] == path;
            assert(diff.contains(diff[at]));
            let file = diff[at];
            let i = choose|i: int| 0 <= i < staged.len() && staged[i] == file;
            assert(staged[i].path == path && differs_from_tree(staged[i], tree_files));
        }
        if is_modified(staged, tree_files, path) {
            let i = choose|i: int|
                0 <= i < staged.len() && (#[trigger] staged[i]).path == path && differs_from_tree(
                    staged[i],
                    tree_files,
                );
            assert(staged.contains(staged[i]));
            assert(diff.contains(staged[i]));
            let at = choose|at: int| 0 <= at < diff.len() && diff[at] == staged[i];
            assert(paths_of(diff)[at] == path);
        }
    }
}

/// `with_status` holds a path with the status exactly where the paths hold
/// it, and holds nothing with another status.
pub proof fn lemma_with_status(paths: Seq<Seq<char>>, status: FileStatus)
    ensures
        forall|change: ChangedFileView| #[trigger]
            with_status(paths, status).contains(change) <==> change.status == status
                && paths.contains(change.path),
{
    assert forall|change: ChangedFileView| #[trigger]
        with_status(paths, status).contains(change) <==> change.status == status && paths.contains(
            change.path,
        ) by {
        if with_status(paths, status).contains(change) {
            let at = choose|at: int|
                0 <= at < with_status(paths, status).len() && with_status(paths, status)[at]
                    == change;
            assert(paths[at] == change.path);
        }
        if change.status == status && paths.contains(change.path) {
            let at = choose|at: int| 0 <= at < paths.len() && paths[at] == change.path;
            assert(with_status(paths, status)[at] == change);
        }
    }
}

} // verus!
