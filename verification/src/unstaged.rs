//! Unstaged changes: what the working tree holds against the index.

use vstd::prelude::*;
use crate::commit::Commit;
use crate::error::GitError;
use crate::gitignore::{ignored, GitIgnore};
use crate::index::{Index, IndexEntry, IndexEntryView};
use crate::status::{changes_view, ChangedFile, ChangedFileView, FileStatus};
use crate::text::{parse_number, parse_u64, same_text, texts, to_chars};

verus! {
/// What the working tree holds for one staged file.
#[derive(Debug)]
pub struct WorkFile {
    /// Whether there is a file at the path.
    pub exists: bool,
    /// When it was last modified, in seconds since 1970.
    pub modified_time: u64,
    /// The id of its content. It is looked at only where `should_hash`
    /// says so.
    pub hash: String,
}

/// A working file as plain values.
pub struct WorkFileView {
    pub exists: bool,
    pub modified_time: u64,
    pub hash: Seq<char>,
}

impl View for WorkFile {
    type V = WorkFileView;

    open spec fn view(&self) -> WorkFileView {
        WorkFileView { exists: self.exists, modified_time: self.modified_time, hash: self.hash@ }
    }
}

impl WorkFile {
    /// A file as the working tree has it.
    pub fn new(exists: bool, modified_time: u64, hash: String) -> (file: Self)
        ensures
            file.exists == exists,
            file.modified_time == modified_time,
            file.hash == hash,
    {
        Self { exists, modified_time, hash }
    }
}

/// The working files as plain values.
pub open spec fn work_view(files: Seq<WorkFile>) -> Seq<WorkFileView> {
    files.map_values(|f: WorkFile| f@)
}

/// Whether the content of a staged file is to be hashed: the file exists,
/// is not ignored, and was modified after the last commit. A file not
/// touched since then counts as unchanged.
pub open spec fn needs_hash(
    name: Seq<char>,
    patterns: Seq<Seq<char>>,
    commit_time: u64,
    exists: bool,
    modified_time: u64,
) -> bool {
    exists && !ignored(patterns, name) && modified_time > commit_time
}

/// What has happened in the working tree to one staged file: it is deleted
/// where no file exists; it is modified where its content is to be hashed
/// and has another id than the staged one.
pub open spec fn unstaged_change(
    entry: IndexEntryView,
    file: WorkFileView,
    patterns: Seq<Seq<char>>,
    commit_time: u64,
) -> Option<ChangedFileView> {
    if !file.exists {
        Some(ChangedFileView { path: entry.name, status: FileStatus::Deleted })
    } else if needs_hash(entry.name, patterns, commit_time, file.exists, file.modified_time)
        && entry.sha1 != file.hash {
        Some(ChangedFileView { path: entry.name, status: FileStatus::Modified })
    } else {
        None
    }
}

/// The changes in the working tree to the first `n` staged files, in the
/// order of the index.
pub open spec fn unstaged_changes(
    entries: Seq<IndexEntryView>,
    files: Seq<WorkFileView>,
    patterns: Seq<Seq<char>>,
    commit_time: u64,
    n: int,
) -> Seq<ChangedFileView>
    decreases n,
{
    if n <= 0 {
        Seq::empty()
    } else {
        let front = unstaged_changes(entries, files, patterns, commit_time, n - 1);
        match unstaged_change(entries[n - 1], files[n - 1], patterns, commit_time) {
            Some(change) => front.push(change),
            None => front,
        }
    }
}

/// The changes in the working tree since the commit made at the time that
/// `timestamp` spells. A timestamp that is no number makes the commit
/// malformed.
pub open spec fn unstaged(
    timestamp: Seq<char>,
    entries: Seq<IndexEntryView>,
    files: Seq<WorkFileView>,
    patterns: Seq<Seq<char>>,
) -> Result<Seq<ChangedFileView>, GitError> {
    match parse_number(timestamp) {
        Some(time) => Ok(unstaged_changes(entries, files, patterns, time, entries.len() as int)),
        None => Err(GitError::MalformedCommit),
    }
}

/// The changes as plain values.
pub open spec fn changes_result_view(r: Result<Vec<ChangedFile>, GitError>) -> Result<
    Seq<ChangedFileView>,
    GitError,
> {
    match r {
        Ok(changes) => Ok(changes_view(changes@)),
        Err(e) => Err(e),
    }
}

/// When the commit was made, in seconds since 1970.
pub fn commit_time(commit: &Commit) -> (r: Result<u64, GitError>)
    ensures
        match r {
            Ok(time) => parse_number(commit.timestamp@) == Some(time),
            Err(e) => e == GitError::MalformedCommit && parse_number(commit.timestamp@) is None,
        },
{
    let digits = to_chars(commit.timestamp.as_str());
    match parse_u64(digits.as_slice()) {
        Some(time) => Ok(time),
        None => Err(GitError::MalformedCommit),
    }
}

/// Whether the content of the staged file is to be hashed, given what the
/// working tree says of the file.
pub fn should_hash(
    entry: &IndexEntry,
    gitignore: &GitIgnore,
    commit_time: u64,
    exists: bool,
    modified_time: u64,
) -> (r: bool)
    ensures
        r == needs_hash(
            entry.name@,
            texts(gitignore.ignore_list@),
            commit_time,
            exists,
            modified_time,
        ),
{
    exists && !gitignore.is_ignored(entry.name.as_str()) && modified_time > commit_time
}

/// The changes in the working tree since `commit`: for each staged file,
/// `files` tells at the same position what the working tree holds.
pub fn get_unstaged_files(
    commit: &Commit,
    index: &Index,
    gitignore: &GitIgnore,
    files: &Vec<WorkFile>,
) -> (r: Result<Vec<ChangedFile>, GitError>)
    requires
        files@.len() == index.entries@.len(),
    ensures
        changes_result_view(r) == unstaged(
            commit.timestamp@,
            index@.entries,
            work_view(files@),
            texts(gitignore.ignore_list@),
        ),
{
    let time = match commit_time(commit) {
        Ok(time) => time,
        Err(e) => {
            return Err(e);
        },
    };
    let ghost entries = index@.entries;
    let ghost work = work_view(files@);
    let ghost patterns = texts(gitignore.ignore_list@);
    let mut changes: Vec<ChangedFile> = Vec::new();
    let mut i: usize = 0;
    assert(changes_view(changes@) =~= Seq::empty());
    while i < index.entries.len()
        invariant
            i <= index.entries.len(),
            files@.len() == index.entries@.len(),
            entries == index@.entries,
            work == work_view(files@),
            patterns == texts(gitignore.ignore_list@),
            changes_view(changes@) == unstaged_changes(entries, work, patterns, time, i as int),
        decreases index.entries.len() - i,
    {
        let entry = &index.entries[i];
        let file = &files[i];
        let ghost before = changes_view(changes@);
        proof {
            assert(entries[i as int] == entry@);
            assert(work[i as int] == file@);
        }
        if !file.exists {
            changes.push(ChangedFile { path: entry.name.clone(), status: FileStatus::Deleted });
            assert(changes_view(changes@) =~= before.push(
                ChangedFileView { path: entry.name@, status: FileStatus::Deleted },
            ));
        } else if should_hash(entry, gitignore, time, file.exists, file.modified_time)
            && !same_text(entry.sha1.as_str(), file.hash.as_str()) {
            changes.push(ChangedFile { path: entry.name.clone(), status: FileStatus::Modified });
            assert(changes_view(changes@) =~= before.push(
                ChangedFileView { path: entry.name@, status: FileStatus::Modified },
            ));
        }
        i += 1;
    }
    Ok(changes)
}

} // verus!
