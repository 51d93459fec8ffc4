//! Checkout: bringing the working tree to the state of a branch.
//!
//! The working tree and the object store lie on disk, so checkout is laid
//! out as decisions: what to delete in a directory, what to do with one tree
//! entry, and what step to take next. The caller carries the steps out and
//! reports what it found. The steps that bring a directory to the state of
//! a tree are those of a walk, in `sync`.

use vstd::prelude::*;
use crate::commit::{read_commit, Commit};
use crate::error::GitError;
use crate::head::{branches_dir, head_content, trimmed, Head};
use crate::object_finder::{find_object_path, object_path};
use crate::objectid::{is_object_id, is_valid_object_id};
use crate::objectreader::ObjectKind;
use crate::stream::zlib_inflate;
use crate::text::{occurs_at, same_text, starts_with, text_of, texts};
use crate::tree::{
    dir_set, entries_view, git_dir, lemma_dir_set, read_tree, Tree, TreeEntry, TreeEntryView,
};

verus! {

/// What to do with one entry of a tree while a directory is synchronised.
#[derive(Clone, Copy, Debug, PartialEq, Eq, Structural)]
pub enum SyncAction {
    /// Pass over the entry: its name begins with `.git`.
    Skip,
    /// Leave the file or directory as it is: its content has the entry's id.
    Keep,
    /// Write the blob's content to the file.
    WriteFile,
    /// Make the directory, if it is not there, and synchronise it with the
    /// entry's tree.
    SyncDir,
}

/// What to do in one directory.
#[derive(Debug)]
pub struct SyncPlan {
    /// The names to delete, files and whole directories.
    pub delete: Vec<String>,
    /// The entries to look at, in the order of the tree.
    pub visit: Vec<TreeEntry>,
}

/// Whether the name begins with `.git`.
pub open spec fn is_guarded(name: Seq<char>) -> bool {
    occurs_at(name, 0, git_dir())
}

/// Whether one of the entries has the name.
pub open spec fn has_name(entries: Seq<TreeEntryView>, name: Seq<char>) -> bool {
    exists|i: int| 0 <= i < entries.len() && (#[trigger] entries[i]).name == name
}

/// The names that no entry has, in their order.
pub open spec fn stale_names(entries: Seq<TreeEntryView>, names: Seq<Seq<char>>) -> Seq<Seq<char>>
    decreases names.len(),
{
    if names.len() == 0 {
        Seq::empty()
    } else if has_name(entries, names.last()) {
        stale_names(entries, names.drop_last())
    } else {
        stale_names(entries, names.drop_last()).push(names.last())
    }
}

/// The entries whose name does not begin with `.git`, in their order.
pub open spec fn unguarded(entries: Seq<TreeEntryView>) -> Seq<TreeEntryView>
    decreases entries.len(),
{
    if entries.len() == 0 {
        Seq::empty()
    } else if is_guarded(entries.last().name) {
        unguarded(entries.drop_last())
    } else {
        unguarded(entries.drop_last()).push(entries.last())
    }
}

/// What to do with an entry of the given kind, where the working tree
/// holds content of the id `current` under its name, or nothing.
///
/// A name that begins with `.git` is passed over. A blob is written unless
/// the file is there with the blob's id; a tree is synchronised unless the
/// directory is there with the tree's id. An object of another kind has no
/// place in a tree.
pub open spec fn sync_action(
    entry: TreeEntryView,
    kind: ObjectKind,
    current: Option<Seq<char>>,
) -> Result<SyncAction, GitError> {
    if is_guarded(entry.name) {
        Ok(SyncAction::Skip)
    } else {
        match kind {
            ObjectKind::Blob => if current == Some(entry.hash) {
                Ok(SyncAction::Keep)
            } else {
                Ok(SyncAction::WriteFile)
            },
            ObjectKind::Tree => if current == Some(entry.hash) {
                Ok(SyncAction::Keep)
            } else {
                Ok(SyncAction::SyncDir)
            },
            ObjectKind::Commit => Err(GitError::UnknownObjectType),
        }
    }
}

/// `stale_names` holds exactly the names that no entry has.
pub proof fn lemma_stale_names(entries: Seq<TreeEntryView>, names: Seq<Seq<char>>)
    ensures
        forall|name: Seq<char>| #[trigger]
            stale_names(entries, names).contains(name) <==> names.contains(name) && !has_name(
                entries,
                name,
            ),
    decreases names.len(),
{
    if names.len() > 0 {
        let front = stale_names(entries, names.drop_last());
        let out = stale_names(entries, names);
        lemma_stale_names(entries, names.drop_last());
        assert forall|name: Seq<char>| #[trigger]
            out.contains(name) <==> names.contains(name) && !has_name(entries, name) by {
            if names.contains(name) {
                let at = choose|at: int| 0 <= at < names.len() && names[at] == name;
                if at < names.len() - 1 {
                    assert(names.drop_last()[at] == name);
                }
            }
            if names.drop_last().contains(name) {
                let at = choose|at: int|
                    0 <= at < names.drop_last().len() && names.drop_last()[at] == name;
                assert(names[at] == name);
            }
            if front.contains(name) && out.len() > front.len() {
                let at = choose|at: int| 0 <= at < front.len() && front[at] == name;
                assert(out[at] == name);
            }
            if out.contains(name) && !front.contains(name) {
                let at = choose|at: int| 0 <= at < out.len() && out[at] == name;
                if at < front.len() {
                    assert(front[at] == name);
                }
                assert(names[names.len() - 1] == name);
            }
            if names.last() == name && !has_name(entries, name) {
                assert(out[front.len() as int] == name);
            }
        }
    }
}

/// A second synchronisation changes nothing: in a directory that holds
/// only names of the tree, and `.git` or `target`, nothing is deleted; and
/// an entry whose content is there under its id is neither written nor
/// descended into.
pub proof fn lemma_sync_is_idempotent(
    entries: Seq<TreeEntryView>,
    names: Seq<Seq<char>>,
    entry: TreeEntryView,
    kind: ObjectKind,
)
    requires
        forall|i: int|
            0 <= i < names.len() ==> has_name(entries, #[trigger] names[i]) || crate::tree::is_excluded(
                names[i],
            ),
    ensures
        stale_names(entries, dir_set(names)).len() == 0,
        sync_action(entry, kind, Some(entry.hash)) != Ok::<SyncAction, GitError>(
            SyncAction::WriteFile,
        ),
        sync_action(entry, kind, Some(entry.hash)) != Ok::<SyncAction, GitError>(SyncAction::SyncDir),
{
    let stale = stale_names(entries, dir_set(names));
    lemma_dir_set(names);
    lemma_stale_names(entries, dir_set(names));
    if stale.len() > 0 {
        let name = stale[0];
        assert(stale.contains(name));
        assert(dir_set(names).contains(name));
        let at = choose|at: int| 0 <= at < names.len() && names[at] == name;
        assert(has_name(entries, names[at]) || crate::tree::is_excluded(names[at]));
    }
}

fn entry_named(entries: &Vec<TreeEntry>, name: &str) -> (r: bool)
    ensures
        r == has_name(entries_view(entries@), name@),
{
    let mut i: usize = 0;
    while i < entries.len()
        invariant
            i <= entries.len(),
            forall|j: int| 0 <= j < i ==> (#[trigger] entries_view(entries@)[j]).name != name@,
        decreases entries.len() - i,
    {
        if same_text(entries[i].name.as_str(), name) {
            assert(entries_view(entries@)[i as int].name == name@);
            return true;
        }
        i += 1;
    }
    false
}

impl Tree {
    /// What to do in the directory that this tree stands for, given the
    /// names that the directory holds now: delete what the tree does not
    /// name, but for `.git` and `target`, and look at each entry whose name
    /// does not begin with `.git`.
    pub fn sync_tree_to_dir(&self, dir_names: &Vec<String>) -> (plan: SyncPlan)
        ensures
            texts(plan.delete@) == stale_names(self@.entries, dir_set(texts(dir_names@))),
            entries_view(plan.visit@) == unguarded(self@.entries),
    {
        let present = Tree::read_dir_to_set(dir_names);
        let ghost set = texts(present@);
        let mut delete: Vec<String> = Vec::new();
        let mut i: usize = 0;
        assert(set.take(0) =~= Seq::empty());
        assert(texts(delete@) =~= Seq::empty());
        while i < present.len()
            invariant
                i <= present.len(),
                set == texts(present@),
                texts(delete@) == stale_names(self@.entries, set.take(i as int)),
            decreases present.len() - i,
        {
            proof {
                assert(set.take(i + 1).drop_last() =~= set.take(i as int));
                assert(set.take(i + 1).last() == present@[i as int]@);
            }
            if !entry_named(&self.entries, present[i].as_str()) {
                let ghost before = texts(delete@);
                delete.push(present[i].clone());
                assert(texts(delete@) =~= before.push(present@[i as int]@));
            }
            i += 1;
        }
        assert(set.take(set.len() as int) =~= set);
        let ghost all = self@.entries;
        let git: Vec<char> = vec!['.', 'g', 'i', 't'];
        assert(git@ =~= git_dir());
        let mut visit: Vec<TreeEntry> = Vec::new();
        let mut k: usize = 0;
        assert(all.take(0) =~= Seq::empty());
        assert(entries_view(visit@) =~= Seq::empty());
        while k < self.entries.len()
            invariant
                k <= self.entries.len(),
                all == self@.entries,
                git@ == git_dir(),
                entries_view(visit@) == unguarded(all.take(k as int)),
            decreases self.entries.len() - k,
        {
            proof {
                assert(all.take(k + 1).drop_last() =~= all.take(k as int));
                assert(all.take(k + 1).last() == self.entries@[k as int]@);
            }
            if !starts_with(self.entries[k].name.as_str(), git.as_slice()) {
                let ghost before = entries_view(visit@);
                visit.push(self.entries[k].copy());
                assert(entries_view(visit@) =~= before.push(self.entries@[k as int]@));
            }
            k += 1;
        }
        assert(all.take(all.len() as int) =~= all);
        SyncPlan { delete, visit }
    }

    /// What to do with one entry, given the kind of the object it names and
    /// the id of what the working tree holds under its name, if anything.
    pub fn sync_entry(entry: &TreeEntry, kind: ObjectKind, current: Option<&str>) -> (r: Result<
        SyncAction,
        GitError,
    >)
        ensures
            r == sync_action(
                entry@,
                kind,
                match current {
                    Some(id) => Some(id@),
                    None => None,
                },
            ),
    {
        let git: Vec<char> = vec!['.', 'g', 'i', 't'];
        assert(git@ =~= git_dir());
        if starts_with(entry.name.as_str(), git.as_slice()) {
            return Ok(SyncAction::Skip);
        }
        let same = match current {
            Some(id) => same_text(id, entry.hash.as_str()),
            None => false,
        };
        match kind {
            ObjectKind::Blob => if same {
                Ok(SyncAction::Keep)
            } else {
                Ok(SyncAction::WriteFile)
            },
            ObjectKind::Tree => if same {
                Ok(SyncAction::Keep)
            } else {
                Ok(SyncAction::SyncDir)
            },
            ObjectKind::Commit => Err(GitError::UnknownObjectType),
        }
    }
}

/// Where a checkout stands.
#[derive(Debug)]
pub enum CheckoutState {
    /// The file of the branch is being read.
    ReadingRef { branch: String },
    /// The commit that the branch names is being read.
    ReadingCommit { branch: String, commit: String },
    /// The tree of that commit is being read.
    ReadingTree { branch: String, tree: String },
    /// The working tree is being synchronised with that tree.
    Syncing { branch: String },
    /// The checkout is over and HEAD names the branch.
    Done,
    /// The checkout has failed; HEAD is as it was.
    Failed,
}

/// What the caller reports to a checkout.
#[derive(Debug)]
pub enum CheckoutEvent {
    /// The bytes of the file that was asked for, or that there is none.
    File(Option<Vec<u8>>),
    /// How the synchronisation of the working tree ended.
    Synced(Result<(), GitError>),
}

/// What the caller is to do next in a checkout.
#[derive(Debug)]
pub enum CheckoutAction {
    /// Read the file at this path and report its bytes.
    ReadFile(String),
    /// Synchronise the root of the working tree with this tree, as a
    /// `SyncWalk` tells, and report how it ended.
    Sync(Tree),
    /// Write this content to the HEAD file; the checkout is over.
    WriteHead(String),
    /// Give up with this error.
    Fail(GitError),
}

/// Whether the event answers what the state waits for.
pub open spec fn expects(state: CheckoutState, event: CheckoutEvent) -> bool {
    match state {
        CheckoutState::ReadingRef { .. } => event is File,
        CheckoutState::ReadingCommit { .. } => event is File,
        CheckoutState::ReadingTree { .. } => event is File,
        CheckoutState::Syncing { .. } => event is Synced,
        CheckoutState::Done => false,
        CheckoutState::Failed => false,
    }
}

/// What inflating the bytes of a file gives, where there is a file.
pub open spec fn inflated(file: Option<Vec<u8>>) -> Option<Option<Seq<u8>>> {
    match file {
        Some(bytes) => Some(zlib_inflate(bytes@)),
        None => None,
    }
}

/// Whether the step is the right one to take in `state` after `event`.
///
/// The file of the branch gives the id of a commit; the commit gives the id
/// of a tree; the tree is what the working tree is synchronised with; and
/// only after that has gone well is HEAD written. A file that is missing, or
/// that holds no id, counts as an object that is not found; an object that
/// cannot be read, or a synchronisation that fails, ends the checkout with
/// its error.
pub open spec fn is_next_step(
    state: CheckoutState,
    event: CheckoutEvent,
    next: CheckoutState,
    action: CheckoutAction,
) -> bool {
    match (state, event) {
        (CheckoutState::ReadingRef { branch }, CheckoutEvent::File(None)) => {
            next is Failed && action == CheckoutAction::Fail(GitError::ObjectNotFound)
        },
        (CheckoutState::ReadingRef { branch }, CheckoutEvent::File(Some(content))) => {
            let id = trimmed(text_of(content@));
            if is_object_id(id) {
                &&& next matches CheckoutState::ReadingCommit { branch: b, commit }
                &&& b@ == branch@
                &&& commit@ == id
                &&& action matches CheckoutAction::ReadFile(path)
                &&& path@ == object_path(id)
            } else {
                next is Failed && action == CheckoutAction::Fail(GitError::ObjectNotFound)
            }
        },
        (CheckoutState::ReadingCommit { branch, commit }, CheckoutEvent::File(file)) => {
            match read_commit(commit@, inflated(file)) {
                Err(e) => next is Failed && action == CheckoutAction::Fail(e),
                Ok(c) => if is_object_id(c.tree) {
                    &&& next matches CheckoutState::ReadingTree { branch: b, tree }
                    &&& b@ == branch@
                    &&& tree@ == c.tree
                    &&& action matches CheckoutAction::ReadFile(path)
                    &&& path@ == object_path(c.tree)
                } else {
                    next is Failed && action == CheckoutAction::Fail(GitError::ObjectNotFound)
                },
            }
        },
        (CheckoutState::ReadingTree { branch, tree }, CheckoutEvent::File(file)) => {
            match read_tree(tree@, inflated(file)) {
                Err(e) => next is Failed && action == CheckoutAction::Fail(e),
                Ok(t) => {
                    &&& next matches CheckoutState::Syncing { branch: b }
                    &&& b@ == branch@
                    &&& action matches CheckoutAction::Sync(loaded)
                    &&& loaded@ == t
                },
            }
        },
        (CheckoutState::Syncing { branch }, CheckoutEvent::Synced(Ok(_))) => {
            &&& next is Done
            &&& action matches CheckoutAction::WriteHead(content)
            &&& content@ == head_content(branch@)
        },
        (CheckoutState::Syncing { branch }, CheckoutEvent::Synced(Err(e))) => {
            next is Failed && action == CheckoutAction::Fail(e)
        },
        _ => false,
    }
}

/// HEAD is written only when the working tree has been synchronised
/// without error, and then the checkout is over.
pub proof fn lemma_head_moves_last(
    state: CheckoutState,
    event: CheckoutEvent,
    next: CheckoutState,
    action: CheckoutAction,
)
    requires
        is_next_step(state, event, next, action),
        action is WriteHead,
    ensures
        state is Syncing,
        event matches CheckoutEvent::Synced(Ok(_)),
        next is Done,
{
}

/// Starts the checkout of `branch`: the file of the branch is to be read.
pub fn checkout(branch: &str) -> (r: (CheckoutState, CheckoutAction))
    ensures
        r.0 matches CheckoutState::ReadingRef { branch: b } && b@ == branch@,
        r.1 matches CheckoutAction::ReadFile(path) && path@ == branches_dir() + branch@,
{
    (
        CheckoutState::ReadingRef { branch: branch.to_owned() },
        CheckoutAction::ReadFile(Head::branch_path(branch)),
    )
}

/// Takes the next step of a checkout.
pub fn checkout_step(state: CheckoutState, event: CheckoutEvent) -> (r: (
    CheckoutState,
    CheckoutAction,
))
    requires
        expects(state, event),
    ensures
        is_next_step(state, event, r.0, r.1),
{
    match (state, event) {
        (CheckoutState::ReadingRef { branch }, CheckoutEvent::File(None)) => {
            (CheckoutState::Failed, CheckoutAction::Fail(GitError::ObjectNotFound))
        },
        (CheckoutState::ReadingRef { branch }, CheckoutEvent::File(Some(content))) => {
            let head = Head::from_branch(branch.as_str(), content.as_slice());
            if is_valid_object_id(head.head_hash.as_str()) {
                let path = find_object_path(head.head_hash.as_str());
                (
                    CheckoutState::ReadingCommit { branch, commit: head.head_hash },
                    CheckoutAction::ReadFile(path),
                )
            } else {
                (CheckoutState::Failed, CheckoutAction::Fail(GitError::ObjectNotFound))
            }
        },
        (CheckoutState::ReadingCommit { branch, commit }, CheckoutEvent::File(file)) => {
            let loaded = match &file {
                Some(bytes) => Commit::from_hash(commit.as_str(), Some(bytes.as_slice())),
                None => Commit::from_hash(commit.as_str(), None),
            };
            match loaded {
                Err(e) => (CheckoutState::Failed, CheckoutAction::Fail(e)),
                Ok(c) => {
                    if is_valid_object_id(c.tree.as_str()) {
                        let path = find_object_path(c.tree.as_str());
                        (
                            CheckoutState::ReadingTree { branch, tree: c.tree },
                            CheckoutAction::ReadFile(path),
                        )
                    } else {
                        (CheckoutState::Failed, CheckoutAction::Fail(GitError::ObjectNotFound))
                    }
                },
            }
        },
        (CheckoutState::ReadingTree { branch, tree }, CheckoutEvent::File(file)) => {
            let loaded = match &file {
                Some(bytes) => Tree::from_hash(tree.as_str(), Some(bytes.as_slice())),
                None => Tree::from_hash(tree.as_str(), None),
            };
            match loaded {
                Err(e) => (CheckoutState::Failed, CheckoutAction::Fail(e)),
                Ok(t) => (CheckoutState::Syncing { branch }, CheckoutAction::Sync(t)),
            }
        },
        (CheckoutState::Syncing { branch }, CheckoutEvent::Synced(Ok(_))) => {
            let content = Head::update_head_to_branch(branch.as_str());
            (CheckoutState::Done, CheckoutAction::WriteHead(content))
        },
        (CheckoutState::Syncing { branch }, CheckoutEvent::Synced(Err(e))) => {
            (CheckoutState::Failed, CheckoutAction::Fail(e))
        },
        _ => (CheckoutState::Failed, CheckoutAction::Fail(GitError::ObjectNotFound)),
    }
}

} // verus!
