//! Synchronising a directory with a tree, one step at a time.
//!
//! The walk holds what is still to do and says what it needs next: the
//! names in a directory, the bytes of a stored object, the id of what the
//! working tree holds at a path, or a change to the working tree. The
//! caller does what is asked and reports back. In one directory the walk
//! first has deleted what the tree does not name, then takes the entries of
//! the tree in their order; a directory is made before the walk goes into
//! it.

use vstd::prelude::*;
use crate::blob::{read_blob, Blob};
use crate::checkout::{stale_names, sync_action, unguarded, SyncAction};
use crate::error::GitError;
use crate::objectreader::{sniff_result, ObjectKind, ObjectReader};
use crate::stream::zlib_inflate;
use crate::text::{join_dir, path_in, texts};
use crate::tree::{dir_set, entries_view, read_tree, Tree, TreeEntry, TreeEntryView};

verus! {

/// A directory that is being synchronised.
#[derive(Debug)]
pub struct SyncFrame {
    /// The path of the directory.
    pub path: String,
    /// The names still to delete; the last is next.
    pub delete: Vec<String>,
    /// The entries still to look at; the last is next.
    pub visit: Vec<TreeEntry>,
}

/// A directory that is being synchronised, as plain values.
pub struct SyncFrameView {
    pub path: Seq<char>,
    pub delete: Seq<Seq<char>>,
    pub visit: Seq<TreeEntryView>,
}

impl View for SyncFrame {
    type V = SyncFrameView;

    open spec fn view(&self) -> SyncFrameView {
        SyncFrameView {
            path: self.path@,
            delete: texts(self.delete@),
            visit: entries_view(self.visit@),
        }
    }
}

/// The frames as plain values.
pub open spec fn frames_view(frames: Seq<SyncFrame>) -> Seq<SyncFrameView> {
    frames.map_values(|f: SyncFrame| f@)
}

/// What a walk waits for.
#[derive(Debug)]
pub enum SyncWait {
    /// The names in the directory at `path`, which is to become `tree`.
    Names { path: String, tree: Tree },
    /// The bytes of the object that `entry` names, which belongs at `path`.
    Stored { path: String, entry: TreeEntry },
    /// The id of what the working tree holds at `path`, where `entry`
    /// belongs, whose object is of the kind `kind` and has the bytes
    /// `stored`.
    Current { path: String, entry: TreeEntry, kind: ObjectKind, stored: Vec<u8> },
    /// The directory at `path`, which is to become `tree`, to be made.
    Made { path: String, tree: Tree },
    /// A removal or a write to be done.
    Done,
    /// Nothing: the walk is over.
    Over,
}

/// A walk that synchronises a directory with a tree.
#[derive(Debug)]
pub struct SyncWalk {
    /// The directories that the walk is in, the innermost last.
    pub frames: Vec<SyncFrame>,
    /// What the walk waits for.
    pub wait: SyncWait,
}

/// What the caller reports to a walk.
#[derive(Debug)]
pub enum SyncEvent {
    /// The names that the directory holds.
    Names(Vec<String>),
    /// The bytes of the object's file, or that there is none.
    Stored(Option<Vec<u8>>),
    /// The id of what the working tree holds at the path, or that it holds
    /// nothing there.
    Current(Option<String>),
    /// That the change is made.
    Done,
}

/// What the caller is to do next for a walk.
#[derive(Debug)]
pub enum SyncAsk {
    /// Report the names in the directory at this path.
    List(String),
    /// Report the bytes of the file of the object with this id.
    Load(String),
    /// Report the id that the file at this path would be stored under.
    HashFile(String),
    /// Report the id that the directory at this path would be stored under.
    HashFolder(String),
    /// Remove what lies at this path, a file or a whole directory.
    Remove(String),
    /// Write these bytes to the file at this path.
    Write(String, Vec<u8>),
    /// Make the directory at this path, if it is not there.
    MakeDir(String),
    /// Nothing more: the directory is as the tree says.
    Finished,
    /// Give up with this error.
    Fail(GitError),
}

/// What a walk turns to next.
pub enum SyncMove {
    /// The removal of what lies at this path.
    Remove(Seq<char>),
    /// The entry that belongs at this path.
    Entry(Seq<char>, TreeEntryView),
    /// Nothing: all is done.
    Finished,
}

/// What a walk with these frames turns to next, and the frames it then has.
/// In the innermost directory it first removes what is to delete, then
/// takes up the entries; when nothing is left there it goes on with the
/// directory above.
pub open spec fn next_move(frames: Seq<SyncFrameView>) -> (Seq<SyncFrameView>, SyncMove)
    decreases frames.len(),
{
    if frames.len() == 0 {
        (frames, SyncMove::Finished)
    } else {
        let top = frames.last();
        if top.delete.len() > 0 {
            (
                frames.drop_last().push(
                    SyncFrameView { delete: top.delete.drop_last(), ..top },
                ),
                SyncMove::Remove(path_in(top.path, top.delete.last())),
            )
        } else if top.visit.len() > 0 {
            (
                frames.drop_last().push(SyncFrameView { visit: top.visit.drop_last(), ..top }),
                SyncMove::Entry(path_in(top.path, top.visit.last().name), top.visit.last()),
            )
        } else {
            next_move(frames.drop_last())
        }
    }
}

/// Whether a walk has turned to its next move: it has the frames that are
/// left, and asks for the removal, or for the bytes of the entry's object,
/// or for nothing more.
pub open spec fn has_moved(frames: Seq<SyncFrameView>, next: SyncWalk, ask: SyncAsk) -> bool {
    &&& frames_view(next.frames@) == next_move(frames).0
    &&& match next_move(frames).1 {
        SyncMove::Remove(path) => {
            &&& next.wait is Done
            &&& ask matches SyncAsk::Remove(p)
            &&& p@ == path
        },
        SyncMove::Entry(path, entry) => {
            &&& next.wait matches SyncWait::Stored { path: p, entry: e }
            &&& p@ == path
            &&& e@ == entry
            &&& ask matches SyncAsk::Load(id)
            &&& id@ == entry.hash
        },
        SyncMove::Finished => next.wait is Over && ask is Finished,
    }
}

/// Whether a walk has failed with the error: it is over, with the frames
/// it had.
pub open spec fn has_failed(
    frames: Seq<SyncFrameView>,
    next: SyncWalk,
    ask: SyncAsk,
    error: GitError,
) -> bool {
    frames_view(next.frames@) == frames && next.wait is Over && ask == SyncAsk::Fail(error)
}

/// Whether the event answers what the walk waits for.
pub open spec fn answers(wait: SyncWait, event: SyncEvent) -> bool {
    match wait {
        SyncWait::Names { .. } => event is Names,
        SyncWait::Stored { .. } => event is Stored,
        SyncWait::Current { .. } => event is Current,
        SyncWait::Made { .. } => event is Done,
        SyncWait::Done => event is Done,
        SyncWait::Over => false,
    }
}

/// The id that was reported, as plain text.
pub open spec fn id_view(id: Option<String>) -> Option<Seq<char>> {
    match id {
        Some(text) => Some(text@),
        None => None,
    }
}

/// Whether `next` and `ask` are what follows for `walk` from `event`.
///
/// The names of a directory open a frame: what the tree does not name is to
/// delete, and the entries whose name does not begin with `.git` are to
/// look at. The bytes of an entry's object tell its kind: a blob is held
/// against the file at the entry's path, a tree against the directory
/// there, and anything else is an error, as is an object that is missing
/// or corrupt. The id of what is there decides: what has the entry's id
/// stays; a file is written with the blob's content; a directory is made
/// and then listed, to be synchronised with the entry's tree. After a
/// change, and after an entry that stays, the walk turns to its next move.
pub open spec fn is_sync_step(
    walk: SyncWalk,
    event: SyncEvent,
    next: SyncWalk,
    ask: SyncAsk,
) -> bool {
    match (walk.wait, event) {
        (SyncWait::Names { path, tree }, SyncEvent::Names(names)) => has_moved(
            frames_view(walk.frames@).push(
                SyncFrameView {
                    path: path@,
                    delete: stale_names(tree@.entries, dir_set(texts(names@))).reverse(),
                    visit: unguarded(tree@.entries).reverse(),
                },
            ),
            next,
            ask,
        ),
        (SyncWait::Stored { path, entry }, SyncEvent::Stored(None)) => has_failed(
            frames_view(walk.frames@),
            next,
            ask,
            GitError::ObjectNotFound,
        ),
        (SyncWait::Stored { path, entry }, SyncEvent::Stored(Some(bytes))) => {
            match sniff_result(bytes@) {
                Err(e) => has_failed(frames_view(walk.frames@), next, ask, e),
                Ok(ObjectKind::Commit) => has_failed(
                    frames_view(walk.frames@),
                    next,
                    ask,
                    GitError::UnknownObjectType,
                ),
                Ok(kind) => {
                    &&& frames_view(next.frames@) == frames_view(walk.frames@)
                    &&& next.wait matches SyncWait::Current { path: p, entry: e, kind: k, stored }
                    &&& p@ == path@
                    &&& e@ == entry@
                    &&& k == kind
                    &&& stored@ == bytes@
                    &&& if kind == ObjectKind::Blob {
                        ask matches SyncAsk::HashFile(q) && q@ == path@
                    } else {
                        ask matches SyncAsk::HashFolder(q) && q@ == path@
                    }
                },
            }
        },
        (SyncWait::Current { path, entry, kind, stored }, SyncEvent::Current(current)) => {
            match sync_action(entry@, kind, id_view(current)) {
                Err(e) => has_failed(frames_view(walk.frames@), next, ask, e),
                Ok(SyncAction::Skip) => has_moved(frames_view(walk.frames@), next, ask),
                Ok(SyncAction::Keep) => has_moved(frames_view(walk.frames@), next, ask),
                Ok(SyncAction::WriteFile) => match read_blob(
                    entry.hash@,
                    Some(zlib_inflate(stored@)),
                ) {
                    Err(e) => has_failed(frames_view(walk.frames@), next, ask, e),
                    Ok(blob) => {
                        &&& frames_view(next.frames@) == frames_view(walk.frames@)
                        &&& next.wait is Done
                        &&& ask matches SyncAsk::Write(p, content)
                        &&& p@ == path@
                        &&& content@ == blob.content
                    },
                },
                Ok(SyncAction::SyncDir) => match read_tree(
                    entry.hash@,
                    Some(zlib_inflate(stored@)),
                ) {
                    Err(e) => has_failed(frames_view(walk.frames@), next, ask, e),
                    Ok(tree) => {
                        &&& frames_view(next.frames@) == frames_view(walk.frames@)
                        &&& next.wait matches SyncWait::Made { path: p, tree: t }
                        &&& p@ == path@
                        &&& t@ == tree
                        &&& ask matches SyncAsk::MakeDir(q)
                        &&& q@ == path@
                    },
                },
            }
        },
        (SyncWait::Made { path, tree }, SyncEvent::Done) => {
            &&& frames_view(next.frames@) == frames_view(walk.frames@)
            &&& next.wait matches SyncWait::Names { path: p, tree: t }
            &&& p@ == path@
            &&& t@ == tree@
            &&& ask matches SyncAsk::List(q)
            &&& q@ == path@
        },
        (SyncWait::Done, SyncEvent::Done) => has_moved(frames_view(walk.frames@), next, ask),
        _ => false,
    }
}

fn reversed_names(names: Vec<String>) -> (out: Vec<String>)
    ensures
        texts(out@) == texts(names@).reverse(),
{
    let ghost all = texts(names@);
    let mut rest = names;
    let mut out: Vec<String> = Vec::new();
    assert(texts(out@) =~= all.reverse().take(0));
    while rest.len() > 0
        invariant
            rest@.len() <= all.len(),
            texts(rest@) == all.take(rest@.len() as int),
            texts(out@) == all.reverse().take(all.len() - rest@.len()),
        decreases rest.len(),
    {
        let ghost n = rest@.len();
        let ghost prev = texts(out@);
        let ghost rest_before = rest@;
        match rest.pop() {
            Some(name) => {
                let ghost view = name@;
                out.push(name);
                proof {
                    assert(view == texts(rest_before)[n - 1]);
                    assert(view == all[n - 1]);
                    assert(texts(rest@) =~= all.take(n - 1));
                    assert(texts(out@) =~= prev.push(view));
                    assert(all.reverse().take(all.len() - n + 1) =~= all.reverse().take(
                        all.len() - n,
                    ).push(all[n - 1]));
                }
            },
            None => {},
        }
    }
    assert(all.reverse().take(all.len() as int) =~= all.reverse());
    out
}

fn reversed_entries(entries: Vec<TreeEntry>) -> (out: Vec<TreeEntry>)
    ensures
        entries_view(out@) == entries_view(entries@).reverse(),
{
    let ghost all = entries_view(entries@);
    let mut rest = entries;
    let mut out: Vec<TreeEntry> = Vec::new();
    assert(entries_view(out@) =~= all.reverse().take(0));
    while rest.len() > 0
        invariant
            rest@.len() <= all.len(),
            entries_view(rest@) == all.take(rest@.len() as int),
            entries_view(out@) == all.reverse().take(all.len() - rest@.len()),
        decreases rest.len(),
    {
        let ghost n = rest@.len();
        let ghost prev = entries_view(out@);
        let ghost rest_before = rest@;
        match rest.pop() {
            Some(entry) => {
                let ghost view = entry@;
                out.push(entry);
                proof {
                    assert(view == entries_view(rest_before)[n - 1]);
                    assert(view == all[n - 1]);
                    assert(entries_view(rest@) =~= all.take(n - 1));
                    assert(entries_view(out@) =~= prev.push(view));
                    assert(all.reverse().take(all.len() - n + 1) =~= all.reverse().take(
                        all.len() - n,
                    ).push(all[n - 1]));
                }
            },
            None => {},
        }
    }
    assert(all.reverse().take(all.len() as int) =~= all.reverse());
    out
}

fn settle(given: Vec<SyncFrame>) -> (r: (SyncWalk, SyncAsk))
    ensures
        has_moved(frames_view(given@), r.0, r.1),
{
    let ghost start = frames_view(given@);
    let mut frames = given;
    loop
        invariant
            start == frames_view(given@),
            next_move(frames_view(frames@)) == next_move(start),
        decreases frames.len(),
    {
        let ghost before = frames_view(frames@);
        match frames.pop() {
            None => {
                assert(next_move(before) == (before, SyncMove::Finished));
                assert(frames_view(frames@) =~= before);
                return (SyncWalk { frames, wait: SyncWait::Over }, SyncAsk::Finished);
            },
            Some(top) => {
                let ghost top_view = top@;
                assert(top_view == before.last());
                assert(frames_view(frames@) =~= before.drop_last());
                let mut top = top;
                if top.delete.len() > 0 {
                    let ghost names = texts(top.delete@);
                    match top.delete.pop() {
                        Some(name) => {
                            let path = join_dir(top.path.as_str(), name.as_str());
                            proof {
                                assert(name@ == names.last());
                                assert(texts(top.delete@) =~= names.drop_last());
                            }
                            let ghost rest = frames_view(frames@);
                            let ghost pushed = top@;
                            frames.push(top);
                            proof {
                                assert(frames_view(frames@) =~= rest.push(pushed));
                                assert(pushed == SyncFrameView {
                                    delete: top_view.delete.drop_last(),
                                    ..top_view
                                });
                                assert(next_move(before).0 == before.drop_last().push(pushed));
                                assert(next_move(before).1 == SyncMove::Remove(
                                    path_in(top_view.path, top_view.delete.last()),
                                ));
                            }
                            return (
                                SyncWalk { frames, wait: SyncWait::Done },
                                SyncAsk::Remove(path),
                            );
                        },
                        None => {},
                    }
                } else if top.visit.len() > 0 {
                    let ghost entries = entries_view(top.visit@);
                    match top.visit.pop() {
                        Some(entry) => {
                            let path = join_dir(top.path.as_str(), entry.name.as_str());
                            let id = entry.hash.clone();
                            proof {
                                assert(entry@ == entries.last());
                                assert(entries_view(top.visit@) =~= entries.drop_last());
                            }
                            let ghost rest = frames_view(frames@);
                            let ghost pushed = top@;
                            frames.push(top);
                            proof {
                                assert(frames_view(frames@) =~= rest.push(pushed));
                                assert(pushed == SyncFrameView {
                                    visit: top_view.visit.drop_last(),
                                    ..top_view
                                });
                                assert(next_move(before).0 == before.drop_last().push(pushed));
                                assert(next_move(before).1 == SyncMove::Entry(
                                    path_in(top_view.path, top_view.visit.last().name),
                                    top_view.visit.last(),
                                ));
                            }
                            return (
                                SyncWalk { frames, wait: SyncWait::Stored { path, entry } },
                                SyncAsk::Load(id),
                            );
                        },
                        None => {},
                    }
                }
            },
        }
    }
}

fn fail(frames: Vec<SyncFrame>, error: GitError) -> (r: (SyncWalk, SyncAsk))
    ensures
        has_failed(frames_view(frames@), r.0, r.1, error),
{
    (SyncWalk { frames, wait: SyncWait::Over }, SyncAsk::Fail(error))
}

impl SyncWalk {
    /// Starts to synchronise the directory at `path` with `tree`: the names
    /// in the directory are asked for.
    pub fn start(tree: Tree, path: &str) -> (r: (SyncWalk, SyncAsk))
        ensures
            r.0.frames@.len() == 0,
            r.0.wait matches SyncWait::Names { path: p, tree: t } && p@ == path@ && t == tree,
            r.1 matches SyncAsk::List(q) && q@ == path@,
            in_order(r.0),
    {
        (
            SyncWalk { frames: Vec::new(), wait: SyncWait::Names { path: path.to_owned(), tree } },
            SyncAsk::List(path.to_owned()),
        )
    }

    /// Takes the next step of a walk.
    pub fn step(self, event: SyncEvent) -> (r: (SyncWalk, SyncAsk))
        requires
            answers(self.wait, event),
        ensures
            is_sync_step(self, event, r.0, r.1),
    {
        let ghost before = frames_view(self.frames@);
        let mut frames = self.frames;
        match (self.wait, event) {
            (SyncWait::Names { path, tree }, SyncEvent::Names(names)) => {
                let plan = tree.sync_tree_to_dir(&names);
                let frame = SyncFrame {
                    path,
                    delete: reversed_names(plan.delete),
                    visit: reversed_entries(plan.visit),
                };
                let ghost view = frame@;
                frames.push(frame);
                assert(frames_view(frames@) =~= before.push(view));
                settle(frames)
            },
            (SyncWait::Stored { path, entry }, SyncEvent::Stored(None)) => {
                fail(frames, GitError::ObjectNotFound)
            },
            (SyncWait::Stored { path, entry }, SyncEvent::Stored(Some(bytes))) => {
                match ObjectReader::find_object_type(bytes.as_slice()) {
                    Err(e) => fail(frames, e),
                    Ok(ObjectKind::Commit) => fail(frames, GitError::UnknownObjectType),
                    Ok(ObjectKind::Blob) => {
                        let ask = SyncAsk::HashFile(path.clone());
                        (
                            SyncWalk {
                                frames,
                                wait: SyncWait::Current {
                                    path,
                                    entry,
                                    kind: ObjectKind::Blob,
                                    stored: bytes,
                                },
                            },
                            ask,
                        )
                    },
                    Ok(ObjectKind::Tree) => {
                        let ask = SyncAsk::HashFolder(path.clone());
                        (
                            SyncWalk {
                                frames,
                                wait: SyncWait::Current {
                                    path,
                                    entry,
                                    kind: ObjectKind::Tree,
                                    stored: bytes,
                                },
                            },
                            ask,
                        )
                    },
                }
            },
            (SyncWait::Current { path, entry, kind, stored }, SyncEvent::Current(current)) => {
                let action = match &current {
                    Some(id) => Tree::sync_entry(&entry, kind, Some(id.as_str())),
                    None => Tree::sync_entry(&entry, kind, None),
                };
                match action {
                    Err(e) => fail(frames, e),
                    Ok(SyncAction::Skip) => settle(frames),
                    Ok(SyncAction::Keep) => settle(frames),
                    Ok(SyncAction::WriteFile) => {
                        match Blob::from_hash(entry.hash.as_str(), Some(stored.as_slice())) {
                            Err(e) => fail(frames, e),
                            Ok(blob) => (
                                SyncWalk { frames, wait: SyncWait::Done },
                                SyncAsk::Write(path, blob.content),
                            ),
                        }
                    },
                    Ok(SyncAction::SyncDir) => {
                        match Tree::from_hash(entry.hash.as_str(), Some(stored.as_slice())) {
                            Err(e) => fail(frames, e),
                            Ok(tree) => {
                                let ask = SyncAsk::MakeDir(path.clone());
                                (SyncWalk { frames, wait: SyncWait::Made { path, tree } }, ask)
                            },
                        }
                    },
                }
            },
            (SyncWait::Made { path, tree }, SyncEvent::Done) => {
                let ask = SyncAsk::List(path.clone());
                (SyncWalk { frames, wait: SyncWait::Names { path, tree } }, ask)
            },
            (SyncWait::Done, SyncEvent::Done) => settle(frames),
            _ => fail(frames, GitError::ObjectNotFound),
        }
    }
}


/// Whether nothing is left to delete in any of the directories.
pub open spec fn nothing_to_delete(frames: Seq<SyncFrameView>) -> bool {
    forall|i: int| 0 <= i < frames.len() ==> (#[trigger] frames[i]).delete.len() == 0
}

/// Whether nothing is left to delete in any of the directories above the
/// innermost.
pub open spec fn nothing_to_delete_above(frames: Seq<SyncFrameView>) -> bool {
    forall|i: int| 0 <= i < frames.len() - 1 ==> (#[trigger] frames[i]).delete.len() == 0
}

/// Whether the walk keeps the order of its work: nothing is left to delete
/// in a directory that the walk has gone below, nor in the directory whose
/// entry it is looking at.
pub open spec fn in_order(walk: SyncWalk) -> bool {
    let frames = frames_view(walk.frames@);
    if walk.wait is Done || walk.wait is Over {
        nothing_to_delete_above(frames)
    } else {
        nothing_to_delete(frames)
    }
}

/// In a directory the walk removes what is to delete before it takes up an
/// entry: while a name is left to delete there, its next move is a removal.
pub proof fn lemma_deletes_come_first(frames: Seq<SyncFrameView>)
    requires
        frames.len() > 0,
        frames.last().delete.len() > 0,
    ensures
        next_move(frames).1 is Remove,
{
}

/// The next move leaves nothing to delete above the innermost directory,
/// and where it is no removal, nothing in that directory either; where
/// nothing was left to delete at all, it is no removal.
pub proof fn lemma_next_move_in_order(frames: Seq<SyncFrameView>)
    requires
        nothing_to_delete_above(frames),
    ensures
        nothing_to_delete_above(next_move(frames).0),
        !(next_move(frames).1 is Remove) ==> nothing_to_delete(next_move(frames).0),
        nothing_to_delete(frames) ==> !(next_move(frames).1 is Remove),
    decreases frames.len(),
{
    if frames.len() > 0 {
        let top = frames.last();
        let rest = frames.drop_last();
        assert forall|i: int| 0 <= i < rest.len() implies (#[trigger] rest[i]).delete.len() == 0 by {
            assert(rest[i] == frames[i]);
        }
        if top.delete.len() > 0 {
            let pushed = SyncFrameView { delete: top.delete.drop_last(), ..top };
            assert forall|i: int| 0 <= i < rest.push(pushed).len() - 1 implies (
            #[trigger] rest.push(pushed)[i]).delete.len() == 0 by {
                assert(rest.push(pushed)[i] == rest[i]);
            }
        } else if top.visit.len() > 0 {
            let pushed = SyncFrameView { visit: top.visit.drop_last(), ..top };
            assert forall|i: int| 0 <= i < rest.push(pushed).len() implies (
            #[trigger] rest.push(pushed)[i]).delete.len() == 0 by {
                if i < rest.len() {
                    assert(rest.push(pushed)[i] == rest[i]);
                }
            }
        } else {
            lemma_next_move_in_order(rest);
        }
    }
}

/// A walk that keeps the order of its work keeps it with every step. So
/// the walk never looks at an entry, writes a file or makes a directory
/// where something is still to delete in that directory or above.
pub proof fn lemma_walk_stays_in_order(
    walk: SyncWalk,
    event: SyncEvent,
    next: SyncWalk,
    ask: SyncAsk,
)
    requires
        in_order(walk),
        is_sync_step(walk, event, next, ask),
    ensures
        in_order(next),
{
    let frames = frames_view(walk.frames@);
    match (walk.wait, event) {
        (SyncWait::Names { path, tree }, SyncEvent::Names(names)) => {
            let pushed = SyncFrameView {
                path: path@,
                delete: stale_names(tree@.entries, dir_set(texts(names@))).reverse(),
                visit: unguarded(tree@.entries).reverse(),
            };
            assert forall|i: int| 0 <= i < frames.push(pushed).len() - 1 implies (
            #[trigger] frames.push(pushed)[i]).delete.len() == 0 by {
                assert(frames.push(pushed)[i] == frames[i]);
            }
            lemma_next_move_in_order(frames.push(pushed));
        },
        (SyncWait::Current { path, entry, kind, stored }, SyncEvent::Current(current)) => {
            lemma_next_move_in_order(frames);
        },
        (SyncWait::Done, SyncEvent::Done) => {
            lemma_next_move_in_order(frames);
        },
        _ => {},
    }
}

/// The walk lists a directory only after it has had it made: but for the
/// first step, it asks for the names of a directory only when the making
/// of that directory is reported.
pub proof fn lemma_made_before_listed(
    walk: SyncWalk,
    event: SyncEvent,
    next: SyncWalk,
    ask: SyncAsk,
)
    requires
        is_sync_step(walk, event, next, ask),
        ask is List,
    ensures
        walk.wait matches SyncWait::Made { path, tree } && ask->List_0@ == path@,
        event is Done,
{
}

/// A walk through a directory that is as the tree says changes nothing.
/// Where a directory holds only names of the tree, and `.git` or
/// `target`, and where the working tree holds each entry's object under
/// its path, the walk asks for no removal, no write and no directory.
pub proof fn lemma_walk_is_quiet(walk: SyncWalk, event: SyncEvent, next: SyncWalk, ask: SyncAsk)
    requires
        in_order(walk),
        is_sync_step(walk, event, next, ask),
        walk.wait matches SyncWait::Names { path, tree } ==> event matches SyncEvent::Names(names)
            && forall|i: int|
            0 <= i < names@.len() ==> crate::checkout::has_name(
                tree@.entries,
                #[trigger] texts(names@)[i],
            ) || crate::tree::is_excluded(texts(names@)[i]),
        walk.wait matches SyncWait::Current { path, entry, kind, stored } ==> event
            matches SyncEvent::Current(current) && id_view(current) == Some(entry.hash@),
        walk.wait is Names || walk.wait is Current,
    ensures
        !(ask is Remove),
        !(ask is Write),
        !(ask is MakeDir),
{
    let frames = frames_view(walk.frames@);
    match (walk.wait, event) {
        (SyncWait::Names { path, tree }, SyncEvent::Names(names)) => {
            let entry = TreeEntryView { mode: Seq::empty(), name: Seq::empty(), hash: Seq::empty() };
            crate::checkout::lemma_sync_is_idempotent(
                tree@.entries,
                texts(names@),
                entry,
                ObjectKind::Blob,
            );
            let pushed = SyncFrameView {
                path: path@,
                delete: stale_names(tree@.entries, dir_set(texts(names@))).reverse(),
                visit: unguarded(tree@.entries).reverse(),
            };
            assert forall|i: int| 0 <= i < frames.push(pushed).len() implies (
            #[trigger] frames.push(pushed)[i]).delete.len() == 0 by {
                if i < frames.len() {
                    assert(frames.push(pushed)[i] == frames[i]);
                }
            }
            lemma_next_move_in_order(frames.push(pushed));
        },
        (SyncWait::Current { path, entry, kind, stored }, SyncEvent::Current(current)) => {
            lemma_next_move_in_order(frames);
        },
        _ => {},
    }
}

} // verus!
