//! Hashing a directory of the working tree, one step at a time.
//!
//! The walk says what it needs next, the listing of a directory or the
//! content of a file, and the caller reports it. What lies in a directory
//! is hashed before the directory itself; at the end the walk gives the id
//! that the directory it started with would be stored under as a tree.

use vstd::prelude::*;
use crate::blob::{blob_id, compute_file_hash};
use crate::objectid::is_object_id;
use crate::text::{join_dir, path_in};
use crate::tree::{
    folder_entries, ids_well_formed, is_excluded, is_excluded_name, items_view, tree_id,
    DirItem, DirItemView, Tree,
};
use crate::untracked::{listing_view, Listed, ListedView};

verus! {

/// A directory that is being hashed.
#[derive(Debug)]
pub struct FolderFrame {
    /// The path of the directory.
    pub path: String,
    /// Its name in the directory above.
    pub name: String,
    /// What it lists that is still to hash; the last is next.
    pub unhashed: Vec<Listed>,
    /// What it lists that is hashed, in the order of the listing.
    pub hashed: Vec<DirItem>,
}

/// A directory that is being hashed, as plain values.
pub struct FolderFrameView {
    pub path: Seq<char>,
    pub name: Seq<char>,
    pub unhashed: Seq<ListedView>,
    pub hashed: Seq<DirItemView>,
}

impl View for FolderFrame {
    type V = FolderFrameView;

    open spec fn view(&self) -> FolderFrameView {
        FolderFrameView {
            path: self.path@,
            name: self.name@,
            unhashed: listing_view(self.unhashed@),
            hashed: items_view(self.hashed@),
        }
    }
}

/// The frames as plain values.
pub open spec fn frames_view(frames: Seq<FolderFrame>) -> Seq<FolderFrameView> {
    frames.map_values(|f: FolderFrame| f@)
}

/// What a walk waits for.
#[derive(Debug)]
pub enum FolderWait {
    /// The listing of the directory at `path`, whose name is `name`.
    Listing { path: String, name: String },
    /// The content of the file named `name` in the innermost directory.
    Content { name: String },
    /// Nothing: the walk is over.
    Over,
}

/// A walk that hashes a directory.
#[derive(Debug)]
pub struct FolderWalk {
    /// The directories that the walk is in, the innermost last.
    pub frames: Vec<FolderFrame>,
    /// What the walk waits for.
    pub wait: FolderWait,
}

/// What the caller reports to a walk.
#[derive(Debug)]
pub enum FolderEvent {
    /// What the directory lists.
    Listing(Vec<Listed>),
    /// The bytes of the file.
    Content(Vec<u8>),
}

/// What the caller is to do next for a walk.
#[derive(Debug)]
pub enum FolderAsk {
    /// Report what the directory at this path lists.
    List(String),
    /// Report the bytes of the file at this path.
    Read(String),
    /// Nothing more: this is the id of the directory.
    Finished(String),
}

/// What a walk turns to next.
pub enum FolderMove {
    /// The directory at this path, of this name.
    List(Seq<char>, Seq<char>),
    /// The file at this path, of this name.
    Read(Seq<char>, Seq<char>),
    /// Nothing: the directory that the walk started with has this id.
    Finished(Seq<char>),
}

/// What is listed without the names that a walk passes over, in the order
/// of the listing.
pub open spec fn kept(listing: Seq<ListedView>) -> Seq<ListedView>
    decreases listing.len(),
{
    if listing.len() == 0 {
        Seq::empty()
    } else if is_excluded(listing.last().name) {
        kept(listing.drop_last())
    } else {
        kept(listing.drop_last()).push(listing.last())
    }
}

/// The frame with one more item hashed.
pub open spec fn with_hashed(frame: FolderFrameView, item: DirItemView) -> FolderFrameView {
    FolderFrameView { hashed: frame.hashed.push(item), ..frame }
}

/// What a walk with these frames turns to next, and the frames it then has.
/// It takes up what the innermost directory has still to hash; when
/// nothing is left there, the directory gets the id of the tree of what it
/// lists, and the walk goes on with the directory above.
pub open spec fn next_move(frames: Seq<FolderFrameView>) -> (Seq<FolderFrameView>, FolderMove)
    decreases frames.len(),
{
    if frames.len() == 0 {
        (frames, FolderMove::Finished(Seq::empty()))
    } else {
        let top = frames.last();
        if top.unhashed.len() > 0 {
            let child = top.unhashed.last();
            let rest = frames.drop_last().push(
                FolderFrameView { unhashed: top.unhashed.drop_last(), ..top },
            );
            if child.is_file {
                (rest, FolderMove::Read(path_in(top.path, child.name), child.name))
            } else {
                (rest, FolderMove::List(path_in(top.path, child.name), child.name))
            }
        } else {
            let id = tree_id(folder_entries(top.hashed));
            if frames.len() == 1 {
                (frames.drop_last(), FolderMove::Finished(id))
            } else {
                next_move(
                    frames.drop_last().drop_last().push(
                        with_hashed(
                            frames[frames.len() - 2],
                            DirItemView { name: top.name, is_file: false, hash: id },
                        ),
                    ),
                )
            }
        }
    }
}

/// Whether a walk has turned to its next move.
pub open spec fn has_moved(frames: Seq<FolderFrameView>, next: FolderWalk, ask: FolderAsk) -> bool {
    &&& frames_view(next.frames@) == next_move(frames).0
    &&& match next_move(frames).1 {
        FolderMove::List(path, name) => {
            &&& next.wait matches FolderWait::Listing { path: p, name: n }
            &&& p@ == path
            &&& n@ == name
            &&& ask matches FolderAsk::List(q)
            &&& q@ == path
        },
        FolderMove::Read(path, name) => {
            &&& next.wait matches FolderWait::Content { name: n }
            &&& n@ == name
            &&& ask matches FolderAsk::Read(q)
            &&& q@ == path
        },
        FolderMove::Finished(id) => {
            &&& next.wait is Over
            &&& ask matches FolderAsk::Finished(i)
            &&& i@ == id
        },
    }
}

/// Whether every item that is hashed has a well-formed id.
pub open spec fn all_hashed(frames: Seq<FolderFrameView>) -> bool {
    forall|i: int, j: int|
        0 <= i < frames.len() && 0 <= j < frames[i].hashed.len() ==> is_object_id(
            (#[trigger] frames[i].hashed[j]).hash,
        )
}

/// Whether the event answers what the walk waits for.
pub open spec fn answers(walk: FolderWalk, event: FolderEvent) -> bool {
    match walk.wait {
        FolderWait::Listing { .. } => event is Listing,
        FolderWait::Content { .. } => event is Content && walk.frames@.len() > 0,
        FolderWait::Over => false,
    }
}

/// Whether `next` and `ask` are what follows for `walk` from `event`.
///
/// The listing of a directory opens a frame for it, with all that it lists
/// still to hash, but for what is named `.git` or `target`. The content of
/// a file gives the file its id. Then the walk turns to its next move.
pub open spec fn is_folder_step(
    walk: FolderWalk,
    event: FolderEvent,
    next: FolderWalk,
    ask: FolderAsk,
) -> bool {
    let frames = frames_view(walk.frames@);
    match (walk.wait, event) {
        (FolderWait::Listing { path, name }, FolderEvent::Listing(listing)) => has_moved(
            frames.push(
                FolderFrameView {
                    path: path@,
                    name: name@,
                    unhashed: kept(listing_view(listing@)).reverse(),
                    hashed: Seq::empty(),
                },
            ),
            next,
            ask,
        ),
        (FolderWait::Content { name }, FolderEvent::Content(bytes)) => has_moved(
            frames.drop_last().push(
                with_hashed(
                    frames.last(),
                    DirItemView { name: name@, is_file: true, hash: blob_id(bytes@) },
                ),
            ),
            next,
            ask,
        ),
        _ => false,
    }
}

/// Items that all have well-formed ids make entries that all have.
pub proof fn lemma_hashed_items(items: Seq<DirItemView>)
    requires
        forall|j: int| 0 <= j < items.len() ==> is_object_id((#[trigger] items[j]).hash),
    ensures
        ids_well_formed(folder_entries(items)),
    decreases items.len(),
{
    if items.len() > 0 {
        assert forall|j: int| 0 <= j < items.drop_last().len() implies is_object_id(
            (#[trigger] items.drop_last()[j]).hash,
        ) by {
            assert(items.drop_last()[j] == items[j]);
        }
        lemma_hashed_items(items.drop_last());
        let front = folder_entries(items.drop_last());
        let all = folder_entries(items);
        assert forall|j: int| 0 <= j < all.len() implies is_object_id((#[trigger] all[j]).hash) by {
            if j < front.len() {
                assert(all[j] == front[j]);
            }
        }
    }
}

fn kept_reversed(listing: Vec<Listed>) -> (out: Vec<Listed>)
    ensures
        listing_view(out@) == kept(listing_view(listing@)).reverse(),
{
    let ghost all = listing_view(listing@);
    let mut rest = listing;
    let mut out: Vec<Listed> = Vec::new();
    proof {
        assert(all.take(all.len() as int) =~= all);
        assert(all.skip(all.len() as int) =~= Seq::empty());
        assert(listing_view(out@) =~= kept(all.skip(all.len() as int)).reverse());
    }
    while rest.len() > 0
        invariant
            rest@.len() <= all.len(),
            listing_view(rest@) == all.take(rest@.len() as int),
            listing_view(out@) == kept(all.skip(rest@.len() as int)).reverse(),
        decreases rest.len(),
    {
        let ghost n = rest@.len();
        let ghost prev = listing_view(out@);
        let ghost rest_before = rest@;
        match rest.pop() {
            Some(item) => {
                let ghost view = item@;
                proof {
                    assert(view == listing_view(rest_before)[n - 1]);
                    assert(view == all[n - 1]);
                    assert(listing_view(rest@) =~= all.take(n - 1));
                    lemma_kept_front(all.skip(n - 1));
                    assert(all.skip(n - 1).skip(1) =~= all.skip(n as int));
                    assert(all.skip(n - 1)[0] == view);
                }
                if !is_excluded_name(item.name.as_str()) {
                    out.push(item);
                    proof {
                        assert(listing_view(out@) =~= prev.push(view));
                        assert((seq![view] + kept(all.skip(n as int))).reverse() =~= kept(
                            all.skip(n as int),
                        ).reverse().push(view));
                    }
                }
            },
            None => {},
        }
    }
    assert(all.skip(0) =~= all);
    out
}

/// What is kept of a listing starts with its first item, if that is kept.
pub proof fn lemma_kept_front(listing: Seq<ListedView>)
    requires
        listing.len() > 0,
    ensures
        kept(listing) == (if is_excluded(listing[0].name) {
            kept(listing.skip(1))
        } else {
            seq![listing[0]] + kept(listing.skip(1))
        }),
    decreases listing.len(),
{
    if listing.len() == 1 {
        assert(listing.drop_last() =~= Seq::empty());
        assert(listing.skip(1) =~= Seq::empty());
        assert(kept(listing) =~= (if is_excluded(listing[0].name) {
            kept(listing.skip(1))
        } else {
            seq![listing[0]] + kept(listing.skip(1))
        }));
    } else {
        lemma_kept_front(listing.drop_last());
        assert(listing.drop_last().skip(1) =~= listing.skip(1).drop_last());
        assert(listing.drop_last()[0] == listing[0]);
        assert(listing.skip(1).last() == listing.last());
        assert(kept(listing) =~= (if is_excluded(listing[0].name) {
            kept(listing.skip(1))
        } else {
            seq![listing[0]] + kept(listing.skip(1))
        }));
    }
}

fn settle(given: Vec<FolderFrame>) -> (r: (FolderWalk, FolderAsk))
    requires
        given@.len() > 0,
        all_hashed(frames_view(given@)),
    ensures
        has_moved(frames_view(given@), r.0, r.1),
        all_hashed(frames_view(r.0.frames@)),
{
    let ghost start = frames_view(given@);
    let mut frames = given;
    loop
        invariant
            start == frames_view(given@),
            frames@.len() > 0,
            all_hashed(frames_view(frames@)),
            next_move(frames_view(frames@)) == next_move(start),
        decreases frames.len(),
    {
        let ghost before = frames_view(frames@);
        match frames.pop() {
            None => {
                return (
                    FolderWalk { frames, wait: FolderWait::Over },
                    FolderAsk::Finished(String::new()),
                );
            },
            Some(top) => {
                let ghost top_view = top@;
                proof {
                    assert(top_view == before.last());
                    assert(frames_view(frames@) =~= before.drop_last());
                    assert forall|i: int, j: int|
                        0 <= i < before.drop_last().len() && 0 <= j
                            < before.drop_last()[i].hashed.len() implies is_object_id(
                        (#[trigger] before.drop_last()[i].hashed[j]).hash,
                    ) by {
                        assert(before.drop_last()[i] == before[i]);
                    }
                    assert forall|j: int| 0 <= j < top_view.hashed.len() implies is_object_id(
                        (#[trigger] top_view.hashed[j]).hash,
                    ) by {
                        assert(before[before.len() - 1].hashed[j] == top_view.hashed[j]);
                    }
                }
                let mut top = top;
                if top.unhashed.len() > 0 {
                    let ghost unhashed = listing_view(top.unhashed@);
                    match top.unhashed.pop() {
                        Some(child) => {
                            let path = join_dir(top.path.as_str(), child.name.as_str());
                            proof {
                                assert(child@ == unhashed.last());
                                assert(listing_view(top.unhashed@) =~= unhashed.drop_last());
                            }
                            let ghost rest = frames_view(frames@);
                            let ghost pushed = top@;
                            frames.push(top);
                            proof {
                                assert(frames_view(frames@) =~= rest.push(pushed));
                                assert(pushed == FolderFrameView {
                                    unhashed: top_view.unhashed.drop_last(),
                                    ..top_view
                                });
                                assert(next_move(before).0 == before.drop_last().push(pushed));
                                assert forall|i: int, j: int|
                                    0 <= i < rest.push(pushed).len() && 0 <= j < rest.push(
                                        pushed,
                                    )[i].hashed.len() implies is_object_id(
                                    (#[trigger] rest.push(pushed)[i].hashed[j]).hash,
                                ) by {
                                    if i < rest.len() {
                                        assert(rest.push(pushed)[i] == rest[i]);
                                    }
                                }
                            }
                            if child.is_file {
                                return (
                                    FolderWalk {
                                        frames,
                                        wait: FolderWait::Content { name: child.name },
                                    },
                                    FolderAsk::Read(path),
                                );
                            } else {
                                let ask = FolderAsk::List(path.clone());
                                return (
                                    FolderWalk {
                                        frames,
                                        wait: FolderWait::Listing { path, name: child.name },
                                    },
                                    ask,
                                );
                            }
                        },
                        None => {},
                    }
                } else {
                    proof {
                        lemma_hashed_items(top_view.hashed);
                    }
                    let id = Tree::hash_folder(&top.hashed);
                    match frames.pop() {
                        None => {
                            assert(before.len() == 1);
                            return (
                                FolderWalk { frames, wait: FolderWait::Over },
                                FolderAsk::Finished(id),
                            );
                        },
                        Some(parent) => {
                            let ghost parent_view = parent@;
                            let ghost rest = frames_view(frames@);
                            let ghost item = DirItemView {
                                name: top_view.name,
                                is_file: false,
                                hash: id@,
                            };
                            let mut parent = parent;
                            parent.hashed.push(DirItem { name: top.name, is_file: false, hash: id });
                            let ghost pushed = parent@;
                            frames.push(parent);
                            proof {
                                assert(parent_view == before[before.len() - 2]);
                                assert(rest =~= before.drop_last().drop_last());
                                assert(pushed.hashed =~= parent_view.hashed.push(item));
                                assert(pushed == with_hashed(parent_view, item));
                                assert(frames_view(frames@) =~= rest.push(pushed));
                                assert forall|i: int, j: int|
                                    0 <= i < rest.push(pushed).len() && 0 <= j < rest.push(
                                        pushed,
                                    )[i].hashed.len() implies is_object_id(
                                    (#[trigger] rest.push(pushed)[i].hashed[j]).hash,
                                ) by {
                                    if i < rest.len() {
                                        assert(rest.push(pushed)[i] == before[i]);
                                    } else if j < parent_view.hashed.len() {
                                        assert(pushed.hashed[j] == before[before.len() - 2].hashed[j]);
                                    }
                                }
                            }
                        },
                    }
                }
            },
        }
    }
}

impl FolderWalk {
    /// Starts to hash the directory at `path`: its listing is asked for.
    pub fn start(path: &str) -> (r: (FolderWalk, FolderAsk))
        ensures
            r.0.frames@.len() == 0,
            r.0.wait matches FolderWait::Listing { path: p, name: n } && p@ == path@ && n@.len()
                == 0,
            r.1 matches FolderAsk::List(q) && q@ == path@,
            all_hashed(frames_view(r.0.frames@)),
    {
        (
            FolderWalk {
                frames: Vec::new(),
                wait: FolderWait::Listing { path: path.to_owned(), name: String::new() },
            },
            FolderAsk::List(path.to_owned()),
        )
    }

    /// Takes the next step of a walk.
    pub fn step(self, event: FolderEvent) -> (r: (FolderWalk, FolderAsk))
        requires
            answers(self, event),
            all_hashed(frames_view(self.frames@)),
        ensures
            is_folder_step(self, event, r.0, r.1),
            all_hashed(frames_view(r.0.frames@)),
    {
        let ghost before = frames_view(self.frames@);
        let mut frames = self.frames;
        match (self.wait, event) {
            (FolderWait::Listing { path, name }, FolderEvent::Listing(listing)) => {
                let frame = FolderFrame {
                    path,
                    name,
                    unhashed: kept_reversed(listing),
                    hashed: Vec::new(),
                };
                let ghost view = frame@;
                frames.push(frame);
                proof {
                    assert(view.hashed =~= Seq::empty());
                    assert(frames_view(frames@) =~= before.push(view));
                    assert forall|i: int, j: int|
                        0 <= i < before.push(view).len() && 0 <= j < before.push(
                            view,
                        )[i].hashed.len() implies is_object_id(
                        (#[trigger] before.push(view)[i].hashed[j]).hash,
                    ) by {
                        if i < before.len() {
                            assert(before.push(view)[i] == before[i]);
                        }
                    }
                }
                settle(frames)
            },
            (FolderWait::Content { name }, FolderEvent::Content(bytes)) => {
                let hash = compute_file_hash(bytes.as_slice());
                match frames.pop() {
                    Some(top) => {
                        let ghost top_view = top@;
                        let ghost rest = frames_view(frames@);
                        let ghost item = DirItemView { name: name@, is_file: true, hash: hash@ };
                        let mut top = top;
                        top.hashed.push(DirItem { name, is_file: true, hash });
                        let ghost pushed = top@;
                        frames.push(top);
                        proof {
                            assert(top_view == before.last());
                            assert(rest =~= before.drop_last());
                            assert(pushed.hashed =~= top_view.hashed.push(item));
                            assert(pushed == with_hashed(top_view, item));
                            assert(frames_view(frames@) =~= rest.push(pushed));
                            assert forall|i: int, j: int|
                                0 <= i < rest.push(pushed).len() && 0 <= j < rest.push(
                                    pushed,
                                )[i].hashed.len() implies is_object_id(
                                (#[trigger] rest.push(pushed)[i].hashed[j]).hash,
                            ) by {
                                if i < rest.len() {
                                    assert(rest.push(pushed)[i] == before[i]);
                                } else if j < top_view.hashed.len() {
                                    assert(pushed.hashed[j] == before[before.len() - 1].hashed[j]);
                                }
                            }
                        }
                        settle(frames)
                    },
                    None => (
                        FolderWalk { frames, wait: FolderWait::Over },
                        FolderAsk::Finished(String::new()),
                    ),
                }
            },
            _ => (FolderWalk { frames, wait: FolderWait::Over }, FolderAsk::Finished(String::new())),
        }
    }
}


/// What the working tree holds at a path: the bytes of a file, or what a
/// directory lists.
pub struct WorkNode {
    pub content: Seq<u8>,
    pub listing: Seq<ListedView>,
}

/// Whether `rank` orders the working tree: what a directory lists lies at a
/// path of lower rank than the directory. A working tree has such a rank,
/// for its directories are nested only so deep.
pub open spec fn is_ranked(
    work: spec_fn(Seq<char>) -> WorkNode,
    rank: spec_fn(Seq<char>) -> nat,
) -> bool {
    forall|dir: Seq<char>, i: int|
        0 <= i < work(dir).listing.len() ==> rank(
            path_in(dir, (#[trigger] work(dir).listing[i]).name),
        ) < rank(dir)
}

/// The item that the directory at `dir` has for what it lists as `child`:
/// a file with the id of its content, or a directory with the id of its
/// tree.
pub open spec fn item_of(
    work: spec_fn(Seq<char>) -> WorkNode,
    rank: spec_fn(Seq<char>) -> nat,
    dir: Seq<char>,
    child: ListedView,
    bound: nat,
) -> DirItemView
    decreases bound, 0nat, 0nat,
{
    let path = path_in(dir, child.name);
    DirItemView {
        name: child.name,
        is_file: child.is_file,
        hash: if child.is_file {
            blob_id(work(path).content)
        } else if rank(path) < bound {
            folder_id(work, rank, path)
        } else {
            Seq::empty()
        },
    }
}

/// The items that the directory at `dir` has for the listed `children`.
pub open spec fn items_of(
    work: spec_fn(Seq<char>) -> WorkNode,
    rank: spec_fn(Seq<char>) -> nat,
    dir: Seq<char>,
    children: Seq<ListedView>,
    bound: nat,
) -> Seq<DirItemView>
    decreases bound, 1nat, children.len(),
{
    if children.len() == 0 {
        Seq::empty()
    } else {
        seq![item_of(work, rank, dir, children[0], bound)] + items_of(
            work,
            rank,
            dir,
            children.skip(1),
            bound,
        )
    }
}

/// The id that the directory at `path` would be stored under: that of the
/// tree of what it lists, each file with the id of its content and each
/// directory with the id found in the same way, but for what is named
/// `.git` or `target`.
pub open spec fn folder_id(
    work: spec_fn(Seq<char>) -> WorkNode,
    rank: spec_fn(Seq<char>) -> nat,
    path: Seq<char>,
) -> Seq<char>
    decreases rank(path), 2nat, 0nat,
{
    tree_id(folder_entries(items_of(work, rank, path, kept(work(path).listing), rank(path))))
}

/// The id that the frame's directory gets once all that it has still to
/// hash is hashed.
pub open spec fn frame_id(
    work: spec_fn(Seq<char>) -> WorkNode,
    rank: spec_fn(Seq<char>) -> nat,
    frame: FolderFrameView,
) -> Seq<char> {
    tree_id(
        folder_entries(
            frame.hashed + items_of(work, rank, frame.path, frame.unhashed.reverse(), rank(frame.path)),
        ),
    )
}

/// The id that a walk with these frames ends with.
pub open spec fn end_id(
    work: spec_fn(Seq<char>) -> WorkNode,
    rank: spec_fn(Seq<char>) -> nat,
    frames: Seq<FolderFrameView>,
) -> Seq<char>
    decreases frames.len(),
{
    if frames.len() == 0 {
        Seq::empty()
    } else if frames.len() == 1 {
        frame_id(work, rank, frames[0])
    } else {
        end_id(
            work,
            rank,
            frames.drop_last().drop_last().push(
                with_hashed(
                    frames[frames.len() - 2],
                    DirItemView {
                        name: frames.last().name,
                        is_file: false,
                        hash: frame_id(work, rank, frames.last()),
                    },
                ),
            ),
        )
    }
}

/// The frame that the listing of the directory at `path` opens.
pub open spec fn opened(
    work: spec_fn(Seq<char>) -> WorkNode,
    path: Seq<char>,
    name: Seq<char>,
) -> FolderFrameView {
    FolderFrameView {
        path,
        name,
        unhashed: kept(work(path).listing).reverse(),
        hashed: Seq::empty(),
    }
}

/// Whether what the frames have still to hash is listed in the working
/// tree, each in the directory of its frame.
pub open spec fn agrees(
    work: spec_fn(Seq<char>) -> WorkNode,
    frames: Seq<FolderFrameView>,
) -> bool {
    forall|i: int, j: int|
        0 <= i < frames.len() && 0 <= j < frames[i].unhashed.len() ==> work(
            frames[i].path,
        ).listing.contains(#[trigger] frames[i].unhashed[j])
}

/// The id that a walk in this state ends with, in a working tree that does
/// not change.
pub open spec fn outcome(
    work: spec_fn(Seq<char>) -> WorkNode,
    rank: spec_fn(Seq<char>) -> nat,
    walk: FolderWalk,
) -> Seq<char> {
    let frames = frames_view(walk.frames@);
    match walk.wait {
        FolderWait::Listing { path, name } => end_id(
            work,
            rank,
            frames.push(opened(work, path@, name@)),
        ),
        FolderWait::Content { name } => end_id(
            work,
            rank,
            frames.drop_last().push(
                with_hashed(
                    frames.last(),
                    DirItemView {
                        name: name@,
                        is_file: true,
                        hash: blob_id(work(path_in(frames.last().path, name@)).content),
                    },
                ),
            ),
        ),
        FolderWait::Over => Seq::empty(),
    }
}

/// Whether the event reports what the working tree holds.
pub open spec fn reports(
    work: spec_fn(Seq<char>) -> WorkNode,
    walk: FolderWalk,
    event: FolderEvent,
) -> bool {
    match (walk.wait, event) {
        (FolderWait::Listing { path, name }, FolderEvent::Listing(listing)) => listing_view(
            listing@,
        ) == work(path@).listing,
        (FolderWait::Content { name }, FolderEvent::Content(bytes)) => walk.frames@.len() > 0
            && bytes@ == work(path_in(frames_view(walk.frames@).last().path, name@)).content,
        _ => false,
    }
}

proof fn lemma_kept_listed(listing: Seq<ListedView>)
    ensures
        forall|j: int| 0 <= j < kept(listing).len() ==> listing.contains(#[trigger] kept(listing)[j]),
    decreases listing.len(),
{
    if listing.len() > 0 {
        lemma_kept_listed(listing.drop_last());
        let front = kept(listing.drop_last());
        assert forall|j: int| 0 <= j < kept(listing).len() implies listing.contains(
            #[trigger] kept(listing)[j],
        ) by {
            if j < front.len() {
                assert(kept(listing)[j] == front[j]);
                let at = choose|at: int|
                    0 <= at < listing.drop_last().len() && listing.drop_last()[at] == front[j];
                assert(listing[at] == front[j]);
            } else {
                assert(kept(listing)[j] == listing[listing.len() - 1]);
            }
        }
    }
}

proof fn lemma_end_id_of_top(
    work: spec_fn(Seq<char>) -> WorkNode,
    rank: spec_fn(Seq<char>) -> nat,
    rest: Seq<FolderFrameView>,
    a: FolderFrameView,
    b: FolderFrameView,
)
    requires
        a.name == b.name,
        frame_id(work, rank, a) == frame_id(work, rank, b),
    ensures
        end_id(work, rank, rest.push(a)) == end_id(work, rank, rest.push(b)),
{
    let fa = rest.push(a);
    let fb = rest.push(b);
    if rest.len() > 0 {
        assert(fa.drop_last().drop_last() =~= fb.drop_last().drop_last());
        assert(fa[fa.len() - 2] == fb[fb.len() - 2]);
    }
}

/// The next move does not change the id that the walk ends with: a file
/// that it turns to will get the id of its content, a directory the id
/// that a walk through it ends with, and a directory that is hashed has got
/// its id.
proof fn lemma_move_keeps_end(
    work: spec_fn(Seq<char>) -> WorkNode,
    rank: spec_fn(Seq<char>) -> nat,
    frames: Seq<FolderFrameView>,
)
    requires
        frames.len() > 0,
        is_ranked(work, rank),
        agrees(work, frames),
    ensures
        agrees(work, next_move(frames).0),
        match next_move(frames).1 {
            FolderMove::Finished(id) => id == end_id(work, rank, frames),
            FolderMove::List(path, name) => end_id(
                work,
                rank,
                next_move(frames).0.push(opened(work, path, name)),
            ) == end_id(work, rank, frames) && next_move(frames).0.len() > 0,
            FolderMove::Read(path, name) => next_move(frames).0.len() > 0 && path == path_in(
                next_move(frames).0.last().path,
                name,
            ) && end_id(
                work,
                rank,
                next_move(frames).0.drop_last().push(
                    with_hashed(
                        next_move(frames).0.last(),
                        DirItemView { name, is_file: true, hash: blob_id(work(path).content) },
                    ),
                ),
            ) == end_id(work, rank, frames),
        },
    decreases frames.len(),
{
    let top = frames.last();
    let rest = frames.drop_last();
    assert(frames =~= rest.push(top));
    if top.unhashed.len() > 0 {
        let child = top.unhashed.last();
        let path = path_in(top.path, child.name);
        let left = FolderFrameView { unhashed: top.unhashed.drop_last(), ..top };
        let after = rest.push(left);
        assert(after.drop_last() =~= rest);
        assert(top.unhashed.reverse() =~= seq![child] + left.unhashed.reverse());
        assert((seq![child] + left.unhashed.reverse()).skip(1) =~= left.unhashed.reverse());
        let listing = work(top.path).listing;
        assert(listing.contains(frames[frames.len() - 1].unhashed[top.unhashed.len() - 1]));
        let at = choose|at: int| 0 <= at < listing.len() && listing[at] == child;
        assert(rank(path_in(top.path, work(top.path).listing[at].name)) < rank(top.path));
        let item = item_of(work, rank, top.path, child, rank(top.path));
        assert(items_of(work, rank, top.path, top.unhashed.reverse(), rank(top.path)) == seq![item]
            + items_of(work, rank, top.path, left.unhashed.reverse(), rank(top.path)));
        let filled = with_hashed(left, item);
        assert(top.hashed + (seq![item] + items_of(
            work,
            rank,
            top.path,
            left.unhashed.reverse(),
            rank(top.path),
        )) =~= filled.hashed + items_of(work, rank, top.path, filled.unhashed.reverse(), rank(top.path)));
        assert(frame_id(work, rank, top) == frame_id(work, rank, filled));
        lemma_end_id_of_top(work, rank, rest, top, filled);
        assert forall|i: int, j: int|
            0 <= i < after.len() && 0 <= j < after[i].unhashed.len() implies work(
            after[i].path,
        ).listing.contains(#[trigger] after[i].unhashed[j]) by {
            if i < rest.len() {
                assert(after[i] == frames[i]);
                assert(work(frames[i].path).listing.contains(frames[i].unhashed[j]));
            } else {
                assert(after[i].unhashed[j] == frames[frames.len() - 1].unhashed[j]);
                assert(work(frames[frames.len() - 1].path).listing.contains(
                    frames[frames.len() - 1].unhashed[j],
                ));
            }
        }
        if child.is_file {
            assert(item == DirItemView {
                name: child.name,
                is_file: true,
                hash: blob_id(work(path).content),
            });
        } else {
            let below = opened(work, path, child.name);
            assert(after.push(below).drop_last() =~= after);
            assert(after.push(below).drop_last().drop_last() =~= rest);
            assert(after.push(below)[after.push(below).len() - 2] == left);
            assert(kept(work(path).listing).reverse().reverse() =~= kept(work(path).listing));
            assert(below.hashed + items_of(work, rank, path, below.unhashed.reverse(), rank(path))
                =~= items_of(work, rank, path, kept(work(path).listing), rank(path)));
            assert(frame_id(work, rank, below) == folder_id(work, rank, path));
            assert(item == DirItemView {
                name: child.name,
                is_file: false,
                hash: frame_id(work, rank, below),
            });
        }
    } else {
        assert(top.unhashed.reverse() =~= Seq::empty());
        assert(top.hashed + items_of(work, rank, top.path, top.unhashed.reverse(), rank(top.path))
            =~= top.hashed);
        if frames.len() > 1 {
            let parent = frames[frames.len() - 2];
            let filled = with_hashed(
                parent,
                DirItemView {
                    name: top.name,
                    is_file: false,
                    hash: tree_id(folder_entries(top.hashed)),
                },
            );
            let after = rest.drop_last().push(filled);
            assert forall|i: int, j: int|
                0 <= i < after.len() && 0 <= j < after[i].unhashed.len() implies work(
                after[i].path,
            ).listing.contains(#[trigger] after[i].unhashed[j]) by {
                if i < after.len() - 1 {
                    assert(after[i] == frames[i]);
                    assert(work(frames[i].path).listing.contains(frames[i].unhashed[j]));
                } else {
                    assert(after[i].unhashed[j] == frames[frames.len() - 2].unhashed[j]);
                    assert(work(frames[frames.len() - 2].path).listing.contains(
                        frames[frames.len() - 2].unhashed[j],
                    ));
                }
            }
            lemma_move_keeps_end(work, rank, after);
        } else {
            assert(rest =~= Seq::empty());
            assert forall|i: int, j: int|
                0 <= i < rest.len() && 0 <= j < rest[i].unhashed.len() implies work(
                rest[i].path,
            ).listing.contains(#[trigger] rest[i].unhashed[j]) by {}
        }
    }
}

/// A step does not change the id that the walk ends with, as long as it is
/// told what the working tree holds: so a walk that started with a
/// directory ends with the id of the tree of that directory, what lies
/// below it hashed in the same way.
pub proof fn lemma_step_keeps_outcome(
    work: spec_fn(Seq<char>) -> WorkNode,
    rank: spec_fn(Seq<char>) -> nat,
    walk: FolderWalk,
    event: FolderEvent,
    next: FolderWalk,
    ask: FolderAsk,
)
    requires
        is_ranked(work, rank),
        agrees(work, frames_view(walk.frames@)),
        reports(work, walk, event),
        is_folder_step(walk, event, next, ask),
    ensures
        agrees(work, frames_view(next.frames@)),
        match ask {
            FolderAsk::Finished(id) => id@ == outcome(work, rank, walk),
            _ => outcome(work, rank, next) == outcome(work, rank, walk),
        },
{
    let frames = frames_view(walk.frames@);
    match (walk.wait, event) {
        (FolderWait::Listing { path, name }, FolderEvent::Listing(listing)) => {
            let below = opened(work, path@, name@);
            let start = frames.push(below);
            lemma_kept_listed(work(path@).listing);
            assert forall|i: int, j: int|
                0 <= i < start.len() && 0 <= j < start[i].unhashed.len() implies work(
                start[i].path,
            ).listing.contains(#[trigger] start[i].unhashed[j]) by {
                if i < frames.len() {
                    assert(start[i] == frames[i]);
                    assert(work(frames[i].path).listing.contains(frames[i].unhashed[j]));
                } else {
                    let all = kept(work(path@).listing);
                    assert(start[i].unhashed[j] == all[all.len() - 1 - j]);
                }
            }
            lemma_move_keeps_end(work, rank, start);
        },
        (FolderWait::Content { name }, FolderEvent::Content(bytes)) => {
            let top = frames.last();
            let filled = with_hashed(
                top,
                DirItemView {
                    name: name@,
                    is_file: true,
                    hash: blob_id(work(path_in(top.path, name@)).content),
                },
            );
            let start = frames.drop_last().push(filled);
            assert forall|i: int, j: int|
                0 <= i < start.len() && 0 <= j < start[i].unhashed.len() implies work(
                start[i].path,
            ).listing.contains(#[trigger] start[i].unhashed[j]) by {
                if i < start.len() - 1 {
                    assert(start[i] == frames[i]);
                    assert(work(frames[i].path).listing.contains(frames[i].unhashed[j]));
                } else {
                    assert(start[i].unhashed[j] == frames[frames.len() - 1].unhashed[j]);
                    assert(work(frames[frames.len() - 1].path).listing.contains(
                        frames[frames.len() - 1].unhashed[j],
                    ));
                }
            }
            lemma_move_keeps_end(work, rank, start);
        },
        _ => {},
    }
}

/// A walk sets out to find the id of the directory it starts with.
pub proof fn lemma_start_outcome(
    work: spec_fn(Seq<char>) -> WorkNode,
    rank: spec_fn(Seq<char>) -> nat,
    walk: FolderWalk,
    path: Seq<char>,
)
    requires
        walk.frames@.len() == 0,
        walk.wait matches FolderWait::Listing { path: p, name: n } && p@ == path,
    ensures
        outcome(work, rank, walk) == folder_id(work, rank, path),
        agrees(work, frames_view(walk.frames@)),
{
    let name = walk.wait->Listing_name@;
    let below = opened(work, path, name);
    let frames = frames_view(walk.frames@).push(below);
    assert(frames.len() == 1);
    assert(frames[0] == below);
    assert(kept(work(path).listing).reverse().reverse() =~= kept(work(path).listing));
    assert(below.hashed + items_of(work, rank, path, below.unhashed.reverse(), rank(path))
        =~= items_of(work, rank, path, kept(work(path).listing), rank(path)));
}

} // verus!
