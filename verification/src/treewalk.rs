//! Listing the files of a commit: a walk through its tree.

use vstd::prelude::*;
use crate::gitignore::{ignored, GitIgnore};
use crate::objectreader::ObjectKind;
use crate::status::{files_view, TreeFile, TreeFileView};
use crate::text::{append_all, from_chars, texts, to_chars};
use crate::tree::{Tree, TreeEntryView};

verus! {
/// The path of `name` in the directory `dir`, where the root of the working
/// tree is the empty path.
pub open spec fn child_path(dir: Seq<char>, name: Seq<char>) -> Seq<char> {
    if dir.len() == 0 {
        name
    } else {
        dir + seq!['/'] + name
    }
}

/// The entries of a tree stored for the directory `dir`, each with its
/// path, without those whose path is ignored.
pub open spec fn tree_level(dir: Seq<char>, entries: Seq<TreeEntryView>, patterns: Seq<Seq<char>>) -> Seq<
    TreeFileView,
>
    decreases entries.len(),
{
    if entries.len() == 0 {
        Seq::empty()
    } else if ignored(patterns, child_path(dir, entries.last().name)) {
        tree_level(dir, entries.drop_last(), patterns)
    } else {
        tree_level(dir, entries.drop_last(), patterns).push(
            TreeFileView {
                path: child_path(dir, entries.last().name),
                hash: entries.last().hash,
            },
        )
    }
}

/// The path of `name` in the directory `dir`.
pub fn join_path(dir: &str, name: &str) -> (path: String)
    ensures
        path@ == child_path(dir@, name@),
{
    let parent = to_chars(dir);
    if parent.len() == 0 {
        return name.to_owned();
    }
    let mut path = parent;
    path.push('/');
    let tail = to_chars(name);
    append_all(&mut path, tail.as_slice());
    from_chars(path.as_slice())
}

/// The entries of `tree`, stored for the directory `dir`, each with its
/// path, without those whose path is ignored. Which of them are files and
/// which are trees to descend into is for `TreeWalk` to tell.
pub fn create_tree_files(dir: &str, tree: &Tree, gitignore: &GitIgnore) -> (files: Vec<TreeFile>)
    ensures
        files_view(files@) == tree_level(dir@, tree@.entries, texts(gitignore.ignore_list@)),
{
    let ghost all = tree@.entries;
    let ghost patterns = texts(gitignore.ignore_list@);
    let mut files: Vec<TreeFile> = Vec::new();
    let mut i: usize = 0;
    assert(all.take(0) =~= Seq::empty());
    assert(files_view(files@) =~= Seq::empty());
    while i < tree.entries.len()
        invariant
            i <= tree.entries.len(),
            all == tree@.entries,
            patterns == texts(gitignore.ignore_list@),
            files_view(files@) == tree_level(dir@, all.take(i as int), patterns),
        decreases tree.entries.len() - i,
    {
        proof {
            assert(all.take(i + 1).drop_last() =~= all.take(i as int));
            assert(all.take(i + 1).last() == tree.entries@[i as int]@);
        }
        let entry = &tree.entries[i];
        let path = join_path(dir, entry.name.as_str());
        if !gitignore.is_ignored(path.as_str()) {
            let ghost before = files_view(files@);
            let ghost view = TreeFileView { path: path@, hash: entry.hash@ };
            files.push(TreeFile { path, hash: entry.hash.clone() });
            assert(files_view(files@) =~= before.push(view));
        }
        i += 1;
    }
    assert(all.take(all.len() as int) =~= all);
    files
}

/// A walk through a commit's tree that lists its files. The objects that
/// the tree names lie in the object store, so the walk asks for them one at
/// a time: `next` names an object, and `visit` takes what the store says of
/// it.
#[derive(Debug)]
pub struct TreeWalk {
    /// What is still to visit; the last one is next.
    pub pending: Vec<TreeFile>,
    /// The files found so far.
    pub files: Vec<TreeFile>,
}

/// A walk as plain values.
pub struct TreeWalkView {
    pub pending: Seq<TreeFileView>,
    pub files: Seq<TreeFileView>,
}

impl View for TreeWalk {
    type V = TreeWalkView;

    open spec fn view(&self) -> TreeWalkView {
        TreeWalkView { pending: files_view(self.pending@), files: files_view(self.files@) }
    }
}

/// The walk after a visit to the object that was next. A tree is replaced
/// by its entries that are not ignored, the first of them next; anything
/// else is a file and joins the files found.
pub open spec fn walk_step(
    walk: TreeWalkView,
    kind: ObjectKind,
    entries: Seq<TreeEntryView>,
    patterns: Seq<Seq<char>>,
) -> TreeWalkView {
    if kind == ObjectKind::Tree {
        TreeWalkView {
            pending: walk.pending.drop_last() + tree_level(
                walk.pending.last().path,
                entries,
                patterns,
            ).reverse(),
            files: walk.files,
        }
    } else {
        TreeWalkView {
            pending: walk.pending.drop_last(),
            files: walk.files.push(walk.pending.last()),
        }
    }
}

fn push_reversed(pending: &mut Vec<TreeFile>, level: Vec<TreeFile>)
    ensures
        files_view(final(pending)@) == files_view(old(pending)@) + files_view(level@).reverse(),
{
    let ghost before = files_view(pending@);
    let ghost all = files_view(level@);
    let mut rest = level;
    assert(files_view(pending@) =~= before + all.reverse().take(0));
    while rest.len() > 0
        invariant
            rest@.len() <= all.len(),
            files_view(rest@) == all.take(rest@.len() as int),
            files_view(pending@) == before + all.reverse().take(all.len() - rest@.len()),
        decreases rest.len(),
    {
        let ghost n = rest@.len();
        let ghost prev = files_view(pending@);
        let ghost rest_before = rest@;
        match rest.pop() {
            Some(file) => {
                let ghost view = file@;
                pending.push(file);
                proof {
                    assert(view == files_view(rest_before)[n - 1]);
                    assert(view == all[n - 1]);
                    assert(files_view(rest@) =~= all.take(n - 1));
                    assert(files_view(pending@) =~= prev.push(view));
                    assert(all.reverse().take(all.len() - n + 1) =~= all.reverse().take(
                        all.len() - n,
                    ).push(all[n - 1]));
                }
            },
            None => {},
        }
    }
    assert(all.reverse().take(all.len() as int) =~= all.reverse());
}

impl TreeWalk {
    /// The walk at its start: the entries of the commit's tree are to visit.
    pub fn new(tree: &Tree, gitignore: &GitIgnore) -> (walk: Self)
        ensures
            walk@.files == Seq::<TreeFileView>::empty(),
            walk@.pending == tree_level(
                Seq::empty(),
                tree@.entries,
                texts(gitignore.ignore_list@),
            ).reverse(),
    {
        let level = create_tree_files("", tree, gitignore);
        proof {
            reveal_strlit("");
            assert(""@ =~= Seq::<char>::empty());
        }
        let mut pending: Vec<TreeFile> = Vec::new();
        assert(files_view(pending@) =~= Seq::empty());
        push_reversed(&mut pending, level);
        let files: Vec<TreeFile> = Vec::new();
        assert(files_view(files@) =~= Seq::empty());
        TreeWalk { pending, files }
    }

    /// The object to visit next, if the walk is not over.
    pub fn next(&self) -> (r: Option<&TreeFile>)
        ensures
            match r {
                Some(file) => self.pending@.len() > 0 && *file == self.pending@.last(),
                None => self.pending@.len() == 0,
            },
    {
        if self.pending.len() == 0 {
            None
        } else {
            Some(&self.pending[self.pending.len() - 1])
        }
    }

    /// Takes the kind of the object that was next, and, for a tree, the
    /// tree itself.
    pub fn visit(&mut self, kind: ObjectKind, subtree: Option<&Tree>, gitignore: &GitIgnore)
        requires
            old(self).pending@.len() > 0,
            kind == ObjectKind::Tree ==> subtree is Some,
        ensures
            final(self)@ == walk_step(
                old(self)@,
                kind,
                match subtree {
                    Some(t) => t@.entries,
                    None => Seq::empty(),
                },
                texts(gitignore.ignore_list@),
            ),
    {
        let ghost before = self@;
        let ghost files_before = self.files@;
        match self.pending.pop() {
            None => {},
            Some(file) => {
                assert(files_view(self.pending@) =~= before.pending.drop_last());
                assert(file@ == before.pending.last());
                match (kind, subtree) {
                    (ObjectKind::Tree, Some(tree)) => {
                        let level = create_tree_files(file.path.as_str(), tree, gitignore);
                        push_reversed(&mut self.pending, level);
                    },
                    _ => {
                        let ghost view = file@;
                        self.files.push(file);
                        assert(files_view(self.files@) =~= files_view(files_before).push(view));
                    },
                }
            },
        }
    }

    /// The files found, once the walk is over.
    pub fn finish(self) -> (files: Vec<TreeFile>)
        ensures
            files == self.files,
    {
        self.files
    }
}


/// What the object store holds under an id, as far as a walk looks: the
/// kind of the object and, for a tree, its entries.
pub struct StoredNode {
    pub kind: ObjectKind,
    pub entries: Seq<TreeEntryView>,
}

/// Whether `rank` orders the store: every entry of a tree names an object
/// of lower rank than the tree. A store of objects that are named by the
/// digest of their content has such a rank, for no tree can hold itself.
pub open spec fn is_ranked(
    store: spec_fn(Seq<char>) -> StoredNode,
    rank: spec_fn(Seq<char>) -> nat,
) -> bool {
    forall|id: Seq<char>, i: int|
        store(id).kind == ObjectKind::Tree && 0 <= i < store(id).entries.len() ==> rank(
            (#[trigger] store(id).entries[i]).hash,
        ) < rank(id)
}

/// The files that lie at or below `file`, an entry of a tree with its path:
/// the files of the tree that it names, or itself where it names no tree.
/// Only objects of a rank below `bound` are looked into.
pub open spec fn files_below(
    store: spec_fn(Seq<char>) -> StoredNode,
    rank: spec_fn(Seq<char>) -> nat,
    patterns: Seq<Seq<char>>,
    file: TreeFileView,
    bound: nat,
) -> Seq<TreeFileView>
    decreases bound, 0nat, 0nat,
{
    if store(file.hash).kind == ObjectKind::Tree && rank(file.hash) < bound {
        files_of_level(
            store,
            rank,
            patterns,
            tree_level(file.path, store(file.hash).entries, patterns),
            rank(file.hash),
        )
    } else {
        seq![file]
    }
}

/// The files that lie at or below the entries of one level, in the order
/// of a walk that finishes with each entry before it takes up the next.
pub open spec fn files_of_level(
    store: spec_fn(Seq<char>) -> StoredNode,
    rank: spec_fn(Seq<char>) -> nat,
    patterns: Seq<Seq<char>>,
    level: Seq<TreeFileView>,
    bound: nat,
) -> Seq<TreeFileView>
    decreases bound, 1nat, level.len(),
{
    if level.len() == 0 {
        Seq::empty()
    } else {
        files_below(store, rank, patterns, level[0], bound) + files_of_level(
            store,
            rank,
            patterns,
            level.skip(1),
            bound,
        )
    }
}

/// Whether all the entries name objects of a rank below `bound`.
pub open spec fn ranks_below(
    rank: spec_fn(Seq<char>) -> nat,
    level: Seq<TreeFileView>,
    bound: nat,
) -> bool {
    forall|i: int| 0 <= i < level.len() ==> rank((#[trigger] level[i]).hash) < bound
}

/// What a walk will have found when it is over: the files found so far, and
/// the files at or below what is still to visit.
pub open spec fn walk_total(
    store: spec_fn(Seq<char>) -> StoredNode,
    rank: spec_fn(Seq<char>) -> nat,
    patterns: Seq<Seq<char>>,
    walk: TreeWalkView,
    bound: nat,
) -> Seq<TreeFileView> {
    walk.files + files_of_level(store, rank, patterns, walk.pending.reverse(), bound)
}

proof fn lemma_files_of_concat(
    store: spec_fn(Seq<char>) -> StoredNode,
    rank: spec_fn(Seq<char>) -> nat,
    patterns: Seq<Seq<char>>,
    a: Seq<TreeFileView>,
    b: Seq<TreeFileView>,
    bound: nat,
)
    ensures
        files_of_level(store, rank, patterns, a + b, bound) == files_of_level(
            store,
            rank,
            patterns,
            a,
            bound,
        ) + files_of_level(store, rank, patterns, b, bound),
    decreases a.len(),
{
    if a.len() == 0 {
        assert(a + b =~= b);
        assert(files_of_level(store, rank, patterns, a, bound) + files_of_level(
            store,
            rank,
            patterns,
            b,
            bound,
        ) =~= files_of_level(store, rank, patterns, b, bound));
    } else {
        lemma_files_of_concat(store, rank, patterns, a.skip(1), b, bound);
        assert((a + b).skip(1) =~= a.skip(1) + b);
        assert((a + b)[0] == a[0]);
        assert(files_of_level(store, rank, patterns, a + b, bound) =~= files_of_level(
            store,
            rank,
            patterns,
            a,
            bound,
        ) + files_of_level(store, rank, patterns, b, bound));
    }
}

proof fn lemma_bound_is_free(
    store: spec_fn(Seq<char>) -> StoredNode,
    rank: spec_fn(Seq<char>) -> nat,
    patterns: Seq<Seq<char>>,
    level: Seq<TreeFileView>,
    low: nat,
    high: nat,
)
    requires
        ranks_below(rank, level, low),
        low <= high,
    ensures
        files_of_level(store, rank, patterns, level, low) == files_of_level(
            store,
            rank,
            patterns,
            level,
            high,
        ),
    decreases level.len(),
{
    if level.len() > 0 {
        assert(rank(level[0].hash) < low);
        assert forall|i: int| 0 <= i < level.skip(1).len() implies rank(
            (#[trigger] level.skip(1)[i]).hash,
        ) < low by {
            assert(level.skip(1)[i] == level[i + 1]);
        }
        lemma_bound_is_free(store, rank, patterns, level.skip(1), low, high);
        assert(files_below(store, rank, patterns, level[0], low) == files_below(
            store,
            rank,
            patterns,
            level[0],
            high,
        ));
    }
}

proof fn lemma_level_ranks(
    store: spec_fn(Seq<char>) -> StoredNode,
    rank: spec_fn(Seq<char>) -> nat,
    patterns: Seq<Seq<char>>,
    dir: Seq<char>,
    id: Seq<char>,
    n: int,
)
    requires
        is_ranked(store, rank),
        store(id).kind == ObjectKind::Tree,
        0 <= n <= store(id).entries.len(),
    ensures
        ranks_below(rank, tree_level(dir, store(id).entries.take(n), patterns), rank(id)),
    decreases n,
{
    let entries = store(id).entries;
    if n > 0 {
        lemma_level_ranks(store, rank, patterns, dir, id, n - 1);
        assert(entries.take(n).drop_last() =~= entries.take(n - 1));
        assert(entries.take(n).last() == entries[n - 1]);
        let front = tree_level(dir, entries.take(n - 1), patterns);
        let level = tree_level(dir, entries.take(n), patterns);
        assert forall|i: int| 0 <= i < level.len() implies rank((#[trigger] level[i]).hash) < rank(
            id,
        ) by {
            if i < front.len() {
                assert(level[i] == front[i]);
            } else {
                assert(level[i].hash == entries[n - 1].hash);
                assert(rank(store(id).entries[n - 1].hash) < rank(id));
            }
        }
    }
}

/// A visit does not change what the walk will have found when it is over,
/// as long as it is told what the store holds: so a walk that started with
/// the entries of a tree ends with the files at or below them, each under
/// its path, in the order of the tree.
pub proof fn lemma_visit_keeps_total(
    store: spec_fn(Seq<char>) -> StoredNode,
    rank: spec_fn(Seq<char>) -> nat,
    patterns: Seq<Seq<char>>,
    walk: TreeWalkView,
    bound: nat,
)
    requires
        is_ranked(store, rank),
        walk.pending.len() > 0,
        ranks_below(rank, walk.pending, bound),
    ensures
        walk_total(
            store,
            rank,
            patterns,
            walk_step(
                walk,
                store(walk.pending.last().hash).kind,
                store(walk.pending.last().hash).entries,
                patterns,
            ),
            bound,
        ) == walk_total(store, rank, patterns, walk, bound),
        ranks_below(
            rank,
            walk_step(
                walk,
                store(walk.pending.last().hash).kind,
                store(walk.pending.last().hash).entries,
                patterns,
            ).pending,
            bound,
        ),
{
    let top = walk.pending.last();
    let node = store(top.hash);
    let next = walk_step(walk, node.kind, node.entries, patterns);
    let rest = walk.pending.drop_last().reverse();
    let all = walk.pending.reverse();
    assert(all =~= seq![top] + rest);
    assert(all.skip(1) =~= rest);
    assert(all[0] == top);
    assert(rank(top.hash) < bound);
    assert(files_of_level(store, rank, patterns, all, bound) == files_below(
        store,
        rank,
        patterns,
        top,
        bound,
    ) + files_of_level(store, rank, patterns, rest, bound));
    assert forall|i: int| 0 <= i < walk.pending.drop_last().len() implies rank(
        (#[trigger] walk.pending.drop_last()[i]).hash,
    ) < bound by {
        assert(walk.pending.drop_last()[i] == walk.pending[i]);
    }
    if node.kind == ObjectKind::Tree {
        let level = tree_level(top.path, node.entries, patterns);
        assert(node.entries.take(node.entries.len() as int) =~= node.entries);
        lemma_level_ranks(store, rank, patterns, top.path, top.hash, node.entries.len() as int);
        assert(next.pending.reverse() =~= level + rest);
        lemma_files_of_concat(store, rank, patterns, level, rest, bound);
        lemma_bound_is_free(store, rank, patterns, level, rank(top.hash), bound);
        assert(files_below(store, rank, patterns, top, bound) == files_of_level(
            store,
            rank,
            patterns,
            level,
            rank(top.hash),
        ));
        assert(walk.files + (files_of_level(store, rank, patterns, level, bound) + files_of_level(
            store,
            rank,
            patterns,
            rest,
            bound,
        )) =~= walk_total(store, rank, patterns, walk, bound));
        assert forall|i: int| 0 <= i < next.pending.len() implies rank(
            (#[trigger] next.pending[i]).hash,
        ) < bound by {
            if i < walk.pending.len() - 1 {
                assert(next.pending[i] == walk.pending[i]);
            } else {
                let k = i - (walk.pending.len() - 1);
                assert(next.pending[i] == level.reverse()[k]);
                assert(level.reverse()[k] == level[level.len() - 1 - k]);
            }
        }
    } else {
        assert(next.pending.reverse() =~= rest);
        assert(files_below(store, rank, patterns, top, bound) == seq![top]);
        assert(walk.files.push(top) + files_of_level(store, rank, patterns, rest, bound)
            =~= walk.files + (seq![top] + files_of_level(store, rank, patterns, rest, bound)));
    }
}

/// When nothing is left to visit, the walk has found all it will find.
pub proof fn lemma_walk_end(
    store: spec_fn(Seq<char>) -> StoredNode,
    rank: spec_fn(Seq<char>) -> nat,
    patterns: Seq<Seq<char>>,
    walk: TreeWalkView,
    bound: nat,
)
    requires
        walk.pending.len() == 0,
    ensures
        walk_total(store, rank, patterns, walk, bound) == walk.files,
{
    assert(walk.pending.reverse() =~= Seq::empty());
    assert(walk.files + Seq::<TreeFileView>::empty() =~= walk.files);
}

} // verus!
