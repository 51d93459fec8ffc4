//! Untracked files: what the tracked directories hold beside the index.

use vstd::prelude::*;
use crate::gitignore::{ignored, GitIgnore};
use crate::index::{Index, IndexEntryView};
use crate::text::{append_all, copy_range, from_chars, holds_text, spells, texts, to_chars};
use crate::tree::git_dir;

verus! {
/// What a directory of the working tree lists under one name.
#[derive(Debug)]
pub struct Listed {
    /// The name, one path segment.
    pub name: String,
    /// Whether it is a directory.
    pub is_dir: bool,
    /// Whether it is a regular file.
    pub is_file: bool,
}

/// A listed name as plain values.
pub struct ListedView {
    pub name: Seq<char>,
    pub is_dir: bool,
    pub is_file: bool,
}

impl View for Listed {
    type V = ListedView;

    open spec fn view(&self) -> ListedView {
        ListedView { name: self.name@, is_dir: self.is_dir, is_file: self.is_file }
    }
}

impl Listed {
    /// A listed name.
    pub fn new(name: String, is_dir: bool, is_file: bool) -> (listed: Self)
        ensures
            listed.name == name,
            listed.is_dir == is_dir,
            listed.is_file == is_file,
    {
        Self { name, is_dir, is_file }
    }
}

/// A listing as plain values.
pub open spec fn listing_view(listing: Seq<Listed>) -> Seq<ListedView> {
    listing.map_values(|l: Listed| l@)
}

/// The listings as plain values.
pub open spec fn listings_view(listings: Seq<Vec<Listed>>) -> Seq<Seq<ListedView>> {
    Seq::new(listings.len(), |i: int| listing_view(listings[i]@))
}

/// `.`, the path of the root of the working tree.
pub open spec fn dot() -> Seq<char> {
    seq!['.']
}

/// The directories that the path lies in, the outermost first: what stands
/// before each of the first `upto` characters that is a slash.
pub open spec fn dir_prefixes(path: Seq<char>, upto: int) -> Seq<Seq<char>>
    decreases upto,
{
    if upto <= 0 {
        Seq::empty()
    } else if path[upto - 1] == '/' {
        dir_prefixes(path, upto - 1).push(path.take(upto - 1))
    } else {
        dir_prefixes(path, upto - 1)
    }
}

/// The set with `item` in it.
pub open spec fn add_new(set: Seq<Seq<char>>, item: Seq<char>) -> Seq<Seq<char>> {
    if set.contains(item) {
        set
    } else {
        set.push(item)
    }
}

/// The set with all of `items` in it.
pub open spec fn add_all_new(set: Seq<Seq<char>>, items: Seq<Seq<char>>) -> Seq<Seq<char>>
    decreases items.len(),
{
    if items.len() == 0 {
        set
    } else {
        add_new(add_all_new(set, items.drop_last()), items.last())
    }
}

/// The directories that hold a staged file that is not ignored, and the
/// root, each once.
pub open spec fn tracked_dir_set(entries: Seq<IndexEntryView>, patterns: Seq<Seq<char>>) -> Seq<
    Seq<char>,
>
    decreases entries.len(),
{
    if entries.len() == 0 {
        seq![dot()]
    } else if ignored(patterns, entries.last().name) {
        tracked_dir_set(entries.drop_last(), patterns)
    } else {
        add_all_new(
            tracked_dir_set(entries.drop_last(), patterns),
            dir_prefixes(entries.last().name, entries.last().name.len() as int),
        )
    }
}

/// The paths of the staged files that are not ignored, each once.
pub open spec fn tracked_file_set(entries: Seq<IndexEntryView>, patterns: Seq<Seq<char>>) -> Seq<
    Seq<char>,
>
    decreases entries.len(),
{
    if entries.len() == 0 {
        Seq::empty()
    } else if ignored(patterns, entries.last().name) {
        tracked_file_set(entries.drop_last(), patterns)
    } else {
        add_new(tracked_file_set(entries.drop_last(), patterns), entries.last().name)
    }
}

/// The path of `name` in the directory `dir`, where the root of the working
/// tree is `.`.
pub open spec fn listed_path(dir: Seq<char>, name: Seq<char>) -> Seq<char> {
    if dir == dot() {
        name
    } else {
        dir + seq!['/'] + name
    }
}

/// What a listed name adds to the untracked files: nothing where it is
/// `.git` or its path is ignored; its path and a slash where it is a
/// directory that holds no tracked file; its path where it is a file that
/// is not tracked.
pub open spec fn untracked_item(
    dir: Seq<char>,
    item: ListedView,
    dirs: Seq<Seq<char>>,
    files: Seq<Seq<char>>,
    patterns: Seq<Seq<char>>,
) -> Option<Seq<char>> {
    let path = listed_path(dir, item.name);
    if item.name == git_dir() || ignored(patterns, path) {
        None
    } else if item.is_dir && !dirs.contains(path) {
        Some(path + seq!['/'])
    } else if item.is_file && !files.contains(path) {
        Some(path)
    } else {
        None
    }
}

/// The untracked files among what the directory `dir` lists.
pub open spec fn untracked_in(
    dir: Seq<char>,
    listing: Seq<ListedView>,
    dirs: Seq<Seq<char>>,
    files: Seq<Seq<char>>,
    patterns: Seq<Seq<char>>,
) -> Seq<Seq<char>>
    decreases listing.len(),
{
    if listing.len() == 0 {
        Seq::empty()
    } else {
        let front = untracked_in(dir, listing.drop_last(), dirs, files, patterns);
        match untracked_item(dir, listing.last(), dirs, files, patterns) {
            Some(path) => front.push(path),
            None => front,
        }
    }
}

/// The untracked files among what the first `n` tracked directories list.
pub open spec fn untracked(
    listings: Seq<Seq<ListedView>>,
    dirs: Seq<Seq<char>>,
    files: Seq<Seq<char>>,
    patterns: Seq<Seq<char>>,
    n: int,
) -> Seq<Seq<char>>
    decreases n,
{
    if n <= 0 {
        Seq::empty()
    } else {
        untracked(listings, dirs, files, patterns, n - 1) + untracked_in(
            dirs[n - 1],
            listings[n - 1],
            dirs,
            files,
            patterns,
        )
    }
}

fn add_text(set: &mut Vec<String>, text: String)
    ensures
        texts(final(set)@) == add_new(texts(old(set)@), text@),
{
    if !holds_text(set, text.as_str()) {
        let ghost before = texts(set@);
        let ghost view = text@;
        set.push(text);
        assert(texts(set@) =~= before.push(view));
    }
}

/// The directories in which untracked files are looked for: those that
/// hold a staged file that is not ignored, and the root.
pub fn tracked_directories(index: &Index, gitignore: &GitIgnore) -> (dirs: Vec<String>)
    ensures
        texts(dirs@) == tracked_dir_set(index@.entries, texts(gitignore.ignore_list@)),
{
    let ghost all = index@.entries;
    let ghost patterns = texts(gitignore.ignore_list@);
    let mut dirs: Vec<String> = Vec::new();
    let root: Vec<char> = vec!['.'];
    assert(root@ =~= dot());
    dirs.push(from_chars(root.as_slice()));
    let mut i: usize = 0;
    assert(all.take(0) =~= Seq::empty());
    assert(texts(dirs@) =~= seq![dot()]);
    while i < index.entries.len()
        invariant
            i <= index.entries.len(),
            all == index@.entries,
            patterns == texts(gitignore.ignore_list@),
            texts(dirs@) == tracked_dir_set(all.take(i as int), patterns),
        decreases index.entries.len() - i,
    {
        proof {
            assert(all.take(i + 1).drop_last() =~= all.take(i as int));
            assert(all.take(i + 1).last() == index.entries@[i as int]@);
        }
        let entry = &index.entries[i];
        if !gitignore.is_ignored(entry.name.as_str()) {
            let name = to_chars(entry.name.as_str());
            let ghost before = texts(dirs@);
            let mut k: usize = 0;
            while k < name.len()
                invariant
                    k <= name.len(),
                    name@ == entry.name@,
                    texts(dirs@) == add_all_new(before, dir_prefixes(name@, k as int)),
                decreases name.len() - k,
            {
                if name[k] == '/' {
                    let dir = copy_range(name.as_slice(), 0, k);
                    assert(dir@ =~= name@.take(k as int));
                    proof {
                        assert(dir_prefixes(name@, k + 1).drop_last() =~= dir_prefixes(
                            name@,
                            k as int,
                        ));
                    }
                    add_text(&mut dirs, from_chars(dir.as_slice()));
                }
                k += 1;
            }
        }
        i += 1;
    }
    assert(all.take(all.len() as int) =~= all);
    dirs
}

/// The paths of the staged files that are not ignored.
pub fn tracked_files(index: &Index, gitignore: &GitIgnore) -> (files: Vec<String>)
    ensures
        texts(files@) == tracked_file_set(index@.entries, texts(gitignore.ignore_list@)),
{
    let ghost all = index@.entries;
    let ghost patterns = texts(gitignore.ignore_list@);
    let mut files: Vec<String> = Vec::new();
    let mut i: usize = 0;
    assert(all.take(0) =~= Seq::empty());
    assert(texts(files@) =~= Seq::empty());
    while i < index.entries.len()
        invariant
            i <= index.entries.len(),
            all == index@.entries,
            patterns == texts(gitignore.ignore_list@),
            texts(files@) == tracked_file_set(all.take(i as int), patterns),
        decreases index.entries.len() - i,
    {
        proof {
            assert(all.take(i + 1).drop_last() =~= all.take(i as int));
            assert(all.take(i + 1).last() == index.entries@[i as int]@);
        }
        let entry = &index.entries[i];
        if !gitignore.is_ignored(entry.name.as_str()) {
            add_text(&mut files, entry.name.clone());
        }
        i += 1;
    }
    assert(all.take(all.len() as int) =~= all);
    files
}

/// The path of `name` as the directory `dir` lists it.
pub fn join_listed(dir: &str, name: &str) -> (path: String)
    ensures
        path@ == listed_path(dir@, name@),
{
    let root: Vec<char> = vec!['.'];
    assert(root@ =~= dot());
    if spells(dir, root.as_slice()) {
        return name.to_owned();
    }
    let mut path = to_chars(dir);
    path.push('/');
    let tail = to_chars(name);
    append_all(&mut path, tail.as_slice());
    from_chars(path.as_slice())
}

/// The untracked files among what the directory `dir` lists, added to
/// `found`.
pub fn scan_directory(
    found: &mut Vec<String>,
    dir: &str,
    listing: &Vec<Listed>,
    dirs: &Vec<String>,
    files: &Vec<String>,
    gitignore: &GitIgnore,
)
    ensures
        texts(final(found)@) == texts(old(found)@) + untracked_in(
            dir@,
            listing_view(listing@),
            texts(dirs@),
            texts(files@),
            texts(gitignore.ignore_list@),
        ),
{
    let ghost before = texts(found@);
    let ghost all = listing_view(listing@);
    let ghost patterns = texts(gitignore.ignore_list@);
    let git: Vec<char> = vec!['.', 'g', 'i', 't'];
    assert(git@ =~= git_dir());
    let mut i: usize = 0;
    assert(all.take(0) =~= Seq::empty());
    assert(texts(found@) =~= before + Seq::<Seq<char>>::empty());
    while i < listing.len()
        invariant
            i <= listing.len(),
            all == listing_view(listing@),
            patterns == texts(gitignore.ignore_list@),
            git@ == git_dir(),
            texts(found@) == before + untracked_in(
                dir@,
                all.take(i as int),
                texts(dirs@),
                texts(files@),
                patterns,
            ),
        decreases listing.len() - i,
    {
        proof {
            assert(all.take(i + 1).drop_last() =~= all.take(i as int));
            assert(all.take(i + 1).last() == listing@[i as int]@);
        }
        let item = &listing[i];
        let ghost prev = texts(found@);
        let ghost front = untracked_in(
            dir@,
            all.take(i as int),
            texts(dirs@),
            texts(files@),
            patterns,
        );
        if !spells(item.name.as_str(), git.as_slice()) {
            let path = join_listed(dir, item.name.as_str());
            if !gitignore.is_ignored(path.as_str()) {
                if item.is_dir && !holds_text(dirs, path.as_str()) {
                    let mut marked = to_chars(path.as_str());
                    marked.push('/');
                    let text = from_chars(marked.as_slice());
                    let ghost view = text@;
                    assert(view =~= path@ + seq!['/']);
                    found.push(text);
                    assert(texts(found@) =~= prev.push(view));
                    assert(before + front.push(view) =~= prev.push(view));
                } else if item.is_file && !holds_text(files, path.as_str()) {
                    let ghost view = path@;
                    found.push(path);
                    assert(texts(found@) =~= prev.push(view));
                    assert(before + front.push(view) =~= prev.push(view));
                }
            }
        }
        i += 1;
    }
    assert(all.take(all.len() as int) =~= all);
}

/// The untracked files: what the tracked directories list that is neither
/// tracked nor ignored. `dirs` and `files` are the tracked directories and
/// files; for each of `dirs`, `listings` tells at the same position what
/// the directory lists. A directory without a tracked file in it is named
/// once, with a slash, and not looked into.
pub fn get_untracked_files(
    dirs: &Vec<String>,
    files: &Vec<String>,
    listings: &Vec<Vec<Listed>>,
    gitignore: &GitIgnore,
) -> (found: Vec<String>)
    requires
        listings@.len() == dirs@.len(),
    ensures
        texts(found@) == untracked(
            listings_view(listings@),
            texts(dirs@),
            texts(files@),
            texts(gitignore.ignore_list@),
            dirs@.len() as int,
        ),
{
    let mut found: Vec<String> = Vec::new();
    let mut i: usize = 0;
    assert(texts(found@) =~= Seq::empty());
    while i < dirs.len()
        invariant
            i <= dirs.len(),
            listings@.len() == dirs@.len(),
            texts(found@) == untracked(
                listings_view(listings@),
                texts(dirs@),
                texts(files@),
                texts(gitignore.ignore_list@),
                i as int,
            ),
        decreases dirs.len() - i,
    {
        proof {
            assert(texts(dirs@)[i as int] == dirs@[i as int]@);
            assert(listings_view(listings@)[i as int] == listing_view(listings@[i as int]@));
        }
        scan_directory(&mut found, dirs[i].as_str(), &listings[i], dirs, files, gitignore);
        i += 1;
    }
    found
}

} // verus!
