//! Trees: stored directory listings.

use vstd::prelude::*;
use vstd::utf8::encode_utf8;
use crate::error::GitError;
use crate::objectid::{
    encode_hex, hash_object, hex_decode, hex_encode, is_object_id, object_id, object_id_bytes,
};
use crate::objectreader::{
    kind_word, payload_start, sniffed_kind, word_of, ObjectKind, ObjectReader,
};
use crate::order::{lemma_sorted_views, sort_by_name, sorted_by_name, NameBytes, Named};
use crate::stream::zlib_inflate;
use crate::text::{
    append_all, find_byte, first_index, from_chars, lemma_first_index, lossy_string, text_of,
};

verus! {

/// One line of a directory listing: a file or a directory below it.
#[derive(Debug)]
pub struct TreeEntry {
    /// The kind and permissions, as octal digits.
    pub mode: String,
    /// The name, one path segment.
    pub name: String,
    /// The id of the blob or tree, as 40 hexadecimal digits.
    pub hash: String,
}

/// A tree entry as plain text values.
pub struct TreeEntryView {
    pub mode: Seq<char>,
    pub name: Seq<char>,
    pub hash: Seq<char>,
}

impl View for TreeEntry {
    type V = TreeEntryView;

    open spec fn view(&self) -> TreeEntryView {
        TreeEntryView { mode: self.mode@, name: self.name@, hash: self.hash@ }
    }
}

impl Named for TreeEntryView {
    open spec fn name_bytes(&self) -> Seq<u8> {
        encode_utf8(self.name)
    }
}

impl Named for TreeEntry {
    open spec fn name_bytes(&self) -> Seq<u8> {
        encode_utf8(self.name@)
    }
}

impl NameBytes for TreeEntry {
    fn name_as_bytes(&self) -> (bytes: &[u8]) {
        self.name.as_str().as_bytes()
    }
}

impl TreeEntry {
    /// An entry with the given fields.
    pub fn new(mode: String, name: String, hash: String) -> (entry: Self)
        ensures
            entry.mode == mode,
            entry.name == name,
            entry.hash == hash,
    {
        Self { mode, name, hash }
    }

    /// A copy of the entry.
    pub fn copy(&self) -> (entry: Self)
        ensures
            entry == *self,
    {
        Self { mode: self.mode.clone(), name: self.name.clone(), hash: self.hash.clone() }
    }
}

/// A directory listing, with the id it is stored under.
#[derive(Debug)]
pub struct Tree {
    pub hash: String,
    pub entries: Vec<TreeEntry>,
}

/// A tree as plain text values.
pub struct TreeView {
    pub hash: Seq<char>,
    pub entries: Seq<TreeEntryView>,
}

/// The entries as plain text values.
pub open spec fn entries_view(entries: Seq<TreeEntry>) -> Seq<TreeEntryView> {
    entries.map_values(|e: TreeEntry| e@)
}

impl View for Tree {
    type V = TreeView;

    open spec fn view(&self) -> TreeView {
        TreeView { hash: self.hash@, entries: entries_view(self.entries@) }
    }
}

/// The entry that starts at `at` in the payload of a tree, and where the
/// next one starts: the mode up to a space, the name up to a NUL, and the
/// twenty bytes of the id. Nothing where the bytes end before that.
pub open spec fn entry_from(bytes: Seq<u8>, at: int) -> Option<(TreeEntryView, int)> {
    let space = at + first_index(bytes.skip(at), 32u8);
    let nul = space + 1 + first_index(bytes.skip(space + 1), 0u8);
    if space < bytes.len() && nul + 20 < bytes.len() {
        Some(
            (
                TreeEntryView {
                    mode: text_of(bytes.subrange(at, space)),
                    name: text_of(bytes.subrange(space + 1, nul)),
                    hash: hex_encode(bytes.subrange(nul + 1, nul + 21)),
                },
                nul + 21,
            ),
        )
    } else {
        None
    }
}

/// The entries from `at` to the end of the bytes, if the bytes end with an
/// entry.
pub open spec fn entries_in(bytes: Seq<u8>, at: int) -> Option<Seq<TreeEntryView>>
    decreases bytes.len() - at,
    when 0 <= at
    via entries_in_decreases
{
    if at >= bytes.len() {
        Some(Seq::empty())
    } else {
        match entry_from(bytes, at) {
            None => None,
            Some((entry, next)) => match entries_in(bytes, next) {
                None => None,
                Some(rest) => Some(seq![entry] + rest),
            },
        }
    }
}

#[via_fn]
proof fn entries_in_decreases(bytes: Seq<u8>, at: int) {
    if at < bytes.len() {
        lemma_entry_from_advances(bytes, at);
    }
}

/// An entry ends behind where it starts.
pub proof fn lemma_entry_from_advances(bytes: Seq<u8>, at: int)
    requires
        0 <= at < bytes.len(),
    ensures
        entry_from(bytes, at) matches Some((_, next)) ==> at + 22 <= next <= bytes.len(),
{
    let space = at + first_index(bytes.skip(at), 32u8);
    lemma_first_index(bytes.skip(at), 32u8);
    if space < bytes.len() {
        lemma_first_index(bytes.skip(space + 1), 0u8);
    }
}

/// Every entry that is read names its object by a well-formed id.
pub proof fn lemma_read_ids_well_formed(bytes: Seq<u8>, at: int)
    requires
        0 <= at,
        entries_in(bytes, at) is Some,
    ensures
        ids_well_formed(entries_in(bytes, at)->0),
    decreases bytes.len() - at,
{
    if at < bytes.len() {
        let (entry, next) = entry_from(bytes, at)->0;
        lemma_entry_from_advances(bytes, at);
        lemma_read_ids_well_formed(bytes, next);
        let rest = entries_in(bytes, next)->0;
        let nul = next - 21;
        crate::objectid::lemma_encoded_digest_is_object_id(bytes.subrange(nul + 1, nul + 21));
        assert forall|i: int| 0 <= i < (seq![entry] + rest).len() implies is_object_id(
            (#[trigger] (seq![entry] + rest)[i]).hash,
        ) by {
            if i > 0 {
                assert((seq![entry] + rest)[i] == rest[i - 1]);
            }
        }
    }
}

/// The entries that the inflated bytes of a tree object hold. Bytes whose
/// header is not that of a tree, or that end inside an entry, are corrupt.
pub open spec fn parse_tree(raw: Seq<u8>) -> Result<Seq<TreeEntryView>, GitError> {
    if sniffed_kind(raw) == Some(ObjectKind::Tree) && payload_start(raw) is Some {
        match entries_in(raw, payload_start(raw)->0) {
            Some(entries) => Ok(entries),
            None => Err(GitError::CorruptObject),
        }
    } else {
        Err(GitError::CorruptObject)
    }
}

/// The bytes of one entry in a tree's payload: mode, space, name, NUL and
/// the twenty bytes that the id spells.
pub open spec fn entry_bytes(entry: TreeEntryView) -> Seq<u8> {
    encode_utf8(entry.mode) + seq![32u8] + encode_utf8(entry.name) + seq![0u8] + hex_decode(
        entry.hash,
    )->0
}

/// The bytes of the entries, one after the other.
pub open spec fn payload_of(entries: Seq<TreeEntryView>) -> Seq<u8>
    decreases entries.len(),
{
    if entries.len() == 0 {
        Seq::empty()
    } else {
        payload_of(entries.drop_last()) + entry_bytes(entries.last())
    }
}

/// The payload of a tree with these entries: their bytes, in the order of
/// their names.
pub open spec fn tree_payload(entries: Seq<TreeEntryView>) -> Seq<u8> {
    payload_of(sorted_by_name(entries))
}

/// The id of a tree with these entries.
pub open spec fn tree_id(entries: Seq<TreeEntryView>) -> Seq<char> {
    object_id(kind_word(ObjectKind::Tree), tree_payload(entries))
}

/// Whether every entry names its object by a well-formed id.
pub open spec fn ids_well_formed(entries: Seq<TreeEntryView>) -> bool {
    forall|i: int| 0 <= i < entries.len() ==> is_object_id((#[trigger] entries[i]).hash)
}

/// What reading a tree under `hash` from the bytes of its file gives.
pub open spec fn read_tree(hash: Seq<char>, inflated: Option<Option<Seq<u8>>>) -> Result<
    TreeView,
    GitError,
> {
    match inflated {
        None => Err(GitError::ObjectNotFound),
        Some(None) => Err(GitError::CorruptObject),
        Some(Some(raw)) => match parse_tree(raw) {
            Ok(entries) => Ok(TreeView { hash, entries }),
            Err(e) => Err(e),
        },
    }
}

/// The result with the tree as plain text values.
pub open spec fn tree_result_view(r: Result<Tree, GitError>) -> Result<TreeView, GitError> {
    match r {
        Ok(tree) => Ok(tree@),
        Err(e) => Err(e),
    }
}

/// The entries read so far, followed by those still to read.
pub open spec fn with_rest(done: Seq<TreeEntryView>, rest: Option<Seq<TreeEntryView>>) -> Option<
    Seq<TreeEntryView>,
> {
    match rest {
        Some(r) => Some(done + r),
        None => None,
    }
}

impl Tree {
    /// A tree with the given id and entries.
    pub fn new(hash: String, entries: Vec<TreeEntry>) -> (tree: Self)
        ensures
            tree.hash == hash,
            tree.entries == entries,
    {
        Self { hash, entries }
    }

    /// Reads the entry that starts at `at` in the payload of a tree.
    pub fn read_entry(bytes: &[u8], at: usize) -> (r: Option<(TreeEntry, usize)>)
        requires
            at < bytes@.len(),
        ensures
            match r {
                Some((entry, next)) => entry_from(bytes@, at as int) == Some((entry@, next as int))
                    && at < next <= bytes@.len(),
                None => entry_from(bytes@, at as int) is None,
            },
    {
        let len = bytes.len();
        let space = find_byte(bytes, at, 32);
        if space >= len {
            return None;
        }
        let nul = find_byte(bytes, space + 1, 0);
        if nul >= len || len - nul <= 20 {
            return None;
        }
        let entry = TreeEntry {
            mode: lossy_string(&bytes[at..space]),
            name: lossy_string(&bytes[space + 1..nul]),
            hash: encode_hex(&bytes[nul + 1..nul + 21]),
        };
        Some((entry, nul + 21))
    }

    /// Reads a tree, stored under `hash`, from the inflated bytes of its
    /// object.
    pub fn from_bytes(hash: &str, raw: &[u8]) -> (r: Result<Self, GitError>)
        ensures
            tree_result_view(r) == read_tree(hash@, Some(Some(raw@))),
            r matches Ok(tree) ==> ids_well_formed(tree@.entries),
    {
        let start = match ObjectReader::find_payload(raw) {
            Some(start) => start,
            None => {
                return Err(GitError::CorruptObject);
            },
        };
        match ObjectReader::sniff(raw) {
            Some(ObjectKind::Tree) => {},
            _ => {
                return Err(GitError::CorruptObject);
            },
        }
        let mut entries: Vec<TreeEntry> = Vec::new();
        let mut at: usize = start;
        assert(entries_view(entries@) =~= Seq::empty());
        while at < raw.len()
            invariant
                at <= raw@.len(),
                sniffed_kind(raw@) == Some(ObjectKind::Tree),
                payload_start(raw@) == Some(start as int),
                entries_in(raw@, start as int) == with_rest(
                    entries_view(entries@),
                    entries_in(raw@, at as int),
                ),
            decreases raw@.len() - at,
        {
            match Tree::read_entry(raw, at) {
                None => {
                    assert(entries_in(raw@, at as int) is None);
                    return Err(GitError::CorruptObject);
                },
                Some((entry, next)) => {
                    let ghost before = entries_view(entries@);
                    let ghost view = entry@;
                    entries.push(entry);
                    proof {
                        assert(entries_view(entries@) =~= before.push(view));
                        let rest = entries_in(raw@, next as int);
                        if rest is Some {
                            assert(before + (seq![view] + rest->0) =~= before.push(view)
                                + rest->0);
                        }
                    }
                    at = next;
                },
            }
        }
        proof {
            assert(entries_view(entries@) + Seq::<TreeEntryView>::empty() =~= entries_view(
                entries@,
            ));
            lemma_read_ids_well_formed(raw@, start as int);
        }
        Ok(Tree { hash: hash.to_owned(), entries })
    }

    /// Reads a tree, stored under `hash`, from the bytes of its file, or
    /// from the lack of one.
    pub fn from_hash(hash: &str, stored: Option<&[u8]>) -> (r: Result<Self, GitError>)
        ensures
            tree_result_view(r) == read_tree(
                hash@,
                match stored {
                    Some(s) => Some(zlib_inflate(s@)),
                    None => None,
                },
            ),
            r matches Ok(tree) ==> ids_well_formed(tree@.entries),
    {
        match stored {
            None => Err(GitError::ObjectNotFound),
            Some(s) => match crate::stream::inflate_all(s) {
                None => Err(GitError::CorruptObject),
                Some(raw) => Tree::from_bytes(hash, raw.as_slice()),
            },
        }
    }

    /// Whether every entry names its object by a well-formed id.
    pub fn has_well_formed_ids(entries: &Vec<TreeEntry>) -> (r: bool)
        ensures
            r == ids_well_formed(entries_view(entries@)),
    {
        let mut i: usize = 0;
        while i < entries.len()
            invariant
                i <= entries.len(),
                forall|j: int| 0 <= j < i ==> is_object_id((#[trigger] entries_view(entries@)[j]).hash),
            decreases entries.len() - i,
        {
            if !crate::objectid::is_valid_object_id(entries[i].hash.as_str()) {
                assert(!is_object_id(entries_view(entries@)[i as int].hash));
                return false;
            }
            i += 1;
        }
        true
    }

    /// The bytes of one entry in a tree's payload.
    pub fn write_dir_entry(entry: &TreeEntry) -> (bytes: Vec<u8>)
        requires
            is_object_id(entry.hash@),
        ensures
            bytes@ == entry_bytes(entry@),
    {
        let mut bytes: Vec<u8> = Vec::new();
        append_all(&mut bytes, entry.mode.as_str().as_bytes());
        bytes.push(32);
        append_all(&mut bytes, entry.name.as_str().as_bytes());
        bytes.push(0);
        match object_id_bytes(entry.hash.as_str()) {
            Some(id) => {
                append_all(&mut bytes, id.as_slice());
            },
            None => {},
        }
        bytes
    }

    /// The payload of a tree with the given entries, which it sorts by name.
    pub fn write_entries(entries: Vec<TreeEntry>) -> (payload: Vec<u8>)
        requires
            ids_well_formed(entries_view(entries@)),
        ensures
            payload@ == tree_payload(entries_view(entries@)),
    {
        let ghost given = entries@;
        let sorted = sort_by_name(entries);
        let mut payload: Vec<u8> = Vec::new();
        let mut i: usize = 0;
        proof {
            lemma_sorted_views(given, |e: TreeEntry| e@);
            assert(entries_view(sorted@).take(0) =~= Seq::empty());
        }
        while i < sorted.len()
            invariant
                i <= sorted.len(),
                sorted@.to_multiset() == given.to_multiset(),
                ids_well_formed(entries_view(given)),
                payload@ == payload_of(entries_view(sorted@).take(i as int)),
            decreases sorted.len() - i,
        {
            proof {
                broadcast use vstd::seq_lib::group_to_multiset_ensures;

                assert(sorted@.to_multiset().contains(sorted@[i as int]));
                assert(given.contains(sorted@[i as int]));
                let at = choose|at: int| 0 <= at < given.len() && given[at] == sorted@[i as int];
                assert(entries_view(given)[at] == sorted@[i as int]@);
                let view = entries_view(sorted@);
                assert(view.take(i + 1).drop_last() =~= view.take(i as int));
                assert(view.take(i + 1).last() == sorted@[i as int]@);
            }
            let bytes = Tree::write_dir_entry(&sorted[i]);
            append_all(&mut payload, bytes.as_slice());
            i += 1;
        }
        assert(entries_view(sorted@).take(sorted@.len() as int) =~= entries_view(sorted@));
        payload
    }

    /// The id of a tree with the given entries.
    pub fn hash_entries(entries: Vec<TreeEntry>) -> (id: String)
        requires
            ids_well_formed(entries_view(entries@)),
        ensures
            id@ == tree_id(entries_view(entries@)),
            is_object_id(id@),
    {
        let payload = Tree::write_entries(entries);
        let word = word_of(ObjectKind::Tree);
        hash_object(word.as_slice(), payload)
    }

    /// The payload of this tree: the bytes of its entries in the order of
    /// their names.
    pub fn serialize(&self) -> (payload: Vec<u8>)
        requires
            ids_well_formed(self@.entries),
        ensures
            payload@ == tree_payload(self@.entries),
    {
        let mut copies: Vec<TreeEntry> = Vec::new();
        let mut i: usize = 0;
        while i < self.entries.len()
            invariant
                i <= self.entries.len(),
                copies@ == self.entries@.take(i as int),
            decreases self.entries.len() - i,
        {
            copies.push(self.entries[i].copy());
            i += 1;
        }
        assert(self.entries@.take(self.entries@.len() as int) =~= self.entries@);
        Tree::write_entries(copies)
    }
}


/// What a directory of the working tree holds under one name.
#[derive(Debug)]
pub struct DirItem {
    /// The name, one path segment.
    pub name: String,
    /// Whether it is a regular file; anything else counts as a directory.
    pub is_file: bool,
    /// The id of its content: of the blob for a file, of the tree for a
    /// directory.
    pub hash: String,
}

/// A directory item as plain values.
pub struct DirItemView {
    pub name: Seq<char>,
    pub is_file: bool,
    pub hash: Seq<char>,
}

impl View for DirItem {
    type V = DirItemView;

    open spec fn view(&self) -> DirItemView {
        DirItemView { name: self.name@, is_file: self.is_file, hash: self.hash@ }
    }
}

/// The items as plain values.
pub open spec fn items_view(items: Seq<DirItem>) -> Seq<DirItemView> {
    items.map_values(|i: DirItem| i@)
}

/// `.git`, the name of the repository's own directory.
pub open spec fn git_dir() -> Seq<char> {
    seq!['.', 'g', 'i', 't']
}

/// `target`, the name of the directory of build outputs.
pub open spec fn build_dir() -> Seq<char> {
    seq!['t', 'a', 'r', 'g', 'e', 't']
}

/// Whether a directory walk passes over this name.
pub open spec fn is_excluded(name: Seq<char>) -> bool {
    name == git_dir() || name == build_dir()
}

/// `100644`, the mode of a file.
pub open spec fn file_mode() -> Seq<char> {
    seq!['1', '0', '0', '6', '4', '4']
}

/// `40000`, the mode of a directory.
pub open spec fn dir_mode() -> Seq<char> {
    seq!['4', '0', '0', '0', '0']
}

/// The tree entry for a directory item.
pub open spec fn dir_entry(item: DirItemView) -> TreeEntryView {
    TreeEntryView {
        mode: if item.is_file {
            file_mode()
        } else {
            dir_mode()
        },
        name: item.name,
        hash: item.hash,
    }
}

/// The tree entries for the items of a directory, in their order, without
/// the items that a walk passes over.
pub open spec fn folder_entries(items: Seq<DirItemView>) -> Seq<TreeEntryView>
    decreases items.len(),
{
    if items.len() == 0 {
        Seq::empty()
    } else if is_excluded(items.last().name) {
        folder_entries(items.drop_last())
    } else {
        folder_entries(items.drop_last()).push(dir_entry(items.last()))
    }
}

/// The tree entries for the first items of a directory are the first of
/// the tree entries for all its items.
pub proof fn lemma_folder_entries_grow(items: Seq<DirItemView>, n: int)
    requires
        0 <= n <= items.len(),
    ensures
        folder_entries(items.take(n)).len() <= folder_entries(items).len(),
        folder_entries(items.take(n)) == folder_entries(items).take(
            folder_entries(items.take(n)).len() as int,
        ),
    decreases items.len() - n,
{
    if n == items.len() {
        assert(items.take(n) =~= items);
        assert(folder_entries(items).take(folder_entries(items).len() as int) =~= folder_entries(
            items,
        ));
    } else {
        lemma_folder_entries_grow(items, n + 1);
        assert(items.take(n + 1).drop_last() =~= items.take(n));
        assert(folder_entries(items.take(n)) =~= folder_entries(items).take(
            folder_entries(items.take(n)).len() as int,
        ));
    }
}

/// The names of a directory as a set: each name once, in the order of its
/// first mention, without the names that a walk passes over.
pub open spec fn dir_set(names: Seq<Seq<char>>) -> Seq<Seq<char>>
    decreases names.len(),
{
    if names.len() == 0 {
        Seq::empty()
    } else {
        let front = dir_set(names.drop_last());
        if is_excluded(names.last()) || front.contains(names.last()) {
            front
        } else {
            front.push(names.last())
        }
    }
}

/// `dir_set` holds each name once, and holds exactly the given names that
/// a walk does not pass over.
pub proof fn lemma_dir_set(names: Seq<Seq<char>>)
    ensures
        dir_set(names).no_duplicates(),
        forall|name: Seq<char>| #[trigger]
            dir_set(names).contains(name) <==> names.contains(name) && !is_excluded(name),
    decreases names.len(),
{
    if names.len() > 0 {
        let front = dir_set(names.drop_last());
        lemma_dir_set(names.drop_last());
        assert forall|name: Seq<char>| #[trigger]
            dir_set(names).contains(name) <==> names.contains(name) && !is_excluded(name) by {
            if names.contains(name) {
                let at = choose|at: int| 0 <= at < names.len() && names[at] == name;
                if at < names.len() - 1 {
                    assert(names.drop_last()[at] == name);
                }
            }
            if names.drop_last().contains(name) {
                let at = choose|at: int|
                    0 <= at < names.drop_last().len() && names.drop_last()[at] == name;
                assert(names[at] == name);
            }
            if front.contains(name) {
                let at = choose|at: int| 0 <= at < front.len() && front[at] == name;
                if dir_set(names).len() > front.len() {
                    assert(dir_set(names)[at] == name);
                }
            }
            if dir_set(names).contains(name) && !front.contains(name) {
                let at = choose|at: int|
                    0 <= at < dir_set(names).len() && dir_set(names)[at] == name;
                if at < front.len() {
                    assert(front[at] == name);
                }
                assert(names[names.len() - 1] == name);
            }
            if names.last() == name && !is_excluded(name) && !front.contains(name) {
                assert(dir_set(names)[front.len() as int] == name);
            }
        }
    }
}

/// Whether the name is one that a directory walk passes over.
pub fn is_excluded_name(name: &str) -> (r: bool)
    ensures
        r == is_excluded(name@),
{
    let git: Vec<char> = vec!['.', 'g', 'i', 't'];
    let target: Vec<char> = vec!['t', 'a', 'r', 'g', 'e', 't'];
    assert(git@ =~= git_dir());
    assert(target@ =~= build_dir());
    crate::text::spells(name, git.as_slice()) || crate::text::spells(name, target.as_slice())
}

impl Tree {
    /// The tree entry for an item of a directory: a file has mode `100644`,
    /// anything else mode `40000`.
    pub fn read_dir_entry(item: &DirItem) -> (entry: TreeEntry)
        ensures
            entry@ == dir_entry(item@),
    {
        let mode: Vec<char> = if item.is_file {
            vec!['1', '0', '0', '6', '4', '4']
        } else {
            vec!['4', '0', '0', '0', '0']
        };
        assert(item.is_file ==> mode@ =~= file_mode());
        assert(!item.is_file ==> mode@ =~= dir_mode());
        TreeEntry {
            mode: from_chars(mode.as_slice()),
            name: item.name.clone(),
            hash: item.hash.clone(),
        }
    }

    /// The id of the tree that a directory with these items would be stored
    /// as. Items named `.git` or `target` are passed over; of the others
    /// each must come with the id of its content.
    pub fn hash_folder(items: &Vec<DirItem>) -> (id: String)
        requires
            ids_well_formed(folder_entries(items_view(items@))),
        ensures
            id@ == tree_id(folder_entries(items_view(items@))),
            is_object_id(id@),
    {
        let ghost all = items_view(items@);
        let mut entries: Vec<TreeEntry> = Vec::new();
        let mut i: usize = 0;
        assert(all.take(0) =~= Seq::empty());
        assert(entries_view(entries@) =~= Seq::empty());
        while i < items.len()
            invariant
                i <= items.len(),
                all == items_view(items@),
                entries_view(entries@) == folder_entries(all.take(i as int)),
            decreases items.len() - i,
        {
            proof {
                assert(all.take(i + 1).drop_last() =~= all.take(i as int));
                assert(all.take(i + 1).last() == items@[i as int]@);
            }
            if !is_excluded_name(items[i].name.as_str()) {
                let ghost before = entries_view(entries@);
                let entry = Tree::read_dir_entry(&items[i]);
                let ghost view = entry@;
                entries.push(entry);
                assert(entries_view(entries@) =~= before.push(view));
            }
            i += 1;
        }
        assert(all.take(all.len() as int) =~= all);
        Tree::hash_entries(entries)
    }

    /// The id of the tree that a directory with these items would be stored
    /// as, if each item that is not passed over comes with a well-formed
    /// id.
    pub fn try_hash_folder(items: &Vec<DirItem>) -> (r: Option<String>)
        ensures
            match r {
                Some(id) => ids_well_formed(folder_entries(items_view(items@))) && id@ == tree_id(
                    folder_entries(items_view(items@)),
                ) && is_object_id(id@),
                None => !ids_well_formed(folder_entries(items_view(items@))),
            },
    {
        let ghost all = items_view(items@);
        let mut i: usize = 0;
        assert(all.take(0) =~= Seq::empty());
        while i < items.len()
            invariant
                i <= items.len(),
                all == items_view(items@),
                ids_well_formed(folder_entries(all.take(i as int))),
            decreases items.len() - i,
        {
            proof {
                assert(all.take(i + 1).drop_last() =~= all.take(i as int));
                assert(all.take(i + 1).last() == items@[i as int]@);
            }
            if !is_excluded_name(items[i].name.as_str()) && !crate::objectid::is_valid_object_id(
                items[i].hash.as_str(),
            ) {
                proof {
                    lemma_folder_entries_grow(all, i + 1);
                    let upto = folder_entries(all.take(i + 1));
                    assert(upto.last() == dir_entry(items@[i as int]@));
                    assert(folder_entries(all)[upto.len() - 1] == upto.last());
                }
                return None;
            }
            proof {
                let before = folder_entries(all.take(i as int));
                let upto = folder_entries(all.take(i + 1));
                assert forall|j: int| 0 <= j < upto.len() implies is_object_id(
                    (#[trigger] upto[j]).hash,
                ) by {
                    if j < before.len() {
                        assert(upto[j] == before[j]);
                    }
                }
            }
            i += 1;
        }
        assert(all.take(all.len() as int) =~= all);
        Some(Tree::hash_folder(items))
    }

    /// The names of a directory as a set, without `.git` and `target`.
    pub fn read_dir_to_set(names: &Vec<String>) -> (set: Vec<String>)
        ensures
            crate::text::texts(set@) == dir_set(crate::text::texts(names@)),
            crate::text::texts(set@).no_duplicates(),
    {
        let ghost all = crate::text::texts(names@);
        let mut set: Vec<String> = Vec::new();
        let mut i: usize = 0;
        assert(all.take(0) =~= Seq::empty());
        assert(crate::text::texts(set@) =~= Seq::empty());
        while i < names.len()
            invariant
                i <= names.len(),
                all == crate::text::texts(names@),
                crate::text::texts(set@) == dir_set(all.take(i as int)),
            decreases names.len() - i,
        {
            proof {
                assert(all.take(i + 1).drop_last() =~= all.take(i as int));
                assert(all.take(i + 1).last() == names@[i as int]@);
            }
            if !is_excluded_name(names[i].as_str()) && !crate::text::holds_text(
                &set,
                names[i].as_str(),
            ) {
                let ghost before = crate::text::texts(set@);
                set.push(names[i].clone());
                assert(crate::text::texts(set@) =~= before.push(names@[i as int]@));
            }
            i += 1;
        }
        proof {
            assert(all.take(all.len() as int) =~= all);
            lemma_dir_set(all);
        }
        set
    }
}

} // verus!
