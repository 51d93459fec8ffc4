//! The index: the binary file that lists the staged files.

use vstd::prelude::*;
use crate::error::GitError;
use crate::objectid::{encode_hex, hex_encode, is_object_id};
use crate::text::{has_bytes_at, lossy_string, occurs_at, same_text, text_of};

verus! {

/// One staged file.
#[derive(Debug)]
pub struct IndexEntry {
    pub ctime: u32,
    pub ctime_nsec: u32,
    pub mtime: u32,
    pub mtime_nsec: u32,
    pub device: u32,
    pub inode: u32,
    pub mode: u32,
    pub uid: u32,
    pub gid: u32,
    pub size: u32,
    /// The id of the staged content, as 40 hexadecimal digits.
    pub sha1: String,
    /// The low twelve bits hold the length of the name in bytes.
    pub flags: u16,
    /// The file's path from the root of the working tree.
    pub name: String,
}

/// A staged file as plain values.
pub struct IndexEntryView {
    pub ctime: u32,
    pub ctime_nsec: u32,
    pub mtime: u32,
    pub mtime_nsec: u32,
    pub device: u32,
    pub inode: u32,
    pub mode: u32,
    pub uid: u32,
    pub gid: u32,
    pub size: u32,
    pub sha1: Seq<char>,
    pub flags: u16,
    pub name: Seq<char>,
}

impl View for IndexEntry {
    type V = IndexEntryView;

    open spec fn view(&self) -> IndexEntryView {
        IndexEntryView {
            ctime: self.ctime,
            ctime_nsec: self.ctime_nsec,
            mtime: self.mtime,
            mtime_nsec: self.mtime_nsec,
            device: self.device,
            inode: self.inode,
            mode: self.mode,
            uid: self.uid,
            gid: self.gid,
            size: self.size,
            sha1: self.sha1@,
            flags: self.flags,
            name: self.name@,
        }
    }
}

impl IndexEntry {
    /// An entry with the given fields.
    pub fn new(
        ctime: u32,
        ctime_nsec: u32,
        mtime: u32,
        mtime_nsec: u32,
        device: u32,
        inode: u32,
        mode: u32,
        uid: u32,
        gid: u32,
        size: u32,
        sha1: String,
        flags: u16,
        name: String,
    ) -> (entry: Self)
        ensures
            entry.ctime == ctime,
            entry.ctime_nsec == ctime_nsec,
            entry.mtime == mtime,
            entry.mtime_nsec == mtime_nsec,
            entry.device == device,
            entry.inode == inode,
            entry.mode == mode,
            entry.uid == uid,
            entry.gid == gid,
            entry.size == size,
            entry.sha1 == sha1,
            entry.flags == flags,
            entry.name == name,
    {
        Self {
            ctime,
            ctime_nsec,
            mtime,
            mtime_nsec,
            device,
            inode,
            mode,
            uid,
            gid,
            size,
            sha1,
            flags,
            name,
        }
    }
}

/// The staged files, in the order of the index file.
#[derive(Debug)]
pub struct Index {
    pub version: u32,
    pub num_entries: u32,
    pub entries: Vec<IndexEntry>,
}

/// An index as plain values.
pub struct IndexView {
    pub version: u32,
    pub num_entries: u32,
    pub entries: Seq<IndexEntryView>,
}

/// The entries as plain values.
pub open spec fn entries_view(entries: Seq<IndexEntry>) -> Seq<IndexEntryView> {
    entries.map_values(|e: IndexEntry| e@)
}

impl View for Index {
    type V = IndexView;

    open spec fn view(&self) -> IndexView {
        IndexView {
            version: self.version,
            num_entries: self.num_entries,
            entries: entries_view(self.entries@),
        }
    }
}

/// The four bytes `DIRC` that an index file starts with.
pub open spec fn index_magic() -> Seq<u8> {
    seq![68u8, 73, 82, 67]
}

/// The big-endian number in the four bytes from `at` on.
pub open spec fn be32(bytes: Seq<u8>, at: int) -> u32 {
    (bytes[at] as int * 0x100_0000 + bytes[at + 1] as int * 0x1_0000 + bytes[at + 2] as int * 0x100
        + bytes[at + 3] as int) as u32
}

/// The big-endian number in the two bytes from `at` on.
pub open spec fn be16(bytes: Seq<u8>, at: int) -> u16 {
    (bytes[at] as int * 0x100 + bytes[at + 1] as int) as u16
}

/// The length in bytes of the name of an entry with these flags.
pub open spec fn name_length(flags: u16) -> int {
    (flags & 0x0fff) as int
}

/// The length of a record whose name has `name_len` bytes: 62 bytes of
/// fixed fields, the name and at least one NUL, up to the next multiple of
/// eight.
pub open spec fn record_length(name_len: int) -> int {
    (62 + name_len + 1 + 7) / 8 * 8
}

/// The record that starts at `at`, if all of it lies inside `bytes`.
pub open spec fn entry_at(bytes: Seq<u8>, at: int) -> Option<IndexEntryView> {
    if at + 62 <= bytes.len() && at + record_length(name_length(be16(bytes, at + 60)))
        <= bytes.len() {
        Some(
            IndexEntryView {
                ctime: be32(bytes, at),
                ctime_nsec: be32(bytes, at + 4),
                mtime: be32(bytes, at + 8),
                mtime_nsec: be32(bytes, at + 12),
                device: be32(bytes, at + 16),
                inode: be32(bytes, at + 20),
                mode: be32(bytes, at + 24),
                uid: be32(bytes, at + 28),
                gid: be32(bytes, at + 32),
                size: be32(bytes, at + 36),
                sha1: hex_encode(bytes.subrange(at + 40, at + 60)),
                flags: be16(bytes, at + 60),
                name: text_of(
                    bytes.subrange(at + 62, at + 62 + name_length(be16(bytes, at + 60))),
                ),
            },
        )
    } else {
        None
    }
}

/// The `count` records from `at` on, if all of them lie inside `bytes`.
pub open spec fn entries_from(bytes: Seq<u8>, at: int, count: nat) -> Option<Seq<IndexEntryView>>
    decreases count,
{
    if count == 0 {
        Some(Seq::empty())
    } else {
        match entry_at(bytes, at) {
            None => None,
            Some(entry) => match entries_from(
                bytes,
                at + record_length(name_length(entry.flags)),
                (count - 1) as nat,
            ) {
                None => None,
                Some(rest) => Some(seq![entry] + rest),
            },
        }
    }
}

/// The index that the bytes of an index file hold.
///
/// The file starts with `DIRC`, the version, which must be 2, and the
/// number of records, each a big-endian number of four bytes; the records
/// follow. A file with another start, or too short for its header or for
/// one of its records, is invalid.
pub open spec fn parse_index(bytes: Seq<u8>) -> Result<IndexView, GitError> {
    if !occurs_at(bytes, 0, index_magic()) || bytes.len() < 8 {
        Err(GitError::InvalidIndex)
    } else if be32(bytes, 4) != 2 {
        Err(GitError::UnsupportedIndexVersion)
    } else if bytes.len() < 12 {
        Err(GitError::InvalidIndex)
    } else {
        match entries_from(bytes, 12, be32(bytes, 8) as nat) {
            None => Err(GitError::InvalidIndex),
            Some(entries) => Ok(IndexView { version: 2, num_entries: be32(bytes, 8), entries }),
        }
    }
}

/// The result with the index as plain values.
pub open spec fn index_result_view(r: Result<Index, GitError>) -> Result<IndexView, GitError> {
    match r {
        Ok(index) => Ok(index@),
        Err(e) => Err(e),
    }
}

/// Reading an index is a function of the bytes: two readings of the same
/// bytes give the same entries in the same order, or the same error.
pub proof fn lemma_read_index_deterministic(
    bytes: Seq<u8>,
    first: Result<Index, GitError>,
    second: Result<Index, GitError>,
)
    requires
        index_result_view(first) == parse_index(bytes),
        index_result_view(second) == parse_index(bytes),
    ensures
        index_result_view(first) == index_result_view(second),
        first is Ok ==> second is Ok && first->Ok_0@.entries == second->Ok_0@.entries,
{
}

/// Bytes that do not start with `DIRC` are an invalid index.
pub proof fn lemma_bad_magic_is_invalid(bytes: Seq<u8>)
    requires
        !occurs_at(bytes, 0, index_magic()),
    ensures
        parse_index(bytes) == Err::<IndexView, GitError>(GitError::InvalidIndex),
{
}

/// A record ends on a multiple of eight bytes from its start, behind the
/// name and at least one NUL, and holds no more than eight NULs.
pub proof fn lemma_record_length(name_len: int)
    requires
        0 <= name_len,
    ensures
        record_length(name_len) % 8 == 0,
        62 + name_len + 1 <= record_length(name_len) < 62 + name_len + 1 + 8,
{
}

/// Every entry that is read names its content by a well-formed id.
pub proof fn lemma_read_ids_well_formed(bytes: Seq<u8>, at: int, count: nat)
    requires
        0 <= at,
        entries_from(bytes, at, count) is Some,
    ensures
        forall|i: int|
            0 <= i < entries_from(bytes, at, count)->0.len() ==> is_object_id(
                (#[trigger] entries_from(bytes, at, count)->0[i]).sha1,
            ),
    decreases count,
{
    if count > 0 {
        let entry = entry_at(bytes, at)->0;
        let next = at + record_length(name_length(entry.flags));
        let rest = entries_from(bytes, next, (count - 1) as nat)->0;
        lemma_read_ids_well_formed(bytes, next, (count - 1) as nat);
        crate::objectid::lemma_encoded_digest_is_object_id(bytes.subrange(at + 40, at + 60));
        assert forall|i: int| 0 <= i < (seq![entry] + rest).len() implies is_object_id(
            (#[trigger] (seq![entry] + rest)[i]).sha1,
        ) by {
            if i > 0 {
                assert((seq![entry] + rest)[i] == rest[i - 1]);
            }
        }
    }
}

/// Records that all lie inside the bytes take at least 64 bytes each.
pub proof fn lemma_entries_fit(bytes: Seq<u8>, at: int, count: nat)
    requires
        entries_from(bytes, at, count) is Some,
    ensures
        count > 0 ==> at + 64 * count <= bytes.len(),
        entries_from(bytes, at, count)->0.len() == count,
    decreases count,
{
    if count > 0 {
        let entry = entry_at(bytes, at)->0;
        let len = name_length(entry.flags);
        assert(record_length(len) >= 64);
        lemma_entries_fit(bytes, at + record_length(len), (count - 1) as nat);
    }
}

/// An index whose header counts more records than fit into the bytes is
/// invalid.
pub proof fn lemma_count_out_of_range_is_invalid(bytes: Seq<u8>)
    requires
        occurs_at(bytes, 0, index_magic()),
        bytes.len() >= 12,
        be32(bytes, 4) == 2,
        12 + 64 * be32(bytes, 8) > bytes.len(),
    ensures
        parse_index(bytes) == Err::<IndexView, GitError>(GitError::InvalidIndex),
{
    if entries_from(bytes, 12, be32(bytes, 8) as nat) is Some {
        lemma_entries_fit(bytes, 12, be32(bytes, 8) as nat);
    }
}

/// The records read so far, followed by those still to read.
pub open spec fn with_rest(done: Seq<IndexEntryView>, rest: Option<Seq<IndexEntryView>>) -> Option<
    Seq<IndexEntryView>,
> {
    match rest {
        Some(r) => Some(done + r),
        None => None,
    }
}

/// The position of the first entry named `name`, or the number of entries
/// when there is none.
pub open spec fn entry_position(entries: Seq<IndexEntryView>, name: Seq<char>) -> int
    decreases entries.len(),
{
    if entries.len() == 0 || entries[0].name == name {
        0
    } else {
        1 + entry_position(entries.skip(1), name)
    }
}

fn read_be32(bytes: &[u8], at: usize) -> (v: u32)
    requires
        at + 4 <= bytes@.len(),
    ensures
        v == be32(bytes@, at as int),
{
    (bytes[at] as u32) * 0x100_0000 + (bytes[at + 1] as u32) * 0x1_0000 + (bytes[at + 2] as u32)
        * 0x100 + (bytes[at + 3] as u32)
}

fn read_be16(bytes: &[u8], at: usize) -> (v: u16)
    requires
        at + 2 <= bytes@.len(),
    ensures
        v == be16(bytes@, at as int),
{
    (bytes[at] as u16) * 0x100 + (bytes[at + 1] as u16)
}

fn read_entry(bytes: &[u8], at: usize) -> (r: Option<(IndexEntry, usize)>)
    requires
        at <= bytes@.len(),
    ensures
        match r {
            Some((entry, next)) => entry_at(bytes@, at as int) == Some(entry@) && next == at
                + record_length(name_length(entry.flags)) && next <= bytes@.len(),
            None => entry_at(bytes@, at as int) is None,
        },
{
    let len = bytes.len();
    if len - at < 62 {
        return None;
    }
    let flags = read_be16(bytes, at + 60);
    let name_len: usize = (flags & 0x0fff) as usize;
    assert(flags & 0x0fff <= 0x0fff) by (bit_vector);
    let record: usize = (62 + name_len + 1 + 7) / 8 * 8;
    if len - at < record {
        return None;
    }
    let entry = IndexEntry {
        ctime: read_be32(bytes, at),
        ctime_nsec: read_be32(bytes, at + 4),
        mtime: read_be32(bytes, at + 8),
        mtime_nsec: read_be32(bytes, at + 12),
        device: read_be32(bytes, at + 16),
        inode: read_be32(bytes, at + 20),
        mode: read_be32(bytes, at + 24),
        uid: read_be32(bytes, at + 28),
        gid: read_be32(bytes, at + 32),
        size: read_be32(bytes, at + 36),
        sha1: encode_hex(&bytes[at + 40..at + 60]),
        flags,
        name: lossy_string(&bytes[at + 62..at + 62 + name_len]),
    };
    Some((entry, at + record))
}

impl Index {
    /// An index of the given version with the given entries. The count is
    /// the number of entries, as far as 32 bits hold it.
    pub fn new(version: u32, entries: Vec<IndexEntry>) -> (index: Self)
        ensures
            index.version == version,
            index.entries == entries,
            index.num_entries as int == entries@.len() % 0x1_0000_0000,
    {
        let count: u64 = entries.len() as u64 % 0x1_0000_0000u64;
        Self { version, num_entries: count as u32, entries }
    }

    /// Reads the index from the bytes of the index file.
    pub fn read_index(bytes: &[u8]) -> (r: Result<Self, GitError>)
        ensures
            index_result_view(r) == parse_index(bytes@),
            r matches Ok(index) ==> forall|i: int|
                0 <= i < index@.entries.len() ==> is_object_id((#[trigger] index@.entries[i]).sha1),
    {
        let magic: Vec<u8> = vec![68u8, 73, 82, 67];
        assert(magic@ =~= index_magic());
        if !has_bytes_at(bytes, 0, magic.as_slice()) || bytes.len() < 8 {
            return Err(GitError::InvalidIndex);
        }
        let version = read_be32(bytes, 4);
        if version != 2 {
            return Err(GitError::UnsupportedIndexVersion);
        }
        if bytes.len() < 12 {
            return Err(GitError::InvalidIndex);
        }
        let count = read_be32(bytes, 8);
        let mut entries: Vec<IndexEntry> = Vec::new();
        let mut at: usize = 12;
        let mut i: u32 = 0;
        assert(entries_view(entries@) =~= Seq::empty());
        while i < count
            invariant
                i <= count,
                at <= bytes@.len(),
                entries@.len() == i,
                occurs_at(bytes@, 0, index_magic()),
                bytes@.len() >= 12,
                be32(bytes@, 4) == 2,
                count == be32(bytes@, 8),
                entries_from(bytes@, 12, count as nat) == with_rest(
                    entries_view(entries@),
                    entries_from(bytes@, at as int, (count - i) as nat),
                ),
            decreases count - i,
        {
            match read_entry(bytes, at) {
                None => {
                    assert(entries_from(bytes@, at as int, (count - i) as nat) is None);
                    return Err(GitError::InvalidIndex);
                },
                Some((entry, next)) => {
                    let ghost before = entries_view(entries@);
                    let ghost view = entry@;
                    entries.push(entry);
                    proof {
                        assert(entries_view(entries@) =~= before.push(view));
                        let rest = entries_from(bytes@, next as int, (count - i - 1) as nat);
                        if rest is Some {
                            assert(before + (seq![view] + rest->0) =~= before.push(view)
                                + rest->0);
                        }
                    }
                    at = next;
                    i += 1;
                },
            }
        }
        proof {
            assert(entries_view(entries@) + Seq::<IndexEntryView>::empty() =~= entries_view(
                entries@,
            ));
            lemma_read_ids_well_formed(bytes@, 12, count as nat);
        }
        Ok(Index { version, num_entries: count, entries })
    }

    /// The first entry with the given name, if there is one.
    pub fn get_entry(&self, name: &str) -> (r: Option<&IndexEntry>)
        ensures
            match r {
                Some(entry) => {
                    let at = entry_position(self@.entries, name@);
                    0 <= at < self.entries@.len() && *entry == self.entries@[at]
                },
                None => entry_position(self@.entries, name@) == self.entries@.len(),
            },
            r is Some <==> exists|i: int|
                0 <= i < self.entries@.len() && #[trigger] self.entries@[i].name@ == name@,
    {
        let ghost all = self@.entries;
        let mut i: usize = 0;
        assert(all.skip(0) =~= all);
        while i < self.entries.len()
            invariant
                i <= self.entries.len(),
                all == self@.entries,
                entry_position(all, name@) == i + entry_position(all.skip(i as int), name@),
                forall|j: int| 0 <= j < i ==> self.entries@[j].name@ != name@,
            decreases self.entries.len() - i,
        {
            if same_text(self.entries[i].name.as_str(), name) {
                assert(all.skip(i as int)[0] == self.entries@[i as int]@);
                return Some(&self.entries[i]);
            }
            proof {
                assert(all.skip(i as int)[0] == self.entries@[i as int]@);
                assert(all.skip(i as int).skip(1) =~= all.skip(i + 1));
            }
            i += 1;
        }
        None
    }
}

} // verus!
