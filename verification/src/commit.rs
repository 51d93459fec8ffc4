//! Commits: a snapshot's tree, its parent, who made it and why.

use vstd::prelude::*;
use vstd::string::StringExecFns;
use crate::error::GitError;
use crate::objectreader::{payload_start, sniffed_kind, ObjectKind, ObjectReader};
use crate::stream::{inflate_all, zlib_inflate};
use crate::text::{
    copy_range, find_chars, first_index, first_occurrence, from_chars, has_chars_at, join_lines,
    join_rows, last_index, lemma_first_index_unique, lines_of, lossy_string, occurs_at,
    rfind_char, rows_view, text_lines, to_chars, text_of,
};

verus! {

/// A commit, with the id it is stored under.
#[derive(Debug)]
pub struct Commit {
    /// The commit's own id.
    pub hash: String,
    /// The id of the tree it records.
    pub tree: String,
    /// The id of the commit it follows, if any.
    pub parent: Option<String>,
    /// The author's name and address.
    pub author: String,
    /// The committer's name and address.
    pub committer: String,
    /// The message, without a line feed at its end.
    pub message: String,
    /// When the author wrote it, in seconds since 1970, as decimal digits.
    pub timestamp: String,
    /// The author's offset from UTC, as in `+0100`.
    pub timezone: String,
}

/// A commit as plain text values.
pub struct CommitView {
    pub hash: Seq<char>,
    pub tree: Seq<char>,
    pub parent: Option<Seq<char>>,
    pub author: Seq<char>,
    pub committer: Seq<char>,
    pub message: Seq<char>,
    pub timestamp: Seq<char>,
    pub timezone: Seq<char>,
}

impl View for Commit {
    type V = CommitView;

    open spec fn view(&self) -> CommitView {
        CommitView {
            hash: self.hash@,
            tree: self.tree@,
            parent: match self.parent {
                Some(p) => Some(p@),
                None => None,
            },
            author: self.author@,
            committer: self.committer@,
            message: self.message@,
            timestamp: self.timestamp@,
            timezone: self.timezone@,
        }
    }
}

/// What the header lines of a commit say, each field as its last mention
/// has it.
pub struct HeaderFields {
    pub tree: Option<Vec<char>>,
    pub parent: Option<Vec<char>>,
    pub author: Option<Vec<char>>,
    pub timestamp: Option<Vec<char>>,
    pub timezone: Option<Vec<char>>,
    pub committer: Option<Vec<char>>,
}

/// Header fields as plain text values.
pub struct HeaderFieldsView {
    pub tree: Option<Seq<char>>,
    pub parent: Option<Seq<char>>,
    pub author: Option<Seq<char>>,
    pub timestamp: Option<Seq<char>>,
    pub timezone: Option<Seq<char>>,
    pub committer: Option<Seq<char>>,
}

/// The characters of an optional text.
pub open spec fn chars_view(text: Option<Vec<char>>) -> Option<Seq<char>> {
    match text {
        Some(t) => Some(t@),
        None => None,
    }
}

impl View for HeaderFields {
    type V = HeaderFieldsView;

    open spec fn view(&self) -> HeaderFieldsView {
        HeaderFieldsView {
            tree: chars_view(self.tree),
            parent: chars_view(self.parent),
            author: chars_view(self.author),
            timestamp: chars_view(self.timestamp),
            timezone: chars_view(self.timezone),
            committer: chars_view(self.committer),
        }
    }
}

/// `commit `, the word before the size in an object's first line.
pub open spec fn commit_word() -> Seq<char> {
    seq!['c', 'o', 'm', 'm', 'i', 't', ' ']
}

/// `tree `, the word before the tree's id.
pub open spec fn tree_word() -> Seq<char> {
    seq!['t', 'r', 'e', 'e', ' ']
}

/// `parent `, the word before the parent's id.
pub open spec fn parent_word() -> Seq<char> {
    seq!['p', 'a', 'r', 'e', 'n', 't', ' ']
}

/// `author `, the word before the author's signature.
pub open spec fn author_word() -> Seq<char> {
    seq!['a', 'u', 't', 'h', 'o', 'r', ' ']
}

/// `committer `, the word before the committer's signature.
pub open spec fn committer_word() -> Seq<char> {
    seq!['c', 'o', 'm', 'm', 'i', 't', 't', 'e', 'r', ' ']
}

/// No field at all.
pub open spec fn no_fields() -> HeaderFieldsView {
    HeaderFieldsView {
        tree: None,
        parent: None,
        author: None,
        timestamp: None,
        timezone: None,
        committer: None,
    }
}

/// The parts of a signature `name time zone`: the name is all that stands
/// before the last two spaces, the time stands between them, the zone after
/// them. A text with fewer than two spaces is no signature.
pub open spec fn signature_parts(rest: Seq<char>) -> Option<(Seq<char>, Seq<char>, Seq<char>)> {
    let zone_at = last_index(rest, ' ');
    let time_at = last_index(rest.take(zone_at), ' ');
    if zone_at < 0 || time_at < 0 {
        None
    } else {
        Some((rest.take(time_at), rest.subrange(time_at + 1, zone_at), rest.skip(zone_at + 1)))
    }
}

/// The fields that one header line sets.
///
/// A line `tree <id>` sets the tree. So does a line that starts with
/// `commit ` and holds `tree ` further on, as the first line of a stored
/// commit does, where the object's size and a NUL stand between the two: the
/// tree is what follows the first `tree `. A line `parent <id>` sets the
/// parent, a line `author <signature>` the author, the time and the zone, a
/// line `committer <signature>` the committer.
pub open spec fn line_fields(line: Seq<char>) -> HeaderFieldsView {
    if occurs_at(line, 0, commit_word()) {
        match first_occurrence(line.skip(7), tree_word(), 0) {
            Some(at) => HeaderFieldsView { tree: Some(line.skip(7 + at + 5)), ..no_fields() },
            None => no_fields(),
        }
    } else if occurs_at(line, 0, tree_word()) {
        HeaderFieldsView { tree: Some(line.skip(5)), ..no_fields() }
    } else if occurs_at(line, 0, parent_word()) {
        HeaderFieldsView { parent: Some(line.skip(7)), ..no_fields() }
    } else if occurs_at(line, 0, author_word()) {
        match signature_parts(line.skip(7)) {
            Some(parts) => HeaderFieldsView {
                author: Some(parts.0),
                timestamp: Some(parts.1),
                timezone: Some(parts.2),
                ..no_fields()
            },
            None => no_fields(),
        }
    } else if occurs_at(line, 0, committer_word()) {
        match signature_parts(line.skip(10)) {
            Some(parts) => HeaderFieldsView { committer: Some(parts.0), ..no_fields() },
            None => no_fields(),
        }
    } else {
        no_fields()
    }
}

/// `later` where it is set, else `earlier`.
pub open spec fn or_earlier(later: Option<Seq<char>>, earlier: Option<Seq<char>>) -> Option<
    Seq<char>,
> {
    if later is Some {
        later
    } else {
        earlier
    }
}

/// The fields after one more line: what the line sets replaces what was
/// there.
pub open spec fn merge_fields(earlier: HeaderFieldsView, later: HeaderFieldsView) -> HeaderFieldsView {
    HeaderFieldsView {
        tree: or_earlier(later.tree, earlier.tree),
        parent: or_earlier(later.parent, earlier.parent),
        author: or_earlier(later.author, earlier.author),
        timestamp: or_earlier(later.timestamp, earlier.timestamp),
        timezone: or_earlier(later.timezone, earlier.timezone),
        committer: or_earlier(later.committer, earlier.committer),
    }
}

/// The fields that the header lines set, a later line before an earlier one.
pub open spec fn header_fields(header: Seq<Seq<char>>) -> HeaderFieldsView
    decreases header.len(),
{
    if header.len() == 0 {
        no_fields()
    } else {
        merge_fields(header_fields(header.drop_last()), line_fields(header.last()))
    }
}

/// The text of a field, empty where the field was not set.
pub open spec fn or_empty(text: Option<Seq<char>>) -> Seq<char> {
    match text {
        Some(t) => t,
        None => Seq::empty(),
    }
}

/// The commit that `text` describes, stored under `hash`.
///
/// The header is the lines before the first empty line; the message is the
/// lines after it, joined by line feeds. A text without an empty line, or
/// whose header names no tree, is malformed.
pub open spec fn parse_commit(hash: Seq<char>, text: Seq<char>) -> Result<CommitView, GitError> {
    let lines = lines_of(text);
    let blank = first_index(lines, Seq::<char>::empty());
    let fields = header_fields(lines.take(blank));
    if blank >= lines.len() || fields.tree is None {
        Err(GitError::MalformedCommit)
    } else {
        Ok(
            CommitView {
                hash,
                tree: fields.tree->0,
                parent: fields.parent,
                author: or_empty(fields.author),
                committer: or_empty(fields.committer),
                message: join_lines(lines.skip(blank + 1)),
                timestamp: or_empty(fields.timestamp),
                timezone: or_empty(fields.timezone),
            },
        )
    }
}

/// What reading a commit under `hash` from the bytes of its file gives:
/// with no file, the object is not found; a stream that does not inflate,
/// or that inflates to anything but a commit's header and payload, is
/// corrupt. The commit is read from all the inflated bytes, header and all.
pub open spec fn read_commit(hash: Seq<char>, inflated: Option<Option<Seq<u8>>>) -> Result<
    CommitView,
    GitError,
> {
    match inflated {
        None => Err(GitError::ObjectNotFound),
        Some(None) => Err(GitError::CorruptObject),
        Some(Some(raw)) => if sniffed_kind(raw) == Some(ObjectKind::Commit) && payload_start(raw)
            is Some {
            parse_commit(hash, text_of(raw))
        } else {
            Err(GitError::CorruptObject)
        },
    }
}

/// The result with the commit as plain text values.
pub open spec fn parsed_view(r: Result<Commit, GitError>) -> Result<CommitView, GitError> {
    match r {
        Ok(c) => Ok(c@),
        Err(e) => Err(e),
    }
}

fn empty_fields() -> (f: HeaderFields)
    ensures
        f@ == no_fields(),
{
    HeaderFields {
        tree: None,
        parent: None,
        author: None,
        timestamp: None,
        timezone: None,
        committer: None,
    }
}

/// Splits a signature into name, time and zone.
pub fn split_signature(rest: &[char]) -> (r: Option<(Vec<char>, Vec<char>, Vec<char>)>)
    ensures
        match r {
            Some(p) => signature_parts(rest@) == Some((p.0@, p.1@, p.2@)),
            None => signature_parts(rest@) is None,
        },
{
    let n = rest.len();
    match rfind_char(rest, ' ') {
        None => None,
        Some(zone_at) => {
            assert(rest@.take(zone_at as int) == rest@.subrange(0, zone_at as int));
            match rfind_char(&rest[0..zone_at], ' ') {
                None => None,
                Some(time_at) => {
                    let name = copy_range(rest, 0, time_at);
                    let time = copy_range(rest, time_at + 1, zone_at);
                    let zone = copy_range(rest, zone_at + 1, n);
                    assert(rest@.take(time_at as int) == rest@.subrange(0, time_at as int));
                    assert(rest@.skip(zone_at + 1) == rest@.subrange(
                        zone_at + 1,
                        rest@.len() as int,
                    ));
                    Some((name, time, zone))
                },
            }
        },
    }
}

/// Reads one header line.
pub fn read_header_line(line: &[char]) -> (f: HeaderFields)
    ensures
        f@ == line_fields(line@),
{
    let commit_w: Vec<char> = vec!['c', 'o', 'm', 'm', 'i', 't', ' '];
    let tree_w: Vec<char> = vec!['t', 'r', 'e', 'e', ' '];
    let parent_w: Vec<char> = vec!['p', 'a', 'r', 'e', 'n', 't', ' '];
    let author_w: Vec<char> = vec!['a', 'u', 't', 'h', 'o', 'r', ' '];
    let committer_w: Vec<char> = vec!['c', 'o', 'm', 'm', 'i', 't', 't', 'e', 'r', ' '];
    assert(commit_w@ =~= commit_word());
    assert(tree_w@ =~= tree_word());
    assert(parent_w@ =~= parent_word());
    assert(author_w@ =~= author_word());
    assert(committer_w@ =~= committer_word());
    let mut f = empty_fields();
    let n = line.len();
    if has_chars_at(line, 0, commit_w.as_slice()) {
        assert(line@.skip(7) == line@.subrange(7, n as int));
        match find_chars(&line[7..n], tree_w.as_slice()) {
            Some(at) => {
                assert(occurs_at(line@.skip(7), at as int, tree_word()));
                f.tree = Some(copy_range(line, 7 + at + 5, n));
                assert(line@.skip(7 + at + 5) == line@.subrange(7 + at + 5, n as int));
            },
            None => {},
        }
    } else if has_chars_at(line, 0, tree_w.as_slice()) {
        f.tree = Some(copy_range(line, 5, n));
        assert(line@.skip(5) == line@.subrange(5, n as int));
    } else if has_chars_at(line, 0, parent_w.as_slice()) {
        f.parent = Some(copy_range(line, 7, n));
        assert(line@.skip(7) == line@.subrange(7, n as int));
    } else if has_chars_at(line, 0, author_w.as_slice()) {
        assert(line@.skip(7) == line@.subrange(7, n as int));
        match split_signature(&line[7..n]) {
            Some(parts) => {
                f.author = Some(parts.0);
                f.timestamp = Some(parts.1);
                f.timezone = Some(parts.2);
            },
            None => {},
        }
    } else if has_chars_at(line, 0, committer_w.as_slice()) {
        assert(line@.skip(10) == line@.subrange(10, n as int));
        match split_signature(&line[10..n]) {
            Some(parts) => {
                f.committer = Some(parts.0);
            },
            None => {},
        }
    }
    f
}

fn text_or_empty(text: &Option<Vec<char>>) -> (s: String)
    ensures
        s@ == or_empty(chars_view(*text)),
{
    match text {
        Some(t) => from_chars(t.as_slice()),
        None => String::new(),
    }
}

impl Commit {
    /// A commit with the given fields.
    pub fn new(
        hash: String,
        tree: String,
        parent: Option<String>,
        author: String,
        committer: String,
        message: String,
        timestamp: String,
        timezone: String,
    ) -> (commit: Self)
        ensures
            commit.hash == hash,
            commit.tree == tree,
            commit.parent == parent,
            commit.author == author,
            commit.committer == committer,
            commit.message == message,
            commit.timestamp == timestamp,
            commit.timezone == timezone,
    {
        Self { hash, tree, parent, author, committer, message, timestamp, timezone }
    }

    /// Reads a commit, stored under `hash`, from its text.
    pub fn from_text(hash: &str, text: &str) -> (r: Result<Self, GitError>)
        ensures
            parsed_view(r) == parse_commit(hash@, text@),
    {
        let chars = to_chars(text);
        let rows = text_lines(chars.as_slice());
        let ghost lines = rows_view(rows@);
        let mut fields = empty_fields();
        let mut i: usize = 0;
        assert(lines.take(0) =~= Seq::empty());
        while i < rows.len() && rows[i].len() != 0
            invariant
                i <= rows.len(),
                lines == rows_view(rows@),
                lines == lines_of(text@),
                forall|j: int| 0 <= j < i ==> lines[j] != Seq::<char>::empty(),
                fields@ == header_fields(lines.take(i as int)),
            decreases rows.len() - i,
        {
            let line = read_header_line(rows[i].as_slice());
            proof {
                assert(lines.take(i + 1).drop_last() =~= lines.take(i as int));
                assert(lines.take(i + 1).last() == rows@[i as int]@);
                assert(lines[i as int].len() != 0);
            }
            if line.tree.is_some() {
                fields.tree = line.tree;
            }
            if line.parent.is_some() {
                fields.parent = line.parent;
            }
            if line.author.is_some() {
                fields.author = line.author;
            }
            if line.timestamp.is_some() {
                fields.timestamp = line.timestamp;
            }
            if line.timezone.is_some() {
                fields.timezone = line.timezone;
            }
            if line.committer.is_some() {
                fields.committer = line.committer;
            }
            i += 1;
        }
        proof {
            if i < rows.len() {
                assert(lines[i as int] =~= Seq::<char>::empty());
            }
            lemma_first_index_unique(lines, Seq::<char>::empty(), i as int);
        }
        if i >= rows.len() {
            return Err(GitError::MalformedCommit);
        }
        match &fields.tree {
            None => Err(GitError::MalformedCommit),
            Some(tree) => {
                let message = join_rows(&rows, i + 1);
                Ok(
                    Commit {
                        hash: hash.to_owned(),
                        tree: from_chars(tree.as_slice()),
                        parent: match &fields.parent {
                            Some(p) => Some(from_chars(p.as_slice())),
                            None => None,
                        },
                        author: text_or_empty(&fields.author),
                        committer: text_or_empty(&fields.committer),
                        message: from_chars(message.as_slice()),
                        timestamp: text_or_empty(&fields.timestamp),
                        timezone: text_or_empty(&fields.timezone),
                    },
                )
            },
        }
    }

    /// Reads a commit, stored under `hash`, from the bytes of its object.
    /// Bytes that are not valid UTF-8 are read as `String::from_utf8_lossy`
    /// reads them.
    pub fn from_bytes(hash: &str, bytes: &[u8]) -> (r: Result<Self, GitError>)
        ensures
            parsed_view(r) == parse_commit(hash@, text_of(bytes@)),
    {
        let text = lossy_string(bytes);
        Commit::from_text(hash, text.as_str())
    }

    /// Reads a commit, stored under `hash`, from the bytes of its file, or
    /// from the lack of one.
    pub fn from_hash(hash: &str, stored: Option<&[u8]>) -> (r: Result<Self, GitError>)
        ensures
            parsed_view(r) == read_commit(
                hash@,
                match stored {
                    Some(s) => Some(zlib_inflate(s@)),
                    None => None,
                },
            ),
    {
        match stored {
            None => Err(GitError::ObjectNotFound),
            Some(s) => match inflate_all(s) {
                None => Err(GitError::CorruptObject),
                Some(raw) => {
                    if ObjectReader::find_payload(raw.as_slice()).is_none() {
                        return Err(GitError::CorruptObject);
                    }
                    match ObjectReader::sniff(raw.as_slice()) {
                        Some(ObjectKind::Commit) => Commit::from_bytes(hash, raw.as_slice()),
                        _ => Err(GitError::CorruptObject),
                    }
                },
            },
        }
    }

    /// The line that names the commit: `commit` and its id.
    pub fn to_string(&self) -> (s: String)
        ensures
            s@ == "commit "@ + self.hash@,
    {
        let mut s = String::new();
        s.append("commit ");
        s.append(self.hash.as_str());
        s
    }

    /// The commit as a log shows it: its id, its author, its time and,
    /// indented, its message.
    pub fn format_log(&self) -> (s: String)
        ensures
            s@ == "commit "@ + self.hash@ + "\nAuthor: "@ + self.author@ + "\nDate:   "@
                + self.timestamp@ + "\n\n    "@ + self.message@,
    {
        let mut s = String::new();
        s.append("commit ");
        s.append(self.hash.as_str());
        s.append("\nAuthor: ");
        s.append(self.author.as_str());
        s.append("\nDate:   ");
        s.append(self.timestamp.as_str());
        s.append("\n\n    ");
        s.append(self.message.as_str());
        s
    }
}

} // verus!
