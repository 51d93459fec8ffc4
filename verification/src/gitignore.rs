//! Ignore patterns: the globs of the staged `.gitignore`.

use vstd::prelude::*;
use crate::blob::{read_blob, Blob, BlobView};
use crate::error::GitError;
use crate::index::{entry_position, Index};
use crate::stream::zlib_inflate;
use crate::text::{
    find_char, from_chars, lossy_string, split_on, text_of, texts, to_chars,
};

verus! {

/// The patterns that tell which paths are ignored.
#[derive(Debug)]
pub struct GitIgnore {
    /// The patterns, in the order of the ignore file.
    pub ignore_list: Vec<String>,
}

/// Whether `glob::Pattern::new` accepts the pattern.
///
/// The glob crate asks `std::path::is_separator` what separates the parts
/// of a path. This crate is for systems where that is the slash alone;
/// there the answer depends on the pattern and nothing else.
pub uninterp spec fn glob_valid(pattern: Seq<char>) -> bool;

/// Whether the pattern, which `glob::Pattern::new` accepts, matches the
/// path, as `glob::Pattern::matches_path` has it with its default options:
/// case counts, and `*` and `?` match a slash as any other character.
pub uninterp spec fn glob_matches(pattern: Seq<char>, path: Seq<char>) -> bool;

/// `glob::Pattern::new`: whether the text is a well-formed pattern.
#[verifier::external_body]
pub(crate) fn pattern_is_valid(pattern: &str) -> (ok: bool)
    ensures
        ok == glob_valid(pattern@),
{
    glob::Pattern::new(pattern).is_ok()
}

/// `glob::Pattern::matches_path`, on the pattern that `glob::Pattern::new`
/// makes of the text: whether it matches the path. A text that is no
/// pattern matches nothing.
#[verifier::external_body]
pub(crate) fn pattern_matches(pattern: &str, path: &str) -> (hit: bool)
    ensures
        hit == (glob_valid(pattern@) && glob_matches(pattern@, path@)),
{
    match glob::Pattern::new(pattern) {
        Ok(compiled) => compiled.matches_path(std::path::Path::new(path)),
        Err(_) => false,
    }
}

/// Whether one of the patterns matches the path.
pub open spec fn ignored(patterns: Seq<Seq<char>>, path: Seq<char>) -> bool {
    exists|i: int|
        0 <= i < patterns.len() && glob_valid(#[trigger] patterns[i]) && glob_matches(
            patterns[i],
            path,
        )
}

/// The lines that are not empty, in their order.
pub open spec fn non_empty(lines: Seq<Seq<char>>) -> Seq<Seq<char>>
    decreases lines.len(),
{
    if lines.len() == 0 {
        Seq::empty()
    } else if lines.last().len() == 0 {
        non_empty(lines.drop_last())
    } else {
        non_empty(lines.drop_last()).push(lines.last())
    }
}

/// Whether every pattern is well formed.
pub open spec fn all_valid(patterns: Seq<Seq<char>>) -> bool {
    forall|i: int| 0 <= i < patterns.len() ==> glob_valid(#[trigger] patterns[i])
}

/// The patterns of an ignore file: its lines that are not empty. One line
/// that is no well-formed pattern spoils the file.
pub open spec fn parse_patterns(text: Seq<char>) -> Result<Seq<Seq<char>>, GitError> {
    let patterns = non_empty(split_on(text, '\n'));
    if all_valid(patterns) {
        Ok(patterns)
    } else {
        Err(GitError::IgnorePatternError)
    }
}

/// `.gitignore`, the name of the ignore file.
pub open spec fn ignore_file_name() -> Seq<char> {
    seq!['.', 'g', 'i', 't', 'i', 'g', 'n', 'o', 'r', 'e']
}

/// The result with the patterns as plain text values.
pub open spec fn patterns_view(r: Result<GitIgnore, GitError>) -> Result<Seq<Seq<char>>, GitError> {
    match r {
        Ok(g) => Ok(texts(g.ignore_list@)),
        Err(e) => Err(e),
    }
}

/// The patterns that the staged ignore file gives: none where the index
/// lists no ignore file; else those of the blob that the index names,
/// whose reading may fail.
pub open spec fn staged_patterns(
    has_entry: bool,
    blob: Result<BlobView, GitError>,
) -> Result<Seq<Seq<char>>, GitError> {
    if !has_entry {
        Ok(Seq::empty())
    } else {
        match blob {
            Ok(b) => parse_patterns(text_of(b.content)),
            Err(e) => Err(e),
        }
    }
}

fn ignore_name() -> (name: String)
    ensures
        name@ == ignore_file_name(),
{
    let name: Vec<char> = vec!['.', 'g', 'i', 't', 'i', 'g', 'n', 'o', 'r', 'e'];
    assert(name@ =~= ignore_file_name());
    from_chars(name.as_slice())
}

impl GitIgnore {
    /// No patterns: nothing is ignored.
    pub fn empty() -> (g: Self)
        ensures
            g.ignore_list@.len() == 0,
    {
        Self { ignore_list: Vec::new() }
    }

    /// Reads the patterns from the text of an ignore file.
    pub fn from_text(text: &str) -> (r: Result<Self, GitError>)
        ensures
            patterns_view(r) == parse_patterns(text@),
    {
        let chars = to_chars(text);
        let mut list: Vec<String> = Vec::new();
        let mut start: usize = 0;
        let ghost mut seen: Seq<Seq<char>> = Seq::empty();
        assert(texts(list@) =~= Seq::empty());
        assert(chars@.skip(0) =~= chars@);
        loop
            invariant
                start <= chars.len(),
                chars@ == text@,
                seen + split_on(chars@.skip(start as int), '\n') == split_on(chars@, '\n'),
                texts(list@) == non_empty(seen),
                all_valid(texts(list@)),
            decreases chars.len() - start,
        {
            let end = find_char(chars.as_slice(), start, '\n');
            let ghost rest = chars@.skip(start as int);
            let ghost line = rest.take(end - start);
            let ghost before = texts(list@);
            let ghost seen_before = seen;
            proof {
                assert(line =~= chars@.subrange(start as int, end as int));
                seen = seen.push(line);
                assert(seen.drop_last() =~= seen_before);
            }
            if end > start {
                let pattern = from_chars(&chars.as_slice()[start..end]);
                if !pattern_is_valid(pattern.as_str()) {
                    proof {
                        assert(split_on(rest, '\n')[0] == line);
                        assert(seen =~= split_on(chars@, '\n').take(seen.len() as int));
                        lemma_non_empty_prefix(seen, split_on(chars@, '\n'));
                        let all = non_empty(split_on(chars@, '\n'));
                        assert(non_empty(seen) =~= before.push(line));
                        assert(non_empty(seen)[before.len() as int] == line);
                        assert(all.take(non_empty(seen).len() as int)[before.len() as int]
                            == all[before.len() as int]);
                        assert(all[before.len() as int] == line);
                    }
                    return Err(GitError::IgnorePatternError);
                }
                list.push(pattern);
                assert(texts(list@) =~= before.push(line));
            }
            if end == chars.len() {
                proof {
                    assert(line =~= rest);
                    assert(seen =~= seen_before + split_on(rest, '\n'));
                }
                return Ok(GitIgnore { ignore_list: list });
            }
            proof {
                assert(rest.skip(end - start + 1) =~= chars@.skip(end + 1));
                assert(seen + split_on(chars@.skip(end + 1), '\n') =~= seen_before + split_on(
                    rest,
                    '\n',
                ));
            }
            start = end + 1;
        }
    }

    /// The id of the staged ignore file, if the index lists one.
    pub fn staged_file<'a>(index: &'a Index) -> (r: Option<&'a str>)
        ensures
            match r {
                Some(id) => {
                    let at = entry_position(index@.entries, ignore_file_name());
                    0 <= at < index.entries@.len() && id@ == index.entries@[at].sha1@
                },
                None => entry_position(index@.entries, ignore_file_name())
                    == index.entries@.len(),
            },
    {
        let name = ignore_name();
        match index.get_entry(name.as_str()) {
            Some(entry) => Some(entry.sha1.as_str()),
            None => None,
        }
    }

    /// Reads the patterns of the staged ignore file, given the bytes of the
    /// file of the blob that `staged_file` names, or the lack of one.
    pub fn from_file(index: &Index, stored: Option<&[u8]>) -> (r: Result<Self, GitError>)
        ensures
            patterns_view(r) == staged_patterns(
                entry_position(index@.entries, ignore_file_name()) < index.entries@.len(),
                read_blob(
                    index.entries@[entry_position(index@.entries, ignore_file_name())].sha1@,
                    match stored {
                        Some(s) => Some(zlib_inflate(s@)),
                        None => None,
                    },
                ),
            ),
    {
        match GitIgnore::staged_file(index) {
            None => {
                let g = GitIgnore::empty();
                assert(texts(g.ignore_list@) =~= Seq::empty());
                Ok(g)
            },
            Some(id) => match Blob::from_hash(id, stored) {
                Err(e) => Err(e),
                Ok(blob) => {
                    let text = lossy_string(blob.content.as_slice());
                    GitIgnore::from_text(text.as_str())
                },
            },
        }
    }

    /// Whether one of the patterns matches the path.
    pub fn is_ignored(&self, path: &str) -> (r: bool)
        ensures
            r == ignored(texts(self.ignore_list@), path@),
    {
        let mut i: usize = 0;
        while i < self.ignore_list.len()
            invariant
                i <= self.ignore_list.len(),
                forall|j: int|
                    0 <= j < i ==> !(glob_valid(#[trigger] texts(self.ignore_list@)[j])
                        && glob_matches(texts(self.ignore_list@)[j], path@)),
            decreases self.ignore_list.len() - i,
        {
            if pattern_matches(self.ignore_list[i].as_str(), path) {
                assert(texts(self.ignore_list@)[i as int] == self.ignore_list@[i as int]@);
                return true;
            }
            i += 1;
        }
        false
    }
}

/// The non-empty lines of a prefix of some lines are a prefix of their
/// non-empty lines.
proof fn lemma_non_empty_prefix(prefix: Seq<Seq<char>>, all: Seq<Seq<char>>)
    requires
        prefix.len() <= all.len(),
        prefix == all.take(prefix.len() as int),
    ensures
        non_empty(prefix).len() <= non_empty(all).len(),
        non_empty(prefix) == non_empty(all).take(non_empty(prefix).len() as int),
    decreases all.len(),
{
    if prefix.len() == all.len() {
        assert(prefix =~= all);
        assert(non_empty(all).take(non_empty(all).len() as int) =~= non_empty(all));
    } else {
        assert(prefix =~= all.drop_last().take(prefix.len() as int));
        lemma_non_empty_prefix(prefix, all.drop_last());
        assert(non_empty(prefix) =~= non_empty(all).take(non_empty(prefix).len() as int));
    }
}

} // verus!
