//! References: branch files and the HEAD file.

use vstd::prelude::*;
use crate::text::{
    append_all, copy_range, from_chars, has_chars_at, lossy_string, occurs_at, text_of, to_chars,
};

verus! {

/// A reference and the commit it names.
#[derive(Debug)]
pub struct Head {
    /// The path of the reference's file.
    pub ref_path: String,
    /// What the file holds: the id of a commit.
    pub head_hash: String,
}

/// Where the HEAD file points.
#[derive(Debug)]
pub enum HeadTarget {
    /// HEAD names a commit itself.
    Detached(Head),
    /// HEAD names a reference; its file, at this path, is to be read next.
    Symbolic(String),
}

/// Whether `c` is white space, as `char::is_whitespace` has it.
pub open spec fn is_space(c: char) -> bool {
    let v = c as u32;
    (0x09 <= v <= 0x0d) || v == 0x20 || v == 0x85 || v == 0xa0 || v == 0x1680 || (0x2000 <= v
        <= 0x200a) || v == 0x2028 || v == 0x2029 || v == 0x202f || v == 0x205f || v == 0x3000
}

/// `s` without the white space at its start.
pub open spec fn trim_start(s: Seq<char>) -> Seq<char>
    decreases s.len(),
{
    if s.len() > 0 && is_space(s[0]) {
        trim_start(s.skip(1))
    } else {
        s
    }
}

/// `s` without the white space at its end.
pub open spec fn trim_end(s: Seq<char>) -> Seq<char>
    decreases s.len(),
{
    if s.len() > 0 && is_space(s.last()) {
        trim_end(s.drop_last())
    } else {
        s
    }
}

/// `s` without the white space at its start and at its end.
pub open spec fn trimmed(s: Seq<char>) -> Seq<char> {
    trim_end(trim_start(s))
}

/// `.git/refs/heads/`, the directory of the branches.
pub open spec fn branches_dir() -> Seq<char> {
    seq!['.', 'g', 'i', 't', '/', 'r', 'e', 'f', 's', '/', 'h', 'e', 'a', 'd', 's', '/']
}

/// `ref: `, the words before the reference that a symbolic HEAD names.
pub open spec fn ref_word() -> Seq<char> {
    seq!['r', 'e', 'f', ':', ' ']
}

/// `.git/`, the repository's own directory.
pub open spec fn git_prefix() -> Seq<char> {
    seq!['.', 'g', 'i', 't', '/']
}

/// `.git/HEAD`, the path of the HEAD file.
pub open spec fn head_path() -> Seq<char> {
    seq!['.', 'g', 'i', 't', '/', 'H', 'E', 'A', 'D']
}

/// What HEAD holds once it names `branch`.
pub open spec fn head_content(branch: Seq<char>) -> Seq<char> {
    ref_word() + seq!['r', 'e', 'f', 's', '/', 'h', 'e', 'a', 'd', 's', '/'] + branch
}

/// Whether `c` is white space.
pub fn is_space_char(c: char) -> (r: bool)
    ensures
        r == is_space(c),
{
    let v: u32 = c as u32;
    (0x09 <= v && v <= 0x0d) || v == 0x20 || v == 0x85 || v == 0xa0 || v == 0x1680 || (0x2000
        <= v && v <= 0x200a) || v == 0x2028 || v == 0x2029 || v == 0x202f || v == 0x205f || v
        == 0x3000
}

/// The text without the white space at its start and at its end.
pub fn trim(text: &[char]) -> (out: Vec<char>)
    ensures
        out@ == trimmed(text@),
{
    let mut start: usize = 0;
    assert(text@.skip(0) =~= text@);
    while start < text.len() && is_space_char(text[start])
        invariant
            start <= text.len(),
            trim_start(text@) == trim_start(text@.skip(start as int)),
        decreases text.len() - start,
    {
        assert(text@.skip(start as int).skip(1) =~= text@.skip(start + 1));
        start += 1;
    }
    let mut end: usize = text.len();
    assert(text@.subrange(start as int, end as int) =~= text@.skip(start as int));
    while end > start && is_space_char(text[end - 1])
        invariant
            start <= end <= text.len(),
            trimmed(text@) == trim_end(text@.subrange(start as int, end as int)),
        decreases end,
    {
        assert(text@.subrange(start as int, end as int).drop_last() =~= text@.subrange(
            start as int,
            end - 1,
        ));
        end -= 1;
    }
    copy_range(text, start, end)
}

impl Head {
    /// A reference at `ref_path` that names `head_hash`.
    pub fn new(ref_path: String, head_hash: String) -> (head: Self)
        ensures
            head.ref_path == ref_path,
            head.head_hash == head_hash,
    {
        Self { ref_path, head_hash }
    }

    /// The reference whose file at `path` holds `content`: it names what
    /// the content says, without the white space around it.
    pub fn from_file(path: &str, content: &[u8]) -> (head: Self)
        ensures
            head.ref_path@ == path@,
            head.head_hash@ == trimmed(text_of(content@)),
    {
        let text = lossy_string(content);
        let chars = to_chars(text.as_str());
        let hash = trim(chars.as_slice());
        Self { ref_path: path.to_owned(), head_hash: from_chars(hash.as_slice()) }
    }

    /// The path of the file of the branch `branch`.
    pub fn branch_path(branch: &str) -> (path: String)
        ensures
            path@ == branches_dir() + branch@,
    {
        let mut path: Vec<char> = vec![
            '.',
            'g',
            'i',
            't',
            '/',
            'r',
            'e',
            'f',
            's',
            '/',
            'h',
            'e',
            'a',
            'd',
            's',
            '/',
        ];
        assert(path@ =~= branches_dir());
        let name = to_chars(branch);
        append_all(&mut path, name.as_slice());
        from_chars(path.as_slice())
    }

    /// The branch `branch`, whose file holds `content`.
    pub fn from_branch(branch: &str, content: &[u8]) -> (head: Self)
        ensures
            head.ref_path@ == branches_dir() + branch@,
            head.head_hash@ == trimmed(text_of(content@)),
    {
        let path = Head::branch_path(branch);
        Head::from_file(path.as_str(), content)
    }

    /// What to write to the HEAD file to make `branch` the current branch.
    pub fn update_head_to_branch(branch: &str) -> (content: String)
        ensures
            content@ == head_content(branch@),
    {
        let mut content: Vec<char> = vec![
            'r',
            'e',
            'f',
            ':',
            ' ',
            'r',
            'e',
            'f',
            's',
            '/',
            'h',
            'e',
            'a',
            'd',
            's',
            '/',
        ];
        let name = to_chars(branch);
        append_all(&mut content, name.as_slice());
        assert(content@ =~= head_content(branch@));
        from_chars(content.as_slice())
    }

    /// Reads the HEAD file. Content that starts with `ref: ` names a
    /// reference: its file lies under `.git/` at the path that follows,
    /// without the white space around it. Any other content names a commit.
    pub fn from_head(content: &[u8]) -> (target: HeadTarget)
        ensures
            match target {
                HeadTarget::Symbolic(path) => occurs_at(text_of(content@), 0, ref_word()) && path@
                    == git_prefix() + trimmed(text_of(content@).skip(5)),
                HeadTarget::Detached(head) => !occurs_at(text_of(content@), 0, ref_word())
                    && head.ref_path@ == head_path() && head.head_hash@ == trimmed(
                    text_of(content@),
                ),
            },
    {
        let text = lossy_string(content);
        let chars = to_chars(text.as_str());
        let word: Vec<char> = vec!['r', 'e', 'f', ':', ' '];
        assert(word@ =~= ref_word());
        if has_chars_at(chars.as_slice(), 0, word.as_slice()) {
            let n = chars.len();
            assert(chars@.skip(5) =~= chars@.subrange(5, n as int));
            let rest = trim(&chars.as_slice()[5..n]);
            let mut path: Vec<char> = vec!['.', 'g', 'i', 't', '/'];
            assert(path@ =~= git_prefix());
            append_all(&mut path, rest.as_slice());
            HeadTarget::Symbolic(from_chars(path.as_slice()))
        } else {
            let hash = trim(chars.as_slice());
            let path: Vec<char> = vec!['.', 'g', 'i', 't', '/', 'H', 'E', 'A', 'D'];
            assert(path@ =~= head_path());
            HeadTarget::Detached(
                Head {
                    ref_path: from_chars(path.as_slice()),
                    head_hash: from_chars(hash.as_slice()),
                },
            )
        }
    }
}

} // verus!
