use std::io::Write;

use mini_git::error::GitError;
use mini_git::gitignore::GitIgnore;
use mini_git::head::{is_space_char, trim, Head, HeadTarget};
use mini_git::index::{Index, IndexEntry};
use mini_git::text::{
    find_byte, find_char, find_chars, from_chars, has_bytes_at, has_chars_at, parse_u64,
    rfind_char, same_text, text_lines, to_chars,
};

const HELLO: &str = "ce013625030ba8dba906f756967f9e9ca394464a";

fn deflate(bytes: &[u8]) -> Vec<u8> {
    let mut encoder =
        flate2::write::ZlibEncoder::new(Vec::new(), flate2::Compression::default());
    encoder.write_all(bytes).unwrap();
    encoder.finish().unwrap()
}

fn record(fields: [u32; 10], hash: &str, flags: u16, name: &[u8]) -> Vec<u8> {
    let mut out = Vec::new();
    for f in fields {
        out.extend_from_slice(&f.to_be_bytes());
    }
    out.extend_from_slice(&hex::decode(hash).unwrap());
    out.extend_from_slice(&flags.to_be_bytes());
    out.extend_from_slice(name);
    out.push(0);
    while out.len() % 8 != 0 {
        out.push(0);
    }
    out
}

fn index_file(version: u32, count: u32, records: &[Vec<u8>]) -> Vec<u8> {
    let mut out = b"DIRC".to_vec();
    out.extend_from_slice(&version.to_be_bytes());
    out.extend_from_slice(&count.to_be_bytes());
    for r in records {
        out.extend_from_slice(r);
    }
    out
}

fn entry(name: &str, hash: &str) -> IndexEntry {
    IndexEntry::new(0, 0, 0, 0, 0, 0, 0o100644, 0, 0, 0, hash.to_string(), name.len() as u16, name.to_string())
}

fn chars(s: &str) -> Vec<char> {
    s.chars().collect()
}

#[test]
fn index_with_two_entries() {
    let first = record([1, 2, 3, 4, 5, 6, 0o100644, 8, 9, 10], HELLO, 5, b"a.txt");
    let second = record(
        [0x01020304, 0, 0xffffffff, 0, 0, 0, 0o100755, 0, 0, 77],
        "0f0c36b22b19d06e96ea685aa6aff180420ca10e",
        0x8000 | 12,
        b"src/main.cpp",
    );
    assert_eq!(first.len(), 72);
    assert_eq!(second.len(), 80);
    let mut bytes = index_file(2, 2, &[first, second]);
    bytes.extend_from_slice(&[0xab; 20]);
    let index = Index::read_index(&bytes).unwrap();
    assert_eq!(index.version, 2);
    assert_eq!(index.num_entries, 2);
    assert_eq!(index.entries.len(), 2);
    let e = &index.entries[0];
    assert_eq!(
        (e.ctime, e.ctime_nsec, e.mtime, e.mtime_nsec, e.device, e.inode, e.mode, e.uid, e.gid, e.size),
        (1, 2, 3, 4, 5, 6, 0o100644, 8, 9, 10)
    );
    assert_eq!(e.sha1, HELLO);
    assert_eq!(e.flags, 5);
    assert_eq!(e.name, "a.txt");
    let e = &index.entries[1];
    assert_eq!(e.ctime, 0x01020304);
    assert_eq!(e.mtime, 0xffffffff);
    assert_eq!(e.size, 77);
    assert_eq!(e.flags, 0x8000 | 12);
    assert_eq!(e.name, "src/main.cpp");
    assert_eq!(e.sha1, "0f0c36b22b19d06e96ea685aa6aff180420ca10e");
}

#[test]
fn index_parse_is_deterministic() {
    let bytes = index_file(2, 1, &[record([7; 10], HELLO, 1, b"x")]);
    let a = Index::read_index(&bytes).unwrap();
    let b = Index::read_index(&bytes).unwrap();
    assert_eq!(format!("{:?}", a), format!("{:?}", b));
}

#[test]
fn index_without_entries() {
    let index = Index::read_index(&index_file(2, 0, &[])).unwrap();
    assert_eq!(index.num_entries, 0);
    assert!(index.entries.is_empty());
}

#[test]
fn index_record_lengths_pad_to_eight() {
    // Names of 1, 2 and 9 bytes: records of 64, 72 and 72 bytes.
    for (name, len) in [(&b"a"[..], 64usize), (&b"ab"[..], 72), (&b"abcdefghi"[..], 72), (&b"abcdefghij"[..], 80)] {
        let r = record([0; 10], HELLO, name.len() as u16, name);
        assert_eq!(r.len(), len);
        let bytes = index_file(2, 2, &[r.clone(), r]);
        let index = Index::read_index(&bytes).unwrap();
        assert_eq!(index.entries.len(), 2);
        assert_eq!(index.entries[1].name.as_bytes(), name);
    }
}

#[test]
fn index_with_bad_magic_is_invalid() {
    let mut bytes = index_file(2, 0, &[]);
    bytes[0] = b'X';
    assert_eq!(Index::read_index(&bytes).unwrap_err(), GitError::InvalidIndex);
    assert_eq!(Index::read_index(b"").unwrap_err(), GitError::InvalidIndex);
    assert_eq!(Index::read_index(b"DIR").unwrap_err(), GitError::InvalidIndex);
    assert_eq!(Index::read_index(b"dirc\0\0\0\x02\0\0\0\0").unwrap_err(), GitError::InvalidIndex);
}

#[test]
fn index_with_other_version_is_unsupported() {
    for version in [0u32, 1, 3, 4, 0x0200_0000] {
        let bytes = index_file(version, 0, &[]);
        assert_eq!(Index::read_index(&bytes).unwrap_err(), GitError::UnsupportedIndexVersion);
    }
}

#[test]
fn index_cut_short_is_invalid() {
    assert_eq!(Index::read_index(b"DIRC\0\0").unwrap_err(), GitError::InvalidIndex);
    assert_eq!(Index::read_index(b"DIRC\0\0\0\x02\0\0").unwrap_err(), GitError::InvalidIndex);
    let full = index_file(2, 1, &[record([0; 10], HELLO, 5, b"a.txt")]);
    for cut in 12..full.len() {
        assert_eq!(Index::read_index(&full[..cut]).unwrap_err(), GitError::InvalidIndex);
    }
}

#[test]
fn index_with_count_out_of_range_is_invalid() {
    let r = record([0; 10], HELLO, 5, b"a.txt");
    let bytes = index_file(2, 2, &[r.clone()]);
    assert_eq!(Index::read_index(&bytes).unwrap_err(), GitError::InvalidIndex);
    let bytes = index_file(2, u32::MAX, &[r]);
    assert_eq!(Index::read_index(&bytes).unwrap_err(), GitError::InvalidIndex);
}

#[test]
fn index_name_length_out_of_bounds_is_invalid() {
    let mut r = record([0; 10], HELLO, 5, b"a.txt");
    r[60] = 0x0f;
    r[61] = 0xff;
    let bytes = index_file(2, 1, &[r]);
    assert_eq!(Index::read_index(&bytes).unwrap_err(), GitError::InvalidIndex);
}

#[test]
fn index_new_counts_entries() {
    let index = Index::new(2, vec![entry("a", HELLO), entry("b", HELLO), entry("a", "x")]);
    assert_eq!(index.version, 2);
    assert_eq!(index.num_entries, 3);
    assert_eq!(index.get_entry("b").unwrap().name, "b");
    assert_eq!(index.get_entry("a").unwrap().sha1, HELLO);
    assert!(index.get_entry("c").is_none());
    assert!(index.get_entry("").is_none());
}

#[test]
fn gitignore_reads_non_empty_lines() {
    let g = GitIgnore::from_text("target\n\n*.o\n").unwrap();
    assert_eq!(g.ignore_list, vec!["target", "*.o"]);
    let g = GitIgnore::from_text("").unwrap();
    assert!(g.ignore_list.is_empty());
    let g = GitIgnore::from_text("\n\n").unwrap();
    assert!(g.ignore_list.is_empty());
    let g = GitIgnore::from_text("a").unwrap();
    assert_eq!(g.ignore_list, vec!["a"]);
}

#[test]
fn gitignore_rejects_malformed_pattern() {
    assert_eq!(GitIgnore::from_text("ok\na***b\n").unwrap_err(), GitError::IgnorePatternError);
    assert_eq!(GitIgnore::from_text("[x").unwrap_err(), GitError::IgnorePatternError);
    assert_eq!(GitIgnore::from_text("a**\nfine").unwrap_err(), GitError::IgnorePatternError);
}

#[test]
fn gitignore_matches_globs() {
    let g = GitIgnore::from_text("target\n*.o\nbuild/*\ndoc?.txt\n[ab].rs\n**/tmp\n").unwrap();
    assert!(g.is_ignored("target"));
    assert!(g.is_ignored("main.o"));
    assert!(g.is_ignored("src/main.o"));
    assert!(g.is_ignored("build/x"));
    assert!(g.is_ignored("doc1.txt"));
    assert!(g.is_ignored("a.rs"));
    assert!(g.is_ignored("x/y/tmp"));
    assert!(!g.is_ignored("targets"));
    assert!(!g.is_ignored("main.c"));
    assert!(!g.is_ignored("doc12.txt"));
    assert!(!g.is_ignored("c.rs"));
    assert!(!g.is_ignored(""));
    assert!(!GitIgnore::empty().is_ignored("target"));
}

#[test]
fn gitignore_with_pattern_that_is_none_matches_nothing() {
    let g = GitIgnore { ignore_list: vec!["a***".to_string(), "b".to_string()] };
    assert!(!g.is_ignored("a"));
    assert!(!g.is_ignored("a***"));
    assert!(g.is_ignored("b"));
}

#[test]
fn gitignore_from_staged_file() {
    let index = Index::new(2, vec![entry("a.txt", HELLO), entry(".gitignore", "0f0c36b22b19d06e96ea685aa6aff180420ca10e")]);
    assert_eq!(GitIgnore::staged_file(&index), Some("0f0c36b22b19d06e96ea685aa6aff180420ca10e"));
    let stored = deflate(b"blob 9\0*.log\ntmp");
    let g = GitIgnore::from_file(&index, Some(&stored)).unwrap();
    assert_eq!(g.ignore_list, vec!["*.log", "tmp"]);
    assert_eq!(GitIgnore::from_file(&index, None).unwrap_err(), GitError::ObjectNotFound);
    assert_eq!(GitIgnore::from_file(&index, Some(b"x")).unwrap_err(), GitError::CorruptObject);
    let bad = deflate(b"blob 2\0[a");
    assert_eq!(GitIgnore::from_file(&index, Some(&bad)).unwrap_err(), GitError::IgnorePatternError);
}

#[test]
fn gitignore_without_staged_file_is_empty() {
    let index = Index::new(2, vec![entry("a.txt", HELLO)]);
    assert_eq!(GitIgnore::staged_file(&index), None);
    let g = GitIgnore::from_file(&index, None).unwrap();
    assert!(g.ignore_list.is_empty());
    assert!(!g.is_ignored("a.txt"));
}

#[test]
fn head_from_branch_trims_the_id() {
    let head = Head::from_branch("main", b"ce013625030ba8dba906f756967f9e9ca394464a\n");
    assert_eq!(head.ref_path, ".git/refs/heads/main");
    assert_eq!(head.head_hash, HELLO);
    let head = Head::from_file("some/path", b" \t abc \r\n");
    assert_eq!(head.ref_path, "some/path");
    assert_eq!(head.head_hash, "abc");
    let head = Head::new("p".to_string(), "h".to_string());
    assert_eq!((head.ref_path.as_str(), head.head_hash.as_str()), ("p", "h"));
    assert_eq!(Head::branch_path("feature/x"), ".git/refs/heads/feature/x");
}

#[test]
fn head_file_names_branch_or_commit() {
    match Head::from_head(b"ref: refs/heads/main\n") {
        HeadTarget::Symbolic(path) => assert_eq!(path, ".git/refs/heads/main"),
        other => panic!("{:?}", other),
    }
    match Head::from_head(b"ce013625030ba8dba906f756967f9e9ca394464a\n") {
        HeadTarget::Detached(head) => {
            assert_eq!(head.ref_path, ".git/HEAD");
            assert_eq!(head.head_hash, HELLO);
        }
        other => panic!("{:?}", other),
    }
    match Head::from_head(b"ref:   refs/heads/x  ") {
        HeadTarget::Symbolic(path) => assert_eq!(path, ".git/refs/heads/x"),
        other => panic!("{:?}", other),
    }
    assert_eq!(Head::update_head_to_branch("main"), "ref: refs/heads/main");
}

#[test]
fn trim_works_like_str_trim() {
    for s in ["", " ", "a", " a ", "\n\ta b\r\n", "\u{a0}x\u{3000}", "\u{2003}", "x\u{200b}", "\u{85}y\u{1680}"] {
        assert_eq!(from_chars(&trim(&chars(s))), s.trim(), "{:?}", s);
    }
    for c in ['\u{0}', ' ', '\t', '\n', '\u{b}', '\u{c}', '\r', 'a', '\u{85}', '\u{a0}', '\u{1680}', '\u{2000}', '\u{200a}', '\u{200b}', '\u{2028}', '\u{2029}', '\u{202f}', '\u{205f}', '\u{3000}', '\u{feff}'] {
        assert_eq!(is_space_char(c), c.is_whitespace(), "{:?}", c);
    }
}

#[test]
fn parse_u64_works_like_str_parse() {
    for s in ["0", "7", "+7", "007", "1700000000", "18446744073709551615", "18446744073709551616", "99999999999999999999999", "", "+", "-1", "++1", "1+", "12a", " 1", "1 ", "٣"] {
        assert_eq!(parse_u64(&chars(s)), s.parse::<u64>().ok(), "{:?}", s);
    }
}

#[test]
fn text_lines_works_like_str_lines() {
    for s in ["", "a", "a\n", "a\nb", "a\r\nb\r\n", "\n", "\n\n", "a\r", "a\r\n", "\r\n", "a\n\nb\n", "x\r\r\ny"] {
        let got: Vec<String> = text_lines(&chars(s)).iter().map(|l| from_chars(l)).collect();
        let want: Vec<String> = s.lines().map(|l| l.to_string()).collect();
        assert_eq!(got, want, "{:?}", s);
    }
}

#[test]
fn text_searches() {
    let s = chars("a b c b");
    assert_eq!(find_char(&s, 0, 'b'), 2);
    assert_eq!(find_char(&s, 3, 'b'), 6);
    assert_eq!(find_char(&s, 0, 'z'), 7);
    assert_eq!(find_char(&s, 7, 'a'), 7);
    assert_eq!(rfind_char(&s, 'b'), Some(6));
    assert_eq!(rfind_char(&s, 'a'), Some(0));
    assert_eq!(rfind_char(&s, 'z'), None);
    assert_eq!(find_byte(b"x\0y\0", 2, 0), 3);
    assert_eq!(find_chars(&s, &chars("b c")), Some(2));
    assert_eq!(find_chars(&s, &chars("c b")), Some(4));
    assert_eq!(find_chars(&s, &chars("bb")), None);
    assert_eq!(find_chars(&s, &chars("")), Some(0));
    assert_eq!(find_chars(&chars(""), &chars("")), Some(0));
    assert_eq!(find_chars(&chars("ab"), &chars("abc")), None);
    assert!(has_chars_at(&s, 2, &chars("b c")));
    assert!(!has_chars_at(&s, 3, &chars("b c")));
    assert!(!has_chars_at(&s, 6, &chars("bb")));
    assert!(has_chars_at(&s, 7, &chars("")));
    assert!(!has_chars_at(&s, 8, &chars("")));
    assert!(has_bytes_at(b"DIRC", 0, b"DIRC"));
    assert!(!has_bytes_at(b"DIR", 0, b"DIRC"));
    assert!(same_text("héllo", "héllo"));
    assert!(!same_text("héllo", "hello"));
    assert_eq!(to_chars("héllo"), chars("héllo"));
    assert_eq!(from_chars(&chars("wörld")), "wörld");
}
