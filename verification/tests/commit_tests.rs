use mini_git::commit::{read_header_line, split_signature, Commit};
use mini_git::error::GitError;

const T: &str = "ff63d4cfd34fa7fa36d42aa90e55ae7cefad0f17";
const P: &str = "0123456789abcdef0123456789abcdef01234567";

fn chars(s: &str) -> Vec<char> {
    s.chars().collect()
}

#[test]
fn commit_parse_example() {
    let text = format!(
        "tree {}\nparent {}\nauthor A 1700000000 +0000\ncommitter A 1700000000 +0000\n\nhello\n",
        T, P
    );
    let c = Commit::from_bytes("abc", text.as_bytes()).unwrap();
    assert_eq!(c.hash, "abc");
    assert_eq!(c.tree, T);
    assert_eq!(c.parent, Some(P.to_string()));
    assert_eq!(c.author, "A");
    assert_eq!(c.committer, "A");
    assert_eq!(c.timestamp, "1700000000");
    assert_eq!(c.timezone, "+0000");
    assert_eq!(c.message, "hello");
}

#[test]
fn commit_with_object_header() {
    let text = format!(
        "commit 256\0tree {}\nauthor Ann Lee <ann@example.org> 1700000001 +0100\ncommitter Bob <bob@example.org> 1700000002 -0500\n\nfirst line\n\nthird line\n",
        T
    );
    let c = Commit::from_bytes("h", text.as_bytes()).unwrap();
    assert_eq!(c.tree, T);
    assert_eq!(c.parent, None);
    assert_eq!(c.author, "Ann Lee <ann@example.org>");
    assert_eq!(c.committer, "Bob <bob@example.org>");
    assert_eq!(c.timestamp, "1700000001");
    assert_eq!(c.timezone, "+0100");
    assert_eq!(c.message, "first line\n\nthird line");
}

#[test]
fn commit_with_tree_right_after_commit_word() {
    let text = format!("commit tree {}\n\nm", T);
    let c = Commit::from_text("h", &text).unwrap();
    assert_eq!(c.tree, T);
    assert_eq!(c.message, "m");
    assert_eq!(c.author, "");
    assert_eq!(c.timestamp, "");
}

#[test]
fn commit_without_blank_line_is_malformed() {
    let text = format!("tree {}\nauthor A 1 +0000\n", T);
    assert_eq!(Commit::from_bytes("h", text.as_bytes()).unwrap_err(), GitError::MalformedCommit);
    assert_eq!(Commit::from_bytes("h", b"").unwrap_err(), GitError::MalformedCommit);
}

#[test]
fn commit_without_tree_is_malformed() {
    let text = "author A 1 +0000\n\nmsg\n";
    assert_eq!(Commit::from_bytes("h", text.as_bytes()).unwrap_err(), GitError::MalformedCommit);
    let text = "commit 12\0parent abc\n\nmsg\n";
    assert_eq!(Commit::from_bytes("h", text.as_bytes()).unwrap_err(), GitError::MalformedCommit);
}

#[test]
fn commit_with_empty_message() {
    let text = format!("tree {}\n\n", T);
    let c = Commit::from_bytes("h", text.as_bytes()).unwrap();
    assert_eq!(c.message, "");
}

#[test]
fn commit_lines_end_at_crlf_too() {
    let text = format!("tree {}\r\n\r\nmsg\r\n", T);
    let c = Commit::from_bytes("h", text.as_bytes()).unwrap();
    assert_eq!(c.tree, T);
    assert_eq!(c.message, "msg");
}

#[test]
fn commit_later_header_line_wins() {
    let text = "tree one\ntree two\nparent first\nparent second\n\nm";
    let c = Commit::from_text("h", text).unwrap();
    assert_eq!(c.tree, "two");
    assert_eq!(c.parent, Some("second".to_string()));
}

#[test]
fn commit_from_bytes_replaces_invalid_utf8() {
    let mut bytes = b"tree abc\nauthor A".to_vec();
    bytes.push(0xff);
    bytes.extend_from_slice(b" 1 +0000\n\nm");
    let c = Commit::from_bytes("h", &bytes).unwrap();
    assert_eq!(c.author, "A\u{fffd}");
}

#[test]
fn signature_needs_two_spaces() {
    assert!(split_signature(&chars("name")).is_none());
    assert!(split_signature(&chars("name 12")).is_none());
    let (n, t, z) = split_signature(&chars("a b 12 +1")).unwrap();
    assert_eq!((n, t, z), (chars("a b"), chars("12"), chars("+1")));
    let text = "tree t\nauthor nobody\n\nm";
    let c = Commit::from_text("h", text).unwrap();
    assert_eq!(c.author, "");
}

#[test]
fn header_line_of_other_kind_sets_nothing() {
    let f = read_header_line(&chars("gpgsig abc"));
    assert!(f.tree.is_none() && f.parent.is_none() && f.author.is_none());
    let f = read_header_line(&chars("committer C D 5 +0000"));
    assert_eq!(f.committer, Some(chars("C D")));
    assert!(f.timestamp.is_none());
}

#[test]
fn commit_texts() {
    let c = Commit::new(
        "h1".to_string(),
        "t1".to_string(),
        None,
        "Ann".to_string(),
        "Bob".to_string(),
        "msg".to_string(),
        "17".to_string(),
        "+0000".to_string(),
    );
    assert_eq!(c.to_string(), "commit h1");
    assert_eq!(c.format_log(), "commit h1\nAuthor: Ann\nDate:   17\n\n    msg");
}
