use mini_git::blob::Blob;
use mini_git::diff::{
    diff_blobs, diff_lines, find_resync, render_diff, split_lines, try_diff_blobs, Change,
};

fn lines(items: &[&str]) -> Vec<String> {
    items.iter().map(|s| s.to_string()).collect()
}

fn blob(text: &str) -> Blob {
    Blob::new(String::new(), text.as_bytes().to_vec())
}

#[test]
fn diff_replaces_one_line() {
    let script = diff_lines(&lines(&["a", "b", "c"]), &lines(&["a", "x", "c"]));
    let got: Vec<(Change, &str)> = script.iter().map(|l| (l.change, l.text.as_str())).collect();
    assert_eq!(
        got,
        vec![
            (Change::Unchanged, "a"),
            (Change::Deleted, "b"),
            (Change::Inserted, "x"),
            (Change::Unchanged, "c"),
        ]
    );
    assert_eq!(render_diff(&script), "  a\n- b\n+ x\n  c\n");
}

#[test]
fn diff_of_equal_texts_keeps_every_line() {
    let script = diff_lines(&lines(&["a", "b"]), &lines(&["a", "b"]));
    assert_eq!(render_diff(&script), "  a\n  b\n");
}

#[test]
fn diff_without_common_line_deletes_then_inserts() {
    let script = diff_lines(&lines(&["a"]), &lines(&["b"]));
    assert_eq!(render_diff(&script), "- a\n+ b\n");
    let script = diff_lines(&lines(&["a", "b"]), &lines(&["c", "d", "e"]));
    assert_eq!(render_diff(&script), "- a\n- b\n+ c\n+ d\n+ e\n");
}

#[test]
fn diff_with_empty_side() {
    let none: Vec<String> = Vec::new();
    assert_eq!(render_diff(&diff_lines(&none, &lines(&["a"]))), "+ a\n");
    assert_eq!(render_diff(&diff_lines(&lines(&["a"]), &none)), "- a\n");
    assert_eq!(render_diff(&diff_lines(&none, &none)), "");
}

#[test]
fn diff_emits_tails() {
    let script = diff_lines(&lines(&["a", "b", "c"]), &lines(&["a"]));
    assert_eq!(render_diff(&script), "  a\n- b\n- c\n");
    let script = diff_lines(&lines(&["a"]), &lines(&["a", "b", "c"]));
    assert_eq!(render_diff(&script), "  a\n+ b\n+ c\n");
}

#[test]
fn resync_prefers_fewest_skipped_lines() {
    // old: x c ..., new: y z c: (1, 2) skips three lines; nothing skips fewer.
    let old = lines(&["x", "c"]);
    let new = lines(&["y", "z", "c"]);
    assert_eq!(find_resync(&old, &new, 0, 0), (1, 2));
}

#[test]
fn resync_tie_goes_to_old_side() {
    // (1, 0) and (0, 1) both match after one skipped line; the old side wins.
    let old = lines(&["a", "b"]);
    let new = lines(&["b", "a"]);
    assert_eq!(find_resync(&old, &new, 0, 0), (1, 0));
    let script = diff_lines(&old, &new);
    assert_eq!(render_diff(&script), "- a\n  b\n+ a\n");
}

#[test]
fn resync_at_equal_lines_is_zero() {
    let old = lines(&["a"]);
    let new = lines(&["a"]);
    assert_eq!(find_resync(&old, &new, 0, 0), (0, 0));
}

#[test]
fn resync_without_match_is_both_ends() {
    let old = lines(&["a", "b", "c"]);
    let new = lines(&["d", "e"]);
    assert_eq!(find_resync(&old, &new, 0, 0), (3, 2));
    assert_eq!(find_resync(&old, &new, 1, 1), (2, 1));
}

#[test]
fn resync_searches_whole_grid() {
    // The only match is at the far corner of the grid.
    let old = lines(&["1", "2", "3", "z"]);
    let new = lines(&["4", "5", "6", "z"]);
    assert_eq!(find_resync(&old, &new, 0, 0), (3, 3));
}

#[test]
fn split_lines_keeps_empty_last_line() {
    assert_eq!(split_lines("a\nb\n"), lines(&["a", "b", ""]));
    assert_eq!(split_lines("a\nb"), lines(&["a", "b"]));
    assert_eq!(split_lines(""), lines(&[""]));
    assert_eq!(split_lines("\n\n"), lines(&["", "", ""]));
    assert_eq!(split_lines("a\r\nb"), lines(&["a\r", "b"]));
}

#[test]
fn diff_blobs_renders_text() {
    let out = diff_blobs(&blob("a\nb\nc\n"), &blob("a\nx\nc\n"));
    assert_eq!(out, "  a\n- b\n+ x\n  c\n  \n");
}

#[test]
fn diff_blobs_of_unicode_text() {
    let out = diff_blobs(&blob("héllo\nwörld"), &blob("héllo\nwelt"));
    assert_eq!(out, "  héllo\n- wörld\n+ welt\n");
}

#[test]
fn try_diff_blobs_wants_text() {
    let binary = Blob::new(String::new(), vec![0xff, 0x00]);
    assert_eq!(try_diff_blobs(&binary, &blob("a")), None);
    assert_eq!(try_diff_blobs(&blob("a"), &binary), None);
    assert_eq!(try_diff_blobs(&blob("a\nb"), &blob("a\nc")), Some("  a\n- b\n+ c\n".to_string()));
}

#[test]
fn diff_resumes_after_each_change() {
    let old = lines(&["a", "b", "c", "d", "e", "f"]);
    let new = lines(&["a", "c", "d", "x", "y", "f", "g"]);
    let script = diff_lines(&old, &new);
    assert_eq!(render_diff(&script), "  a\n- b\n  c\n  d\n- e\n+ x\n+ y\n  f\n+ g\n");
    let kept_or_deleted: Vec<&str> = script
        .iter()
        .filter(|l| l.change != Change::Inserted)
        .map(|l| l.text.as_str())
        .collect();
    let kept_or_inserted: Vec<&str> = script
        .iter()
        .filter(|l| l.change != Change::Deleted)
        .map(|l| l.text.as_str())
        .collect();
    assert_eq!(kept_or_deleted, vec!["a", "b", "c", "d", "e", "f"]);
    assert_eq!(kept_or_inserted, vec!["a", "c", "d", "x", "y", "f", "g"]);
}
