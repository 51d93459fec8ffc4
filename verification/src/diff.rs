//! Line-by-line comparison of two texts.
//!
//! The comparison walks both texts together. Where the lines differ it looks
//! for the nearest pair of equal lines ahead, searching breadth first over
//! the number of lines skipped on either side, and resumes from there.

use std::collections::HashSet;
use std::collections::VecDeque;
use vstd::prelude::*;
use vstd::string::StringExecFns;
use vstd::utf8::{decode_utf8, valid_utf8};
use crate::blob::Blob;
use crate::text::{find_char, from_chars, push_char, split_on, to_chars, utf8_str};

verus! {

/// What the comparison says of one line.
#[derive(Clone, Copy, Debug, PartialEq, Eq, Structural)]
pub enum Change {
    /// The line is in both texts.
    Unchanged,
    /// The line is in the old text only.
    Deleted,
    /// The line is in the new text only.
    Inserted,
}

/// One line of a comparison.
#[derive(Debug)]
pub struct DiffLine {
    pub change: Change,
    pub text: String,
}

impl View for DiffLine {
    type V = (Change, Seq<char>);

    open spec fn view(&self) -> (Change, Seq<char>) {
        (self.change, self.text@)
    }
}

/// The lines as sequences of characters.
pub open spec fn lines_view(lines: Seq<String>) -> Seq<Seq<char>> {
    lines.map_values(|l: String| l@)
}

/// The comparison as pairs of change and text.
pub open spec fn script_view(script: Seq<DiffLine>) -> Seq<(Change, Seq<char>)> {
    script.map_values(|l: DiffLine| l@)
}

/// Whether, `a` lines after `oi` in the old text and `b` lines after `ni` in
/// the new text, both texts have a line and the two lines are equal.
pub open spec fn offsets_match(
    old: Seq<Seq<char>>,
    new: Seq<Seq<char>>,
    oi: int,
    ni: int,
    a: int,
    b: int,
) -> bool {
    &&& 0 <= a
    &&& 0 <= b
    &&& 0 <= oi + a < old.len()
    &&& 0 <= ni + b < new.len()
    &&& old[oi + a] == new[ni + b]
}

/// Whether a breadth-first search from `(0, 0)` that steps to `(a + 1, b)`
/// before `(a, b + 1)` reaches `(a, b)` before `(x, y)`: fewer lines are
/// skipped in all, or as many with more of them old.
pub open spec fn searched_before(a: int, b: int, x: int, y: int) -> bool {
    a + b < x + y || (a + b == x + y && a > x)
}

/// The first matching offsets among those with `d` skipped lines of which at
/// least `k` are new, then those with `d + 1`, and so on; the number of lines
/// left in each text when there is no match.
pub open spec fn scan_from(
    old: Seq<Seq<char>>,
    new: Seq<Seq<char>>,
    oi: int,
    ni: int,
    d: int,
    k: int,
) -> (int, int)
    decreases (old.len() - oi) + (new.len() - ni) - d, d + 1 - k,
{
    let rows = old.len() - oi;
    let cols = new.len() - ni;
    if d < 0 || k < 0 || d > rows + cols - 2 {
        (rows, cols)
    } else if k > d {
        scan_from(old, new, oi, ni, d + 1, 0)
    } else if offsets_match(old, new, oi, ni, d - k, k) {
        (d - k, k)
    } else {
        scan_from(old, new, oi, ni, d, k + 1)
    }
}

/// Where the comparison resumes after lines `oi` and `ni` differ: the first
/// matching offsets in search order, or the ends of both texts.
pub open spec fn resync(old: Seq<Seq<char>>, new: Seq<Seq<char>>, oi: int, ni: int) -> (int, int) {
    scan_from(old, new, oi, ni, 0, 0)
}

/// Whether no offsets searched before `(x, y)` match.
pub open spec fn none_match_before(
    old: Seq<Seq<char>>,
    new: Seq<Seq<char>>,
    oi: int,
    ni: int,
    x: int,
    y: int,
) -> bool {
    forall|a: int, b: int| #[trigger]
        offsets_match(old, new, oi, ni, a, b) ==> !searched_before(a, b, x, y)
}

/// Whether `(x, y)` is where the search from lines `oi` and `ni` ends: at the
/// first matching offsets in search order, or, when no offsets match, at the
/// ends of both texts.
pub open spec fn is_resync_point(
    old: Seq<Seq<char>>,
    new: Seq<Seq<char>>,
    oi: int,
    ni: int,
    x: int,
    y: int,
) -> bool {
    ||| offsets_match(old, new, oi, ni, x, y) && none_match_before(old, new, oi, ni, x, y)
    ||| x == old.len() - oi && y == new.len() - ni && forall|a: int, b: int|
        !#[trigger] offsets_match(old, new, oi, ni, a, b)
}

proof fn lemma_scan_from(
    old: Seq<Seq<char>>,
    new: Seq<Seq<char>>,
    oi: int,
    ni: int,
    d: int,
    k: int,
)
    requires
        0 <= oi < old.len(),
        0 <= ni < new.len(),
        0 <= d,
        0 <= k <= d + 1,
        none_match_before(old, new, oi, ni, d - k, k),
    ensures
        is_resync_point(
            old,
            new,
            oi,
            ni,
            scan_from(old, new, oi, ni, d, k).0,
            scan_from(old, new, oi, ni, d, k).1,
        ),
    decreases (old.len() - oi) + (new.len() - ni) - d, d + 1 - k,
{
    let rows = old.len() - oi;
    let cols = new.len() - ni;
    if d > rows + cols - 2 {
        assert forall|a: int, b: int| !#[trigger] offsets_match(old, new, oi, ni, a, b) by {
            if offsets_match(old, new, oi, ni, a, b) {
                assert(!searched_before(a, b, d - k, k));
            }
        }
    } else if k > d {
        assert forall|a: int, b: int| #[trigger]
            offsets_match(old, new, oi, ni, a, b) implies !searched_before(a, b, d + 1, 0) by {
            assert(!searched_before(a, b, d - k, k));
        }
        lemma_scan_from(old, new, oi, ni, d + 1, 0);
    } else if offsets_match(old, new, oi, ni, d - k, k) {
    } else {
        assert forall|a: int, b: int| #[trigger]
            offsets_match(old, new, oi, ni, a, b) implies !searched_before(
            a,
            b,
            d - (k + 1),
            k + 1,
        ) by {
            assert(!searched_before(a, b, d - k, k));
        }
        lemma_scan_from(old, new, oi, ni, d, k + 1);
    }
}

/// `resync` ends the breadth-first search: it gives the first matching
/// offsets in search order, or the ends of both texts when nothing matches.
pub proof fn lemma_resync(old: Seq<Seq<char>>, new: Seq<Seq<char>>, oi: int, ni: int)
    requires
        0 <= oi < old.len(),
        0 <= ni < new.len(),
    ensures
        is_resync_point(old, new, oi, ni, resync(old, new, oi, ni).0, resync(old, new, oi, ni).1),
{
    assert(none_match_before(old, new, oi, ni, 0, 0));
    lemma_scan_from(old, new, oi, ni, 0, 0);
}

/// At most one pair of offsets ends the search.
pub proof fn lemma_resync_point_unique(
    old: Seq<Seq<char>>,
    new: Seq<Seq<char>>,
    oi: int,
    ni: int,
    x1: int,
    y1: int,
    x2: int,
    y2: int,
)
    requires
        0 <= oi < old.len(),
        0 <= ni < new.len(),
        is_resync_point(old, new, oi, ni, x1, y1),
        is_resync_point(old, new, oi, ni, x2, y2),
    ensures
        x1 == x2,
        y1 == y2,
{
    if offsets_match(old, new, oi, ni, x1, y1) && offsets_match(old, new, oi, ni, x2, y2) {
        assert(!searched_before(x1, y1, x2, y2));
        assert(!searched_before(x2, y2, x1, y1));
    }
}


/// `count` lines of `lines` from line `from` on, each with the change `change`.
pub open spec fn marked(lines: Seq<Seq<char>>, from: int, count: int, change: Change) -> Seq<
    (Change, Seq<char>),
> {
    Seq::new(
        (if count > 0 {
            count
        } else {
            0
        }) as nat,
        |i: int| (change, lines[from + i]),
    )
}

/// The comparison of `old` from line `oi` on with `new` from line `ni` on.
///
/// While both texts have lines left: equal lines are unchanged; where they
/// differ, the old lines up to the resync point are deleted and the new
/// lines up to it inserted. What is left of the old text at the end is
/// deleted, and what is left of the new text inserted.
pub open spec fn diff_from(old: Seq<Seq<char>>, new: Seq<Seq<char>>, oi: int, ni: int) -> Seq<
    (Change, Seq<char>),
>
    decreases (old.len() - oi) + (new.len() - ni),
    when 0 <= oi && 0 <= ni
    via diff_from_decreases
{
    if oi >= old.len() || ni >= new.len() {
        marked(old, oi, old.len() - oi, Change::Deleted) + marked(
            new,
            ni,
            new.len() - ni,
            Change::Inserted,
        )
    } else if old[oi] == new[ni] {
        seq![(Change::Unchanged, new[ni])] + diff_from(old, new, oi + 1, ni + 1)
    } else {
        let (x, y) = resync(old, new, oi, ni);
        marked(old, oi, x, Change::Deleted) + marked(new, ni, y, Change::Inserted) + diff_from(
            old,
            new,
            oi + x,
            ni + y,
        )
    }
}

#[via_fn]
proof fn diff_from_decreases(old: Seq<Seq<char>>, new: Seq<Seq<char>>, oi: int, ni: int) {
    if oi < old.len() && ni < new.len() && old[oi] != new[ni] {
        lemma_resync_advances(old, new, oi, ni);
    }
}

/// After two lines that differ, the resync point lies ahead in at least one
/// text and inside or at the end of both.
pub proof fn lemma_resync_advances(old: Seq<Seq<char>>, new: Seq<Seq<char>>, oi: int, ni: int)
    requires
        0 <= oi < old.len(),
        0 <= ni < new.len(),
        old[oi] != new[ni],
    ensures
        0 <= resync(old, new, oi, ni).0 <= old.len() - oi,
        0 <= resync(old, new, oi, ni).1 <= new.len() - ni,
        resync(old, new, oi, ni).0 + resync(old, new, oi, ni).1 >= 1,
{
    lemma_resync(old, new, oi, ni);
    assert(!offsets_match(old, new, oi, ni, 0, 0));
}

/// The whole comparison of `old` with `new`.
pub open spec fn diff_script(old: Seq<Seq<char>>, new: Seq<Seq<char>>) -> Seq<(Change, Seq<char>)> {
    diff_from(old, new, 0, 0)
}

/// The lines of the comparison that the old text has: all but the inserted
/// ones.
pub open spec fn old_side(script: Seq<(Change, Seq<char>)>) -> Seq<Seq<char>>
    decreases script.len(),
{
    if script.len() == 0 {
        Seq::empty()
    } else if script.last().0 == Change::Inserted {
        old_side(script.drop_last())
    } else {
        old_side(script.drop_last()).push(script.last().1)
    }
}

/// The lines of the comparison that the new text has: all but the deleted
/// ones.
pub open spec fn new_side(script: Seq<(Change, Seq<char>)>) -> Seq<Seq<char>>
    decreases script.len(),
{
    if script.len() == 0 {
        Seq::empty()
    } else if script.last().0 == Change::Deleted {
        new_side(script.drop_last())
    } else {
        new_side(script.drop_last()).push(script.last().1)
    }
}

proof fn lemma_sides_of_concat(a: Seq<(Change, Seq<char>)>, b: Seq<(Change, Seq<char>)>)
    ensures
        old_side(a + b) == old_side(a) + old_side(b),
        new_side(a + b) == new_side(a) + new_side(b),
    decreases b.len(),
{
    if b.len() == 0 {
        assert(a + b =~= a);
        assert(old_side(a) + old_side(b) =~= old_side(a));
        assert(new_side(a) + new_side(b) =~= new_side(a));
    } else {
        lemma_sides_of_concat(a, b.drop_last());
        assert((a + b).drop_last() =~= a + b.drop_last());
        assert((a + b).last() == b.last());
        assert(old_side(a + b) =~= old_side(a) + old_side(b));
        assert(new_side(a + b) =~= new_side(a) + new_side(b));
    }
}

proof fn lemma_sides_of_marked(lines: Seq<Seq<char>>, from: int, count: int, change: Change)
    requires
        0 <= from,
        0 <= count,
        from + count <= lines.len(),
    ensures
        old_side(marked(lines, from, count, change)) == (if change == Change::Inserted {
            Seq::<Seq<char>>::empty()
        } else {
            lines.subrange(from, from + count)
        }),
        new_side(marked(lines, from, count, change)) == (if change == Change::Deleted {
            Seq::<Seq<char>>::empty()
        } else {
            lines.subrange(from, from + count)
        }),
    decreases count,
{
    let all = marked(lines, from, count, change);
    if count == 0 {
        assert(lines.subrange(from, from + count) =~= Seq::empty());
    } else {
        lemma_sides_of_marked(lines, from, count - 1, change);
        assert(all.drop_last() =~= marked(lines, from, count - 1, change));
        assert(all.last() == (change, lines[from + count - 1]));
        assert(lines.subrange(from, from + count) =~= lines.subrange(from, from + count - 1).push(
            lines[from + count - 1],
        ));
    }
}

proof fn lemma_diff_from_sides(old: Seq<Seq<char>>, new: Seq<Seq<char>>, oi: int, ni: int)
    requires
        0 <= oi <= old.len(),
        0 <= ni <= new.len(),
    ensures
        old_side(diff_from(old, new, oi, ni)) == old.skip(oi),
        new_side(diff_from(old, new, oi, ni)) == new.skip(ni),
    decreases (old.len() - oi) + (new.len() - ni),
{
    if oi >= old.len() || ni >= new.len() {
        let gone = marked(old, oi, old.len() - oi, Change::Deleted);
        let come = marked(new, ni, new.len() - ni, Change::Inserted);
        lemma_sides_of_concat(gone, come);
        lemma_sides_of_marked(old, oi, old.len() - oi, Change::Deleted);
        lemma_sides_of_marked(new, ni, new.len() - ni, Change::Inserted);
        assert(old.subrange(oi, old.len() as int) + Seq::<Seq<char>>::empty() =~= old.skip(oi));
        assert(Seq::<Seq<char>>::empty() + new.subrange(ni, new.len() as int) =~= new.skip(ni));
    } else if old[oi] == new[ni] {
        let kept = seq![(Change::Unchanged, new[ni])];
        lemma_diff_from_sides(old, new, oi + 1, ni + 1);
        lemma_sides_of_concat(kept, diff_from(old, new, oi + 1, ni + 1));
        assert(kept.drop_last() =~= Seq::empty());
        assert(kept.last() == (Change::Unchanged, new[ni]));
        assert(old_side(kept.drop_last()) =~= Seq::empty());
        assert(new_side(kept.drop_last()) =~= Seq::empty());
        assert(old_side(kept) =~= seq![old[oi]]);
        assert(new_side(kept) =~= seq![new[ni]]);
        assert(seq![old[oi]] + old.skip(oi + 1) =~= old.skip(oi));
        assert(seq![new[ni]] + new.skip(ni + 1) =~= new.skip(ni));
    } else {
        let (x, y) = resync(old, new, oi, ni);
        lemma_resync_advances(old, new, oi, ni);
        let gone = marked(old, oi, x, Change::Deleted);
        let come = marked(new, ni, y, Change::Inserted);
        let rest = diff_from(old, new, oi + x, ni + y);
        lemma_diff_from_sides(old, new, oi + x, ni + y);
        lemma_sides_of_concat(gone, come);
        lemma_sides_of_concat(gone + come, rest);
        lemma_sides_of_marked(old, oi, x, Change::Deleted);
        lemma_sides_of_marked(new, ni, y, Change::Inserted);
        assert(old.subrange(oi, oi + x) + Seq::<Seq<char>>::empty() + old.skip(oi + x)
            =~= old.skip(oi));
        assert(Seq::<Seq<char>>::empty() + new.subrange(ni, ni + y) + new.skip(ni + y)
            =~= new.skip(ni));
    }
}

/// A comparison holds both texts: its lines without the inserted ones are
/// the old text, and its lines without the deleted ones are the new text.
pub proof fn lemma_diff_holds_both_texts(old: Seq<Seq<char>>, new: Seq<Seq<char>>)
    ensures
        old_side(diff_script(old, new)) == old,
        new_side(diff_script(old, new)) == new,
{
    lemma_diff_from_sides(old, new, 0, 0);
    assert(old.skip(0) =~= old);
    assert(new.skip(0) =~= new);
}

/// The two characters that stand before a line of the given change.
pub open spec fn marker(change: Change) -> Seq<char> {
    match change {
        Change::Unchanged => seq![' ', ' '],
        Change::Deleted => seq!['-', ' '],
        Change::Inserted => seq!['+', ' '],
    }
}

/// One line of the comparison as text: its marker, the line, a line feed.
pub open spec fn render_line(line: (Change, Seq<char>)) -> Seq<char> {
    marker(line.0) + line.1 + seq!['\n']
}

/// The comparison as text: its lines, rendered, one after the other.
pub open spec fn render(script: Seq<(Change, Seq<char>)>) -> Seq<char>
    decreases script.len(),
{
    if script.len() == 0 {
        Seq::empty()
    } else {
        render(script.drop_last()) + render_line(script.last())
    }
}

/// The offsets `(x, y)` for `x` old and `y` new lines skipped, as one number.
pub open spec fn offsets_key(x: int, y: int) -> u128 {
    (x * 0x1_0000_0000_0000_0000 + y) as u128
}

fn key_of(x: usize, y: usize) -> (key: u128)
    ensures
        key == offsets_key(x as int, y as int),
{
    (x as u128) * 0x1_0000_0000_0000_0000u128 + (y as u128)
}

/// The least number of new lines among the offsets inside a grid of `rows`
/// old lines that skip `d` lines in all.
pub open spec fn level_lo(d: int, rows: int) -> int {
    if d > rows - 1 {
        d - (rows - 1)
    } else {
        0
    }
}

/// The greatest number of new lines among the offsets inside a grid of
/// `cols` new lines that skip `d` lines in all.
pub open spec fn level_hi(d: int, cols: int) -> int {
    if d < cols - 1 {
        d
    } else {
        cols - 1
    }
}

/// The offsets that skip `d` lines in all, `from` up to `to - 1` of them
/// new, in search order.
pub open spec fn level_part(d: int, from: int, to: int) -> Seq<(usize, usize)> {
    Seq::new(
        (if to > from {
            to - from
        } else {
            0
        }) as nat,
        |i: int| ((d - (from + i)) as usize, (from + i) as usize),
    )
}

/// What the search has queued when it takes up the offsets with `d` skipped
/// lines of which `k` are new: the rest of that level, then the part of the
/// next level that the offsets before these have reached.
#[verifier::opaque]
pub open spec fn queued(d: int, k: int, rows: int, cols: int) -> Seq<(usize, usize)> {
    level_part(d, k + 1, level_hi(d, cols) + 1) + (if k > level_lo(d, rows) {
        level_part(d + 1, level_lo(d + 1, rows), k + 1)
    } else {
        Seq::empty()
    })
}

/// What the search has queued when it is done with the offsets with `d`
/// skipped lines of which `k` are new.
#[verifier::opaque]
pub open spec fn queued_after(d: int, k: int, rows: int, cols: int) -> Seq<(usize, usize)> {
    level_part(d, k + 1, level_hi(d, cols) + 1) + level_part(
        d + 1,
        level_lo(d + 1, rows),
        level_hi(k + 1, cols) + 1,
    )
}

/// Whether the search has seen the offsets `(a, b)` when it takes up the
/// offsets with `d` skipped lines of which `k` are new.
pub open spec fn seen(a: int, b: int, d: int, k: int, rows: int, cols: int) -> bool {
    &&& 0 <= a < rows
    &&& 0 <= b < cols
    &&& (a + b <= d || (a + b == d + 1 && k > level_lo(d, rows) && b <= k))
}

/// Whether `visited` holds, of the offsets inside the grid, those that the
/// search has seen.
#[verifier::opaque]
pub open spec fn visited_ok(visited: Set<u128>, d: int, k: int, rows: int, cols: int) -> bool {
    forall|a: int, b: int|
        0 <= a < rows && 0 <= b < cols ==> (#[trigger] visited.contains(offsets_key(a, b)) <==> seen(
            a,
            b,
            d,
            k,
            rows,
            cols,
        ))
}

proof fn lemma_key_injective(a: int, b: int, x: int, y: int)
    requires
        0 <= a <= usize::MAX,
        0 <= b <= usize::MAX,
        0 <= x <= usize::MAX,
        0 <= y <= usize::MAX,
        offsets_key(a, b) == offsets_key(x, y),
    ensures
        a == x,
        b == y,
{
}

proof fn lemma_search_start(queue: Seq<(usize, usize)>, visited: Set<u128>, rows: int, cols: int)
    requires
        0 < rows <= usize::MAX,
        0 < cols <= usize::MAX,
        queue == Seq::<(usize, usize)>::empty(),
        visited == Set::<u128>::empty().insert(offsets_key(0, 0)),
    ensures
        queue == queued(0, 0, rows, cols),
        visited_ok(visited, 0, 0, rows, cols),
{
    reveal(queued);
    reveal(visited_ok);
    assert(queue =~= queued(0, 0, rows, cols));
    assert forall|a: int, b: int| 0 <= a < rows && 0 <= b < cols implies (
    #[trigger] visited.contains(offsets_key(a, b)) <==> seen(a, b, 0, 0, rows, cols)) by {
        if offsets_key(a, b) == offsets_key(0, 0) {
            lemma_key_injective(a, b, 0, 0);
        }
    }
}

proof fn lemma_queue_push(d: int, k: int, rows: int, cols: int)
    requires
        0 <= k < cols <= usize::MAX,
        0 <= d - k < rows <= usize::MAX,
    ensures
        ({
            let q0 = queued(d, k, rows, cols);
            let q1 = if d - k + 1 < rows && k <= level_lo(d, rows) {
                q0.push(((d - k + 1) as usize, k as usize))
            } else {
                q0
            };
            let q2 = if k + 1 < cols {
                q1.push(((d - k) as usize, (k + 1) as usize))
            } else {
                q1
            };
            q2 == queued_after(d, k, rows, cols)
        }),
{
    reveal(queued);
    reveal(queued_after);
    let q0 = queued(d, k, rows, cols);
    let q1 = if d - k + 1 < rows && k <= level_lo(d, rows) {
        q0.push(((d - k + 1) as usize, k as usize))
    } else {
        q0
    };
    let q2 = if k + 1 < cols {
        q1.push(((d - k) as usize, (k + 1) as usize))
    } else {
        q1
    };
    assert(q2 =~= queued_after(d, k, rows, cols));
}

proof fn lemma_queue_pop(d: int, k: int, rows: int, cols: int)
    requires
        0 <= k < cols <= usize::MAX,
        0 <= d - k < rows <= usize::MAX,
    ensures
        ({
            let q = queued_after(d, k, rows, cols);
            if k < level_hi(d, cols) {
                &&& q.len() > 0
                &&& q[0] == ((d - k - 1) as usize, (k + 1) as usize)
                &&& q.subrange(1, q.len() as int) == queued(d, k + 1, rows, cols)
            } else if d < rows + cols - 2 {
                &&& q.len() > 0
                &&& q[0] == ((d + 1 - level_lo(d + 1, rows)) as usize, level_lo(d + 1, rows) as usize)
                &&& q.subrange(1, q.len() as int) == queued(
                    d + 1,
                    level_lo(d + 1, rows),
                    rows,
                    cols,
                )
                &&& 0 <= d + 1 - level_lo(d + 1, rows) < rows
                &&& 0 <= level_lo(d + 1, rows) < cols
            } else {
                q.len() == 0
            }
        }),
{
    reveal(queued);
    reveal(queued_after);
    let q = queued_after(d, k, rows, cols);
    if k < level_hi(d, cols) {
        assert(q.subrange(1, q.len() as int) =~= queued(d, k + 1, rows, cols));
    } else if d < rows + cols - 2 {
        assert(q.subrange(1, q.len() as int) =~= queued(d + 1, level_lo(d + 1, rows), rows, cols));
    }
}

proof fn lemma_visited_step(v0: Set<u128>, d: int, k: int, rows: int, cols: int)
    requires
        0 <= k < cols <= usize::MAX,
        0 <= d - k < rows <= usize::MAX,
        visited_ok(v0, d, k, rows, cols),
    ensures
        ({
            let first = offsets_key(d - k + 1, k);
            let second = offsets_key(d - k, k + 1);
            let v1 = if d - k + 1 < rows && !v0.contains(first) {
                v0.insert(first)
            } else {
                v0
            };
            let v2 = if k + 1 < cols && !v1.contains(second) {
                v1.insert(second)
            } else {
                v1
            };
            &&& d - k + 1 < rows ==> (v0.contains(first) <==> k > level_lo(d, rows))
            &&& k + 1 < cols ==> !v1.contains(second)
            &&& k < level_hi(d, cols) ==> visited_ok(v2, d, k + 1, rows, cols)
            &&& k == level_hi(d, cols) ==> visited_ok(v2, d + 1, level_lo(d + 1, rows), rows, cols)
        }),
{
    reveal(visited_ok);
    let first = offsets_key(d - k + 1, k);
    let second = offsets_key(d - k, k + 1);
    let v1 = if d - k + 1 < rows && !v0.contains(first) {
        v0.insert(first)
    } else {
        v0
    };
    let v2 = if k + 1 < cols && !v1.contains(second) {
        v1.insert(second)
    } else {
        v1
    };
    if d - k + 1 < rows {
        assert(v0.contains(offsets_key(d - k + 1, k)) <==> seen(d - k + 1, k, d, k, rows, cols));
    }
    if k + 1 < cols {
        assert(v0.contains(offsets_key(d - k, k + 1)) <==> seen(d - k, k + 1, d, k, rows, cols));
        if second == first {
            lemma_key_injective(d - k, k + 1, d - k + 1, k);
        }
    }
    assert forall|a: int, b: int| 0 <= a < rows && 0 <= b < cols implies (#[trigger] v2.contains(
        offsets_key(a, b),
    ) <==> (seen(a, b, d, k, rows, cols) || (a == d - k + 1 && b == k) || (a == d - k && b == k
        + 1))) by {
        assert(v0.contains(offsets_key(a, b)) <==> seen(a, b, d, k, rows, cols));
        if offsets_key(a, b) == first {
            lemma_key_injective(a, b, d - k + 1, k);
        }
        if offsets_key(a, b) == second {
            lemma_key_injective(a, b, d - k, k + 1);
        }
    }
    if k < level_hi(d, cols) {
        assert forall|a: int, b: int| 0 <= a < rows && 0 <= b < cols implies (#[trigger] v2.contains(
            offsets_key(a, b),
        ) <==> seen(a, b, d, k + 1, rows, cols)) by {}
    } else {
        assert forall|a: int, b: int| 0 <= a < rows && 0 <= b < cols implies (#[trigger] v2.contains(
            offsets_key(a, b),
        ) <==> seen(a, b, d + 1, level_lo(d + 1, rows), rows, cols)) by {}
    }
}

proof fn lemma_none_before_next(
    old: Seq<Seq<char>>,
    new: Seq<Seq<char>>,
    oi: int,
    ni: int,
    d: int,
    k: int,
)
    requires
        0 <= oi < old.len(),
        0 <= ni < new.len(),
        0 <= k < new.len() - ni,
        0 <= d - k < old.len() - oi,
        none_match_before(old, new, oi, ni, d - k, k),
        !offsets_match(old, new, oi, ni, d - k, k),
    ensures
        none_match_before(old, new, oi, ni, d - k - 1, k + 1),
        k == level_hi(d, new.len() - ni) ==> none_match_before(
            old,
            new,
            oi,
            ni,
            d + 1 - level_lo(d + 1, old.len() - oi),
            level_lo(d + 1, old.len() - oi),
        ),
        d == (old.len() - oi) + (new.len() - ni) - 2 ==> forall|a: int, b: int|
            !#[trigger] offsets_match(old, new, oi, ni, a, b),
{
    assert forall|a: int, b: int| #[trigger]
        offsets_match(old, new, oi, ni, a, b) implies !searched_before(a, b, d - k - 1, k + 1) by {
        assert(!searched_before(a, b, d - k, k));
    }
    if k == level_hi(d, new.len() - ni) {
        assert forall|a: int, b: int| #[trigger]
            offsets_match(old, new, oi, ni, a, b) implies !searched_before(
            a,
            b,
            d + 1 - level_lo(d + 1, old.len() - oi),
            level_lo(d + 1, old.len() - oi),
        ) by {
            assert(!searched_before(a, b, d - k, k));
        }
    }
    if d == (old.len() - oi) + (new.len() - ni) - 2 {
        assert forall|a: int, b: int| !#[trigger] offsets_match(old, new, oi, ni, a, b) by {
            if offsets_match(old, new, oi, ni, a, b) {
                assert(!searched_before(a, b, d - k, k));
            }
        }
    }
}

/// Finds where the comparison resumes after lines `oi` and `ni`, which
/// differ, by breadth-first search over the offsets inside both texts: from
/// each offsets the search steps one old line further, then one new line
/// further, and it stops at the first offsets it takes from its queue whose
/// lines are equal. When the queue runs empty both texts are exhausted.
pub fn find_resync(old: &Vec<String>, new: &Vec<String>, oi: usize, ni: usize) -> (r: (
    usize,
    usize,
))
    requires
        oi < old.len(),
        ni < new.len(),
    ensures
        (r.0 as int, r.1 as int) == resync(lines_view(old@), lines_view(new@), oi as int, ni as int),
        is_resync_point(
            lines_view(old@),
            lines_view(new@),
            oi as int,
            ni as int,
            r.0 as int,
            r.1 as int,
        ),
        oi + r.0 <= old.len(),
        ni + r.1 <= new.len(),
{
    broadcast use vstd::std_specs::hash::group_hash_axioms;

    let ghost o = lines_view(old@);
    let ghost n = lines_view(new@);
    let rows: usize = old.len() - oi;
    let cols: usize = new.len() - ni;
    let mut queue: VecDeque<(usize, usize)> = VecDeque::new();
    let mut visited: HashSet<u128> = HashSet::new();
    visited.insert(key_of(0, 0));
    let mut x: usize = 0;
    let mut y: usize = 0;
    proof {
        lemma_resync(o, n, oi as int, ni as int);
        lemma_search_start(queue@, visited@, rows as int, cols as int);
    }
    loop
        invariant
            oi < old.len(),
            ni < new.len(),
            o == lines_view(old@),
            n == lines_view(new@),
            rows == old.len() - oi,
            cols == new.len() - ni,
            x < rows,
            y < cols,
            none_match_before(o, n, oi as int, ni as int, x as int, y as int),
            queue@ == queued(x + y, y as int, rows as int, cols as int),
            visited_ok(visited@, x + y, y as int, rows as int, cols as int),
            is_resync_point(
                o,
                n,
                oi as int,
                ni as int,
                resync(o, n, oi as int, ni as int).0,
                resync(o, n, oi as int, ni as int).1,
            ),
        decreases rows + cols - x - y, x,
    {
        let ghost d = x + y;
        let ghost k = y as int;
        if old[oi + x] == new[ni + y] {
            proof {
                assert(offsets_match(o, n, oi as int, ni as int, x as int, y as int));
                lemma_resync_point_unique(
                    o,
                    n,
                    oi as int,
                    ni as int,
                    x as int,
                    y as int,
                    resync(o, n, oi as int, ni as int).0,
                    resync(o, n, oi as int, ni as int).1,
                );
            }
            return (x, y);
        }
        proof {
            assert(!offsets_match(o, n, oi as int, ni as int, x as int, y as int));
            lemma_queue_push(d, k, rows as int, cols as int);
            lemma_queue_pop(d, k, rows as int, cols as int);
            lemma_visited_step(visited@, d, k, rows as int, cols as int);
            lemma_none_before_next(o, n, oi as int, ni as int, d, k);
        }
        if x + 1 < rows {
            let key = key_of(x + 1, y);
            if !visited.contains(&key) {
                queue.push_back((x + 1, y));
                visited.insert(key);
            }
        }
        if y + 1 < cols {
            let key = key_of(x, y + 1);
            if !visited.contains(&key) {
                queue.push_back((x, y + 1));
                visited.insert(key);
            }
        }
        assert(queue@ == queued_after(d, k, rows as int, cols as int));
        match queue.pop_front() {
            None => {
                proof {
                    lemma_resync_point_unique(
                        o,
                        n,
                        oi as int,
                        ni as int,
                        rows as int,
                        cols as int,
                        resync(o, n, oi as int, ni as int).0,
                        resync(o, n, oi as int, ni as int).1,
                    );
                }
                return (rows, cols);
            },
            Some(next) => {
                x = next.0;
                y = next.1;
            },
        }
    }
}


fn push_marked(script: &mut Vec<DiffLine>, lines: &Vec<String>, from: usize, count: usize, change: Change)
    requires
        from + count <= lines.len(),
    ensures
        script_view(final(script)@) == script_view(old(script)@) + marked(
            lines_view(lines@),
            from as int,
            count as int,
            change,
        ),
{
    let ghost before = script_view(script@);
    let mut i: usize = 0;
    while i < count
        invariant
            i <= count,
            from + count <= lines.len(),
            script_view(script@) == before + marked(
                lines_view(lines@),
                from as int,
                i as int,
                change,
            ),
        decreases count - i,
    {
        let ghost prev = script@;
        script.push(DiffLine { change, text: lines[from + i].clone() });
        assert(script_view(script@) =~= script_view(prev).push((change, lines@[from + i]@)));
        assert(marked(lines_view(lines@), from as int, i + 1, change) =~= marked(
            lines_view(lines@),
            from as int,
            i as int,
            change,
        ).push((change, lines@[from + i]@)));
        i += 1;
    }
}

/// Compares the lines of two texts.
pub fn diff_lines(old: &Vec<String>, new: &Vec<String>) -> (script: Vec<DiffLine>)
    ensures
        script_view(script@) == diff_script(lines_view(old@), lines_view(new@)),
{
    let ghost o = lines_view(old@);
    let ghost n = lines_view(new@);
    let mut script: Vec<DiffLine> = Vec::new();
    let mut oi: usize = 0;
    let mut ni: usize = 0;
    assert(script_view(script@) =~= Seq::empty());
    while oi < old.len() && ni < new.len()
        invariant
            oi <= old.len(),
            ni <= new.len(),
            o == lines_view(old@),
            n == lines_view(new@),
            script_view(script@) + diff_from(o, n, oi as int, ni as int) == diff_from(o, n, 0, 0),
        decreases (old.len() - oi) + (new.len() - ni),
    {
        let ghost before = script_view(script@);
        if old[oi] == new[ni] {
            push_marked(&mut script, new, ni, 1, Change::Unchanged);
            proof {
                assert(marked(n, ni as int, 1, Change::Unchanged) =~= seq![
                    (Change::Unchanged, n[ni as int]),
                ]);
                assert(script_view(script@) + diff_from(o, n, oi + 1, ni + 1) =~= before
                    + diff_from(o, n, oi as int, ni as int));
            }
            oi += 1;
            ni += 1;
        } else {
            let (x, y) = find_resync(old, new, oi, ni);
            proof {
                lemma_resync_advances(o, n, oi as int, ni as int);
            }
            push_marked(&mut script, old, oi, x, Change::Deleted);
            push_marked(&mut script, new, ni, y, Change::Inserted);
            proof {
                assert(script_view(script@) + diff_from(o, n, oi + x, ni + y) =~= before
                    + diff_from(o, n, oi as int, ni as int));
            }
            oi += x;
            ni += y;
        }
    }
    let ghost before = script_view(script@);
    push_marked(&mut script, old, oi, old.len() - oi, Change::Deleted);
    push_marked(&mut script, new, ni, new.len() - ni, Change::Inserted);
    proof {
        assert(script_view(script@) =~= before + diff_from(o, n, oi as int, ni as int));
    }
    script
}

/// Renders a comparison as text, one line for each of its lines: two
/// characters that tell the change, the line, and a line feed.
pub fn render_diff(script: &Vec<DiffLine>) -> (out: String)
    ensures
        out@ == render(script_view(script@)),
{
    let mut out = String::new();
    let mut i: usize = 0;
    while i < script.len()
        invariant
            i <= script.len(),
            out@ == render(script_view(script@).take(i as int)),
        decreases script.len() - i,
    {
        let ghost before = out@;
        match script[i].change {
            Change::Unchanged => {
                push_char(&mut out, ' ');
            },
            Change::Deleted => {
                push_char(&mut out, '-');
            },
            Change::Inserted => {
                push_char(&mut out, '+');
            },
        }
        push_char(&mut out, ' ');
        out.append(script[i].text.as_str());
        push_char(&mut out, '\n');
        proof {
            let view = script_view(script@);
            assert(view.take(i + 1).drop_last() =~= view.take(i as int));
            assert(view.take(i + 1).last() == script@[i as int]@);
            assert(out@ =~= before + render_line(script@[i as int]@));
        }
        i += 1;
    }
    assert(script_view(script@).take(script@.len() as int) =~= script_view(script@));
    out
}

/// Splits a text at its line feeds. A text that ends in a line feed has an
/// empty last line.
pub fn split_lines(text: &str) -> (lines: Vec<String>)
    ensures
        lines_view(lines@) == split_on(text@, '\n'),
{
    let chars = to_chars(text);
    let mut lines: Vec<String> = Vec::new();
    let mut start: usize = 0;
    assert(lines_view(lines@) =~= Seq::empty());
    assert(chars@.skip(0) =~= chars@);
    loop
        invariant
            start <= chars.len(),
            chars@ == text@,
            lines_view(lines@) + split_on(chars@.skip(start as int), '\n') == split_on(
                chars@,
                '\n',
            ),
        decreases chars.len() - start,
    {
        let end = find_char(chars.as_slice(), start, '\n');
        let ghost before = lines@;
        let ghost rest = chars@.skip(start as int);
        lines.push(from_chars(&chars.as_slice()[start..end]));
        proof {
            assert(rest.take(end - start) =~= chars@.subrange(start as int, end as int));
            assert(lines_view(lines@) =~= lines_view(before).push(rest.take(end - start)));
        }
        if end == chars.len() {
            proof {
                assert(rest.take(end - start) =~= rest);
                assert(lines_view(lines@) =~= lines_view(before) + split_on(rest, '\n'));
            }
            return lines;
        }
        proof {
            assert(rest.skip(end - start + 1) =~= chars@.skip(end + 1));
            assert(lines_view(lines@) + split_on(chars@.skip(end + 1), '\n') =~= lines_view(before)
                + split_on(rest, '\n'));
        }
        start = end + 1;
    }
}

/// The line-by-line comparison of two blobs of text, rendered.
///
/// Both blobs must hold valid UTF-8.
pub fn diff_blobs(blob1: &Blob, blob2: &Blob) -> (out: String)
    requires
        valid_utf8(blob1.content@),
        valid_utf8(blob2.content@),
    ensures
        out@ == render(
            diff_script(
                split_on(decode_utf8(blob1.content@), '\n'),
                split_on(decode_utf8(blob2.content@), '\n'),
            ),
        ),
{
    match (utf8_str(blob1.content.as_slice()), utf8_str(blob2.content.as_slice())) {
        (Some(old_text), Some(new_text)) => {
            let old_lines = split_lines(old_text);
            let new_lines = split_lines(new_text);
            let script = diff_lines(&old_lines, &new_lines);
            render_diff(&script)
        },
        _ => String::new(),
    }
}


/// The line-by-line comparison of two blobs, rendered, where both hold
/// text; nothing where one of them is not valid UTF-8.
pub fn try_diff_blobs(blob1: &Blob, blob2: &Blob) -> (r: Option<String>)
    ensures
        match r {
            Some(out) => valid_utf8(blob1.content@) && valid_utf8(blob2.content@) && out@
                == render(
                diff_script(
                    split_on(decode_utf8(blob1.content@), '\n'),
                    split_on(decode_utf8(blob2.content@), '\n'),
                ),
            ),
            None => !valid_utf8(blob1.content@) || !valid_utf8(blob2.content@),
        },
{
    if blob1.is_text() && blob2.is_text() {
        Some(diff_blobs(blob1, blob2))
    } else {
        None
    }
}

} // verus!
