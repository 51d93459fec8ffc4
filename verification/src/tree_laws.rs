//! What holds of trees that are written and read again.

use vstd::prelude::*;
use vstd::utf8::{decode_utf8, encode_scalar, encode_utf8, valid_utf8};
use crate::error::GitError;
use crate::objectid::{
    decimal, hex_decode, hex_encode, is_object_id, lemma_hex_round_trip, object_bytes,
};
use crate::objectreader::{kind_word, payload_start, sniffed_kind, ObjectKind};
use crate::order::{is_sorted, insert_point, lemma_sorted_by_name, sorted_by_name, Named};
use crate::text::{first_index, lemma_first_index_unique, occurs_at, text_of};
use crate::tree::{
    entries_in, entry_bytes, entry_from, ids_well_formed, parse_tree, payload_of, tree_id,
    tree_payload, TreeEntryView,
};

verus! {

/// Whether an entry can be written and read again: no space in the mode, no
/// NUL in the name, and an id in lower-case digits.
pub open spec fn entry_well_formed(entry: TreeEntryView) -> bool {
    &&& !entry.mode.contains(' ')
    &&& !entry.name.contains('\0')
    &&& is_object_id(entry.hash)
    &&& hex_encode(hex_decode(entry.hash)->0) == entry.hash
}

/// Whether all entries can be written and read again.
pub open spec fn entries_well_formed(entries: Seq<TreeEntryView>) -> bool {
    forall|i: int| 0 <= i < entries.len() ==> entry_well_formed(#[trigger] entries[i])
}

/// A byte below 128 in the encoding of a character is that character.
proof fn lemma_ascii_byte_of_scalar(c: char, i: int)
    requires
        0 <= i < encode_scalar(c as u32).len(),
        encode_scalar(c as u32)[i] < 0x80,
    ensures
        c as u32 == encode_scalar(c as u32)[i] as u32,
{
    let v = c as u32;
    let b1: u8 = ((v >> 6) & 0x1F) as u8;
    let b2: u8 = ((v >> 12) & 0x0F) as u8;
    let b3: u8 = ((v >> 18) & 0x7) as u8;
    let c1: u8 = (v & 0x3F) as u8;
    let c2: u8 = ((v >> 6) & 0x3F) as u8;
    let c3: u8 = ((v >> 12) & 0x3F) as u8;
    assert(0xC0u8 | b1 >= 0x80u8) by (bit_vector);
    assert(0xE0u8 | b2 >= 0x80u8) by (bit_vector);
    assert(0xF0u8 | b3 >= 0x80u8) by (bit_vector);
    assert(0x80u8 | c1 >= 0x80u8) by (bit_vector);
    assert(0x80u8 | c2 >= 0x80u8) by (bit_vector);
    assert(0x80u8 | c3 >= 0x80u8) by (bit_vector);
    assert(v <= 0x7F ==> (v & 0x7F) == v) by (bit_vector);
}

/// A byte below 128 stands in the encoding of a text only where the text
/// holds it as a character.
pub proof fn lemma_ascii_byte_of_text(text: Seq<char>, b: u8)
    requires
        b < 0x80,
        encode_utf8(text).contains(b),
    ensures
        text.contains(b as char),
    decreases text.len(),
{
    let bytes = encode_utf8(text);
    let i = choose|i: int| 0 <= i < bytes.len() && bytes[i] == b;
    if text.len() > 0 {
        let head = encode_scalar(text[0] as u32);
        if i < head.len() {
            assert(bytes[i] == head[i]);
            lemma_ascii_byte_of_scalar(text[0], i);
            vstd::utf8::char_u32_cast(text[0], b as u32);
            assert(text[0] == (b as u32) as char);
            assert(text[0] == b as char);
        } else {
            let tail = encode_utf8(text.drop_first());
            assert(tail[i - head.len()] == b);
            lemma_ascii_byte_of_text(text.drop_first(), b);
            let at = choose|at: int|
                0 <= at < text.drop_first().len() && text.drop_first()[at] == b as char;
            assert(text[at + 1] == b as char);
        }
    }
}

/// The text that was encoded is the text that is read.
pub proof fn lemma_text_of_encoded(text: Seq<char>)
    ensures
        text_of(encode_utf8(text)) == text,
{
    vstd::utf8::encode_utf8_valid_utf8(text);
    vstd::utf8::encode_utf8_decode_utf8(text);
}

/// An entry that is written is read as it was, whatever stands before and
/// behind it.
pub proof fn lemma_entry_round_trip(before: Seq<u8>, entry: TreeEntryView, behind: Seq<u8>)
    requires
        entry_well_formed(entry),
    ensures
        entry_from(before + entry_bytes(entry) + behind, before.len() as int) == Some(
            (entry, (before.len() + entry_bytes(entry).len()) as int),
        ),
{
    let mode = encode_utf8(entry.mode);
    let name = encode_utf8(entry.name);
    let id = hex_decode(entry.hash)->0;
    let bytes = before + entry_bytes(entry) + behind;
    let at = before.len() as int;
    let space = at + mode.len();
    let nul = space + 1 + name.len();
    assert(id.len() == 20);
    let from_mode = bytes.skip(at);
    let from_name = bytes.skip(space + 1);
    assert forall|j: int| 0 <= j < mode.len() implies #[trigger] from_mode[j] != 32u8 by {
        assert(from_mode[j] == mode[j]);
        if mode[j] == 32u8 {
            assert(mode.contains(32u8));
            lemma_ascii_byte_of_text(entry.mode, 32u8);
        }
    }
    assert(from_mode[mode.len() as int] == 32u8);
    lemma_first_index_unique(from_mode, 32u8, mode.len() as int);
    assert forall|j: int| 0 <= j < name.len() implies #[trigger] from_name[j] != 0u8 by {
        assert(from_name[j] == name[j]);
        if name[j] == 0u8 {
            assert(name.contains(0u8));
            lemma_ascii_byte_of_text(entry.name, 0u8);
        }
    }
    assert(from_name[name.len() as int] == 0u8);
    lemma_first_index_unique(from_name, 0u8, name.len() as int);
    assert(bytes.subrange(at, space) =~= mode);
    assert(bytes.subrange(space + 1, nul) =~= name);
    assert(bytes.subrange(nul + 1, nul + 21) =~= id);
    lemma_text_of_encoded(entry.mode);
    lemma_text_of_encoded(entry.name);
}

/// The bytes of some entries start with the bytes of the first.
pub proof fn lemma_payload_front(entries: Seq<TreeEntryView>)
    requires
        entries.len() > 0,
    ensures
        payload_of(entries) == entry_bytes(entries[0]) + payload_of(entries.skip(1)),
    decreases entries.len(),
{
    if entries.len() == 1 {
        assert(entries.drop_last() =~= Seq::empty());
        assert(entries.skip(1) =~= Seq::empty());
        assert(payload_of(entries) =~= entry_bytes(entries[0]) + payload_of(entries.skip(1)));
    } else {
        lemma_payload_front(entries.drop_last());
        assert(entries.drop_last().skip(1) =~= entries.skip(1).drop_last());
        assert(payload_of(entries) =~= entry_bytes(entries[0]) + payload_of(entries.skip(1)));
    }
}

/// Entries that are written are read as they were, whatever stands before
/// them.
pub proof fn lemma_entries_round_trip(before: Seq<u8>, entries: Seq<TreeEntryView>)
    requires
        entries_well_formed(entries),
    ensures
        entries_in(before + payload_of(entries), before.len() as int) == Some(entries),
    decreases entries.len(),
{
    let bytes = before + payload_of(entries);
    if entries.len() == 0 {
        assert(entries =~= Seq::empty());
    } else {
        let first = entries[0];
        let rest = entries.skip(1);
        lemma_payload_front(entries);
        assert(bytes =~= before + entry_bytes(first) + payload_of(rest));
        lemma_entry_round_trip(before, first, payload_of(rest));
        assert forall|i: int| 0 <= i < rest.len() implies entry_well_formed(
            #[trigger] rest[i],
        ) by {
            assert(rest[i] == entries[i + 1]);
        }
        lemma_entries_round_trip(before + entry_bytes(first), rest);
        assert(seq![first] + rest =~= entries);
    }
}

/// The digits of a number hold no NUL.
pub proof fn lemma_decimal_digits(n: nat)
    ensures
        decimal(n).len() > 0,
        forall|i: int| 0 <= i < decimal(n).len() ==> 48 <= #[trigger] decimal(n)[i] <= 57,
    decreases n,
{
    if n >= 10 {
        lemma_decimal_digits(n / 10);
    }
}

/// The payload of a tree object that was made of a payload starts behind
/// the header.
pub proof fn lemma_tree_object_header(payload: Seq<u8>)
    ensures
        sniffed_kind(object_bytes(kind_word(ObjectKind::Tree), payload)) == Some(ObjectKind::Tree),
        payload_start(object_bytes(kind_word(ObjectKind::Tree), payload)) == Some(
            (object_bytes(kind_word(ObjectKind::Tree), payload).len() - payload.len()) as int,
        ),
{
    let word = kind_word(ObjectKind::Tree);
    let raw = object_bytes(word, payload);
    let digits = decimal(payload.len());
    let nul = word.len() + 1 + digits.len();
    lemma_decimal_digits(payload.len());
    assert(raw.subrange(0, 5) =~= word + seq![32u8]);
    assert(raw.subrange(0, 5) != kind_word(ObjectKind::Blob) + seq![32u8]) by {
        assert(raw.subrange(0, 5)[0] == 116u8);
        assert((kind_word(ObjectKind::Blob) + seq![32u8])[0] == 98u8);
    }
    assert forall|j: int| 0 <= j < nul implies raw[j] != 0u8 by {
        if j >= 5 {
            assert(raw[j] == digits[j - 5]);
        }
    }
    assert(raw[nul as int] == 0u8);
    lemma_first_index_unique(raw, 0u8, nul as int);
    assert(raw.take(nul as int) =~= word + seq![32u8] + digits);
    assert(raw.len() - nul - 1 == payload.len());
}

/// Sorting what is sorted changes nothing.
pub proof fn lemma_sorted_stays<T: Named>(items: Seq<T>)
    requires
        is_sorted(items),
    ensures
        sorted_by_name(items) == items,
    decreases items.len(),
{
    if items.len() == 0 {
        assert(sorted_by_name(items) =~= items);
    } else {
        let front = items.drop_last();
        assert forall|i: int, j: int| 0 <= i < j < front.len() implies crate::order::lex_le(
            (#[trigger] front[i]).name_bytes(),
            (#[trigger] front[j]).name_bytes(),
        ) by {
            assert(front[i] == items[i] && front[j] == items[j]);
        }
        lemma_sorted_stays(front);
        if front.len() > 0 {
            assert(front.last() == items[items.len() - 2]);
            assert(items.last() == items[items.len() - 1]);
        }
        assert(insert_point(front, items.last()) == front.len());
        assert(front.insert(front.len() as int, items.last()) =~= items);
    }
}

/// A tree that is written and read again has the same entries, in the
/// order of their names, and the same id. So a directory, the tree it is
/// stored as, and the directory that the tree is checked out to all have
/// one id.
pub proof fn lemma_tree_round_trip(entries: Seq<TreeEntryView>)
    requires
        entries_well_formed(entries),
    ensures
        parse_tree(object_bytes(kind_word(ObjectKind::Tree), tree_payload(entries))) == Ok::<
            Seq<TreeEntryView>,
            GitError,
        >(sorted_by_name(entries)),
        tree_id(sorted_by_name(entries)) == tree_id(entries),
        ids_well_formed(sorted_by_name(entries)),
{
    broadcast use vstd::seq_lib::group_to_multiset_ensures;

    let sorted = sorted_by_name(entries);
    let payload = tree_payload(entries);
    let raw = object_bytes(kind_word(ObjectKind::Tree), payload);
    let header = raw.subrange(0, raw.len() - payload.len());
    lemma_sorted_by_name(entries);
    assert forall|i: int| 0 <= i < sorted.len() implies entry_well_formed(#[trigger] sorted[i]) by {
        vstd::seq_lib::to_multiset_contains(sorted, sorted[i]);
        vstd::seq_lib::to_multiset_contains(entries, sorted[i]);
        assert(sorted.contains(sorted[i]));
        let at = choose|at: int| 0 <= at < entries.len() && entries[at] == sorted[i];
        assert(entry_well_formed(entries[at]));
    }
    lemma_tree_object_header(payload);
    assert(raw =~= header + payload_of(sorted));
    lemma_entries_round_trip(header, sorted);
    lemma_sorted_stays(sorted);
}


/// Whether no two of the entries have one name.
pub open spec fn names_distinct(entries: Seq<TreeEntryView>) -> bool {
    forall|i: int, j: int|
        0 <= i < entries.len() && 0 <= j < entries.len() && (#[trigger] entries[i]).name == (
        #[trigger] entries[j]).name ==> i == j
}

/// Two sorted sequences of the same entries, no two of them of one name,
/// are one sequence.
proof fn lemma_sorted_is_unique(a: Seq<TreeEntryView>, b: Seq<TreeEntryView>)
    requires
        is_sorted(a),
        is_sorted(b),
        a.to_multiset() == b.to_multiset(),
        names_distinct(a),
    ensures
        a == b,
    decreases a.len(),
{
    broadcast use vstd::seq_lib::group_to_multiset_ensures;

    assert(a.len() == b.len()) by {
        vstd::seq_lib::to_multiset_len(a);
        vstd::seq_lib::to_multiset_len(b);
    }
    if a.len() == 0 {
        assert(a =~= b);
    } else {
        let x = a[0];
        let y = b[0];
        vstd::seq_lib::to_multiset_contains(a, y);
        vstd::seq_lib::to_multiset_contains(b, y);
        vstd::seq_lib::to_multiset_contains(a, x);
        vstd::seq_lib::to_multiset_contains(b, x);
        assert(b.contains(y));
        assert(a.contains(x));
        let j = choose|j: int| 0 <= j < a.len() && a[j] == y;
        let k = choose|k: int| 0 <= k < b.len() && b[k] == x;
        crate::order::lemma_lex_total(x.name_bytes(), x.name_bytes());
        crate::order::lemma_lex_total(y.name_bytes(), y.name_bytes());
        if j > 0 {
            assert(crate::order::lex_le(a[0].name_bytes(), a[j].name_bytes()));
        }
        if k > 0 {
            assert(crate::order::lex_le(b[0].name_bytes(), b[k].name_bytes()));
        }
        crate::order::lemma_lex_antisymmetric(x.name_bytes(), y.name_bytes());
        vstd::utf8::encode_utf8_decode_utf8(x.name);
        vstd::utf8::encode_utf8_decode_utf8(y.name);
        assert(x.name == y.name);
        assert(a[0].name == a[j].name);
        assert(x == y);
        vstd::seq_lib::to_multiset_remove(a, 0);
        vstd::seq_lib::to_multiset_remove(b, 0);
        assert(a.remove(0) =~= a.skip(1));
        assert(b.remove(0) =~= b.skip(1));
        assert forall|i: int, j: int| 0 <= i < j < a.skip(1).len() implies crate::order::lex_le(
            (#[trigger] a.skip(1)[i]).name_bytes(),
            (#[trigger] a.skip(1)[j]).name_bytes(),
        ) by {
            assert(a.skip(1)[i] == a[i + 1] && a.skip(1)[j] == a[j + 1]);
        }
        assert forall|i: int, j: int| 0 <= i < j < b.skip(1).len() implies crate::order::lex_le(
            (#[trigger] b.skip(1)[i]).name_bytes(),
            (#[trigger] b.skip(1)[j]).name_bytes(),
        ) by {
            assert(b.skip(1)[i] == b[i + 1] && b.skip(1)[j] == b[j + 1]);
        }
        assert forall|i: int, j: int|
            0 <= i < a.skip(1).len() && 0 <= j < a.skip(1).len() && (#[trigger] a.skip(1)[i]).name
                == (#[trigger] a.skip(1)[j]).name implies i == j by {
            assert(a.skip(1)[i] == a[i + 1] && a.skip(1)[j] == a[j + 1]);
        }
        lemma_sorted_is_unique(a.skip(1), b.skip(1));
        assert(a =~= seq![x] + a.skip(1));
        assert(b =~= seq![y] + b.skip(1));
    }
}

/// The bytes and the id of a tree depend on its entries alone, not on the
/// order they are given in: the same entries, no two of them of one name,
/// give the same payload and the same id.
pub proof fn lemma_payload_ignores_order(a: Seq<TreeEntryView>, b: Seq<TreeEntryView>)
    requires
        a.to_multiset() == b.to_multiset(),
        names_distinct(a),
    ensures
        tree_payload(a) == tree_payload(b),
        tree_id(a) == tree_id(b),
{
    broadcast use vstd::seq_lib::group_to_multiset_ensures;

    let sa = sorted_by_name(a);
    let sb = sorted_by_name(b);
    lemma_sorted_by_name(a);
    lemma_sorted_by_name(b);
    assert forall|i: int, j: int|
        0 <= i < sa.len() && 0 <= j < sa.len() && (#[trigger] sa[i]).name == (#[trigger] sa[j]).name
        implies i == j by {
        lemma_distinct_in_permutation(a, sa, i, j);
    }
    lemma_sorted_is_unique(sa, sb);
}

/// In a rearrangement of entries with distinct names, two places that
/// hold one name are one place.
proof fn lemma_distinct_in_permutation(
    a: Seq<TreeEntryView>,
    b: Seq<TreeEntryView>,
    i: int,
    j: int,
)
    requires
        a.to_multiset() == b.to_multiset(),
        names_distinct(a),
        0 <= i < b.len(),
        0 <= j < b.len(),
        b[i].name == b[j].name,
    ensures
        i == j,
{
    broadcast use vstd::seq_lib::group_to_multiset_ensures;

    vstd::seq_lib::to_multiset_contains(a, b[i]);
    vstd::seq_lib::to_multiset_contains(b, b[i]);
    vstd::seq_lib::to_multiset_contains(a, b[j]);
    vstd::seq_lib::to_multiset_contains(b, b[j]);
    assert(b.contains(b[i]));
    assert(b.contains(b[j]));
    let p = choose|p: int| 0 <= p < a.len() && a[p] == b[i];
    let q = choose|q: int| 0 <= q < a.len() && a[q] == b[j];
    assert(a[p].name == a[q].name);
    assert(p == q);
    assert(b[i] == b[j]);
    if i != j {
        // One entry at two places of `b` counts twice there, but only once
        // in `a`.
        lemma_count_once(a, p);
        lemma_count_twice(b, i, j);
    }
}

/// An entry of a sequence with distinct names counts once in it.
proof fn lemma_count_once(a: Seq<TreeEntryView>, p: int)
    requires
        names_distinct(a),
        0 <= p < a.len(),
    ensures
        a.to_multiset().count(a[p]) == 1,
    decreases a.len(),
{
    broadcast use vstd::seq_lib::group_to_multiset_ensures;

    let x = a[p];
    vstd::seq_lib::to_multiset_remove(a, p);
    let rest = a.remove(p);
    assert(a.to_multiset() =~= rest.to_multiset().insert(x));
    if rest.contains(x) {
        let r = choose|r: int| 0 <= r < rest.len() && rest[r] == x;
        let back = if r < p {
            r
        } else {
            r + 1
        };
        assert(a[back] == x);
        assert(a[back].name == a[p].name);
    }
    vstd::seq_lib::to_multiset_contains(rest, x);
}

/// An entry that stands at two places of a sequence counts at least twice
/// in it.
proof fn lemma_count_twice(b: Seq<TreeEntryView>, i: int, j: int)
    requires
        0 <= i < b.len(),
        0 <= j < b.len(),
        i != j,
        b[i] == b[j],
    ensures
        b.to_multiset().count(b[i]) >= 2,
{
    broadcast use vstd::seq_lib::group_to_multiset_ensures;

    let x = b[i];
    vstd::seq_lib::to_multiset_remove(b, i);
    let rest = b.remove(i);
    assert(b.to_multiset() =~= rest.to_multiset().insert(x));
    let back = if j < i {
        j
    } else {
        j - 1
    };
    assert(rest[back] == x);
    assert(rest.contains(x));
    vstd::seq_lib::to_multiset_contains(rest, x);
}

} // verus!
