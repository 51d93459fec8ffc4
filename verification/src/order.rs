//! Ordering by name: byte-wise comparison of texts and a stable sort.

use vstd::prelude::*;

verus! {

/// Whether `a` comes before `b`, or equals it, in the order of `String`:
/// byte by byte, a prefix before what it is a prefix of.
pub open spec fn lex_le(a: Seq<u8>, b: Seq<u8>) -> bool
    decreases a.len(),
{
    if a.len() == 0 {
        true
    } else if b.len() == 0 {
        false
    } else if a[0] != b[0] {
        a[0] < b[0]
    } else {
        lex_le(a.skip(1), b.skip(1))
    }
}

/// Of two texts one comes before the other, or they are equal.
pub proof fn lemma_lex_total(a: Seq<u8>, b: Seq<u8>)
    ensures
        lex_le(a, b) || lex_le(b, a),
    decreases a.len(),
{
    if a.len() > 0 && b.len() > 0 && a[0] == b[0] {
        lemma_lex_total(a.skip(1), b.skip(1));
    }
}

/// The order is transitive.
pub proof fn lemma_lex_transitive(a: Seq<u8>, b: Seq<u8>, c: Seq<u8>)
    requires
        lex_le(a, b),
        lex_le(b, c),
    ensures
        lex_le(a, c),
    decreases a.len(),
{
    if a.len() > 0 && b.len() > 0 && c.len() > 0 && a[0] == b[0] && b[0] == c[0] {
        lemma_lex_transitive(a.skip(1), b.skip(1), c.skip(1));
    }
}

/// Texts that come before each other are equal.
pub proof fn lemma_lex_antisymmetric(a: Seq<u8>, b: Seq<u8>)
    requires
        lex_le(a, b),
        lex_le(b, a),
    ensures
        a == b,
    decreases a.len(),
{
    if a.len() > 0 && b.len() > 0 {
        lemma_lex_antisymmetric(a.skip(1), b.skip(1));
        assert(a =~= seq![a[0]] + a.skip(1));
        assert(b =~= seq![b[0]] + b.skip(1));
    } else {
        assert(a =~= b);
    }
}

/// Whether `a` comes before `b`, or equals it, byte by byte.
pub fn bytes_le(a: &[u8], b: &[u8]) -> (r: bool)
    ensures
        r == lex_le(a@, b@),
{
    let mut i: usize = 0;
    assert(a@.skip(0) =~= a@);
    assert(b@.skip(0) =~= b@);
    loop
        invariant
            i <= a@.len(),
            i <= b@.len(),
            lex_le(a@, b@) == lex_le(a@.skip(i as int), b@.skip(i as int)),
        decreases a@.len() - i,
    {
        if i >= a.len() {
            return true;
        }
        if i >= b.len() {
            return false;
        }
        if a[i] != b[i] {
            return a[i] < b[i];
        }
        proof {
            assert(a@.skip(i as int).skip(1) =~= a@.skip(i + 1));
            assert(b@.skip(i as int).skip(1) =~= b@.skip(i + 1));
        }
        i += 1;
    }
}

/// Something that is ordered by a name.
pub trait Named {
    /// The bytes of the name.
    spec fn name_bytes(&self) -> Seq<u8>;
}

/// Something that can hand out the name it is ordered by.
pub trait NameBytes: Named {
    /// The bytes of the name.
    fn name_as_bytes(&self) -> (bytes: &[u8])
        ensures
            bytes@ == self.name_bytes(),
    ;
}

/// Whether the items stand in the order of their names.
pub open spec fn is_sorted<T: Named>(items: Seq<T>) -> bool {
    forall|i: int, j: int|
        0 <= i < j < items.len() ==> lex_le(
            (#[trigger] items[i]).name_bytes(),
            (#[trigger] items[j]).name_bytes(),
        )
}

/// Where `item` goes into the sorted `items`: behind the last item whose
/// name does not come after its own.
pub open spec fn insert_point<T: Named>(items: Seq<T>, item: T) -> int
    decreases items.len(),
{
    if items.len() == 0 {
        0
    } else if lex_le(items.last().name_bytes(), item.name_bytes()) {
        items.len() as int
    } else {
        insert_point(items.drop_last(), item)
    }
}

/// The items in the order of their names; items of one name keep the order
/// they came in.
pub open spec fn sorted_by_name<T: Named>(items: Seq<T>) -> Seq<T>
    decreases items.len(),
{
    if items.len() == 0 {
        Seq::empty()
    } else {
        let front = sorted_by_name(items.drop_last());
        front.insert(insert_point(front, items.last()), items.last())
    }
}

/// The insert point lies inside the items, behind an item that does not
/// come after `item` and before only items that do.
pub proof fn lemma_insert_point<T: Named>(items: Seq<T>, item: T)
    ensures
        0 <= insert_point(items, item) <= items.len(),
        insert_point(items, item) > 0 ==> lex_le(
            items[insert_point(items, item) - 1].name_bytes(),
            item.name_bytes(),
        ),
        forall|j: int|
            insert_point(items, item) <= j < items.len() ==> !lex_le(
                (#[trigger] items[j]).name_bytes(),
                item.name_bytes(),
            ),
    decreases items.len(),
{
    if items.len() == 0 {
    } else if lex_le(items.last().name_bytes(), item.name_bytes()) {
    } else {
        lemma_insert_point(items.drop_last(), item);
        assert forall|j: int| insert_point(items, item) <= j < items.len() implies !lex_le(
            (#[trigger] items[j]).name_bytes(),
            item.name_bytes(),
        ) by {
            if j < items.len() - 1 {
                assert(items.drop_last()[j] == items[j]);
            }
        }
    }
}

/// Sorting gives the same items, each as often as before, in the order of
/// their names.
pub proof fn lemma_sorted_by_name<T: Named>(items: Seq<T>)
    ensures
        is_sorted(sorted_by_name(items)),
        sorted_by_name(items).to_multiset() == items.to_multiset(),
        sorted_by_name(items).len() == items.len(),
    decreases items.len(),
{
    broadcast use vstd::seq_lib::group_to_multiset_ensures;

    if items.len() == 0 {
        assert(sorted_by_name(items).to_multiset() =~= items.to_multiset());
    } else {
        let front = sorted_by_name(items.drop_last());
        let item = items.last();
        let at = insert_point(front, item);
        let out = front.insert(at, item);
        lemma_sorted_by_name(items.drop_last());
        lemma_insert_point(front, item);
        assert forall|i: int, j: int| 0 <= i < j < out.len() implies lex_le(
            (#[trigger] out[i]).name_bytes(),
            (#[trigger] out[j]).name_bytes(),
        ) by {
            if j == at {
                assert(out[i] == front[i]);
                if i < at - 1 {
                    lemma_lex_transitive(
                        front[i].name_bytes(),
                        front[at - 1].name_bytes(),
                        item.name_bytes(),
                    );
                }
            } else if i == at {
                assert(out[j] == front[j - 1]);
                lemma_lex_total(front[j - 1].name_bytes(), item.name_bytes());
            } else {
                let fi = if i < at {
                    i
                } else {
                    i - 1
                };
                let fj = if j < at {
                    j
                } else {
                    j - 1
                };
                assert(out[i] == front[fi]);
                assert(out[j] == front[fj]);
            }
        }
        assert(items =~= items.drop_last().push(item));
        vstd::seq_lib::to_multiset_insert(front, at, item);
        vstd::seq_lib::to_multiset_build(items.drop_last(), item);
    }
}

/// Sorting goes by the names alone: where `view` keeps each item's name,
/// the views of the sorted items are the sorted views.
pub proof fn lemma_sorted_views<T: Named, V: Named>(items: Seq<T>, view: spec_fn(T) -> V)
    requires
        forall|item: T| (#[trigger] view(item)).name_bytes() == item.name_bytes(),
    ensures
        sorted_by_name(items).map_values(view) == sorted_by_name(items.map_values(view)),
    decreases items.len(),
{
    if items.len() == 0 {
        assert(sorted_by_name(items).map_values(view) =~= sorted_by_name(items.map_values(view)));
    } else {
        let front = sorted_by_name(items.drop_last());
        let item = items.last();
        lemma_sorted_views(items.drop_last(), view);
        lemma_insert_point_views(front, item, view);
        lemma_insert_point(front, item);
        assert(items.map_values(view).drop_last() =~= items.drop_last().map_values(view));
        assert(front.insert(insert_point(front, item), item).map_values(view)
            =~= front.map_values(view).insert(insert_point(front, item), view(item)));
    }
}

proof fn lemma_insert_point_views<T: Named, V: Named>(items: Seq<T>, item: T, view: spec_fn(T) -> V)
    requires
        forall|item: T| (#[trigger] view(item)).name_bytes() == item.name_bytes(),
    ensures
        insert_point(items.map_values(view), view(item)) == insert_point(items, item),
    decreases items.len(),
{
    if items.len() > 0 {
        assert(items.map_values(view).drop_last() =~= items.drop_last().map_values(view));
        lemma_insert_point_views(items.drop_last(), item, view);
    }
}

/// Sorts the items by name, keeping the order of items of one name.
pub fn sort_by_name<T: NameBytes>(items: Vec<T>) -> (sorted: Vec<T>)
    ensures
        sorted@ == sorted_by_name(items@),
        is_sorted(sorted@),
        sorted@.to_multiset() == items@.to_multiset(),
{
    let ghost all = items@;
    let total = items.len();
    let mut rest = items;
    let mut sorted: Vec<T> = Vec::new();
    let mut taken: usize = 0;
    assert(all.take(0) =~= Seq::empty());
    while rest.len() > 0
        invariant
            taken <= all.len(),
            all.len() == total,
            rest@ == all.skip(taken as int),
            sorted@ == sorted_by_name(all.take(taken as int)),
        decreases rest.len(),
    {
        let item = rest.remove(0);
        let mut at: usize = sorted.len();
        proof {
            lemma_sorted_by_name(all.take(taken as int));
            assert(sorted@.take(sorted@.len() as int) =~= sorted@);
        }
        while at > 0 && !bytes_le(sorted[at - 1].name_as_bytes(), item.name_as_bytes())
            invariant
                at <= sorted.len(),
                insert_point(sorted@, item) == insert_point(sorted@.take(at as int), item),
            decreases at,
        {
            proof {
                assert(sorted@.take(at as int).drop_last() =~= sorted@.take(at - 1));
            }
            at -= 1;
        }
        proof {
            assert(sorted@.take(sorted@.len() as int) =~= sorted@);
            if at > 0 {
                assert(sorted@.take(at as int).last() == sorted@[at - 1]);
            }
            assert(all.take(taken + 1).drop_last() =~= all.take(taken as int));
            assert(all.take(taken + 1).last() == item);
            assert(rest@ =~= all.skip(taken + 1));
        }
        sorted.insert(at, item);
        taken += 1;
    }
    proof {
        assert(all.take(all.len() as int) =~= all);
        lemma_sorted_by_name(all);
    }
    sorted
}

} // verus!
