//! What holds of the table as a set, whatever the identity and the number of
//! buckets. Each statement is over the model that the contracts of
//! [`crate::customhashset::CustomHashSet`] speak of.

use crate::identity::Identity;
use crate::layout::lemma_flatten_empty;
use crate::model::{fresh_buckets, lemma_among_permutation, lemma_filter_source, TableModel};
use vstd::prelude::*;
use vstd::seq_lib::to_multiset_contains;

verus! {

/// An empty table is well-formed and holds nothing.
pub proof fn lemma_empty<T>(id: Identity<T>, count: nat)
    requires
        count >= 1,
        id.valid(),
    ensures
        TableModel::empty(id, count).wf(),
        TableModel::empty(id, count).len() == 0,
        forall|v: T| !TableModel::empty(id, count).contains(v),
{
    lemma_flatten_empty(fresh_buckets::<T>(count));
}

/// Values no two of which count as the same, inserted one after another into
/// an empty table of any number of buckets, are all kept: the table has as
/// many elements as were inserted, and exactly those. Where every value
/// counts as the same as itself, the table contains each of them.
pub proof fn lemma_insert_distinct<T>(id: Identity<T>, count: nat, items: Seq<T>)
    requires
        count >= 1,
        id.valid(),
        id.pairwise_distinct(items),
    ensures
        TableModel::empty(id, count).insert_all(items).wf(),
        TableModel::empty(id, count).insert_all(items).len() == items.len(),
        TableModel::empty(id, count).insert_all(items).elements().to_multiset()
            == items.to_multiset(),
        id.reflexive() ==> forall|i: int|
            0 <= i < items.len() ==> TableModel::empty(id, count).insert_all(items).contains(
                #[trigger] items[i],
            ),
{
    let start = TableModel::empty(id, count);
    lemma_empty(id, count);
    assert(start.elements() =~= Seq::<T>::empty());
    start.lemma_insert_all_new(items);
    let filled = start.insert_all(items);
    assert(filled.elements().to_multiset() =~= items.to_multiset()) by {
        assert(start.elements().to_multiset() =~= vstd::multiset::Multiset::<T>::empty()) by {
            broadcast use vstd::seq_lib::group_to_multiset_ensures;

        }
    }
    if id.reflexive() {
        assert forall|i: int| 0 <= i < items.len() implies filled.contains(#[trigger] items[i]) by {
            filled.lemma_contains_among(items[i]);
            lemma_among_permutation(id, items, filled.elements(), items[i]);
            assert((id.same)(items[i], items[i]));
        }
    }
}

/// After `a` has been inserted, an insertion of a value `b` that counts as
/// the same as `a` is refused and changes nothing, so the length stays. This
/// rests on sameness being transitive: the element that stands for `a` may be
/// an earlier one that `a` itself was refused for.
pub proof fn lemma_insert_same_again<T>(table: TableModel<T>, a: T, b: T)
    requires
        table.wf(),
        table.id.transitive(),
        (table.id.same)(a, b),
    ensures
        table.insert(a).contains(b),
        table.insert(a).insert(b) == table.insert(a),
        table.insert(a).insert(b).len() == table.insert(a).len(),
{
    let after = table.insert(a);
    let i = table.slot(a);
    assert(table.slot(b) == i);
    if table.contains(a) {
        let j = choose|j: int|
            0 <= j < table.buckets[i].len() && (table.id.same)(#[trigger] table.buckets[i][j], a);
        assert((table.id.same)(table.buckets[i][j], b));
    } else {
        let last = table.buckets[i].len() as int;
        assert(after.buckets[i][last] == a);
    }
}

/// What a table contains after insertions depends only on what it contained
/// and on which values were inserted: not on their order, nor on the number
/// of buckets. A value has a match afterwards exactly if it had one before or
/// one of the inserted values counts as the same. This rests on sameness
/// being transitive.
pub proof fn lemma_insert_all_contains<T>(table: TableModel<T>, items: Seq<T>, v: T)
    requires
        table.wf(),
        table.id.transitive(),
    ensures
        table.insert_all(items).wf(),
        table.insert_all(items).contains(v) == (table.contains(v) || table.id.among(items, v)),
    decreases items.len(),
{
    let id = table.id;
    if items.len() > 0 {
        let front = items.drop_last();
        let last = items.last();
        let grown = table.insert_all(front);
        let after = grown.insert(last);
        lemma_insert_all_contains(table, front, v);
        table.lemma_insert_all_shape(front);
        grown.lemma_insert_wf(last);
        let i = grown.slot(last);
        assert(id.among(items, v) == (id.among(front, v) || (id.same)(last, v))) by {
            if id.among(front, v) {
                let p = choose|p: int| 0 <= p < front.len() && (id.same)(#[trigger] front[p], v);
                assert((id.same)(items[p], v));
            }
            if (id.same)(last, v) {
                assert((id.same)(items[items.len() - 1], v));
            }
            if id.among(items, v) {
                let p = choose|p: int| 0 <= p < items.len() && (id.same)(#[trigger] items[p], v);
                if p < front.len() {
                    assert((id.same)(front[p], v));
                }
            }
        }
        if grown.contains(last) {
            if (id.same)(last, v) {
                let j = choose|j: int|
                    0 <= j < grown.buckets[i].len() && (id.same)(#[trigger] grown.buckets[i][j], last);
                assert((id.same)(grown.buckets[i][j], v));
                assert(grown.slot(v) == i);
            }
        } else {
            let end = grown.buckets[i].len() as int;
            let k = grown.slot(v);
            assert(after.slot(v) == k);
            if after.contains(v) {
                let j = choose|j: int|
                    0 <= j < after.buckets[k].len() && (id.same)(#[trigger] after.buckets[k][j], v);
                if k == i && j == end {
                } else {
                    assert(after.buckets[k][j] == grown.buckets[k][j]);
                }
            }
            if grown.contains(v) {
                let j = choose|j: int|
                    0 <= j < grown.buckets[k].len() && (id.same)(#[trigger] grown.buckets[k][j], v);
                assert(after.buckets[k][j] == grown.buckets[k][j]);
            }
            if (id.same)(last, v) {
                assert(k == i);
                assert(after.buckets[i][end] == last);
            }
        }
    }
}

/// Rebuilding with another number of buckets keeps the table well-formed,
/// keeps its length and its elements, and keeps membership: a value has a
/// match after the rebuild exactly if it had one before.
pub proof fn lemma_rebuild_preserves<T>(table: TableModel<T>, count: nat)
    requires
        table.wf(),
        count >= 1,
    ensures
        table.rebuild(count).wf(),
        table.rebuild(count).buckets.len() == count,
        table.rebuild(count).len() == table.len(),
        table.rebuild(count).elements().to_multiset() == table.elements().to_multiset(),
        forall|v: T| #[trigger] table.rebuild(count).contains(v) == table.contains(v),
{
    let after = table.rebuild(count);
    table.lemma_rebuild_wf(count);
    table.lemma_rebuild_elements(count);
    assert forall|v: T| #[trigger] after.contains(v) == table.contains(v) by {
        table.lemma_contains_among(v);
        after.lemma_contains_among(v);
        lemma_among_permutation(table.id, table.elements(), after.elements(), v);
    }
}

/// A table has no difference from itself, where every value counts as the
/// same as itself.
pub proof fn lemma_difference_self<T>(table: TableModel<T>)
    requires
        table.wf(),
        table.id.reflexive(),
    ensures
        table.difference(table) == Seq::<T>::empty(),
{
    let diff = table.difference(table);
    if diff.len() > 0 {
        let t = lemma_filter_source(table.elements(), table.lacks(), 0);
        let v = table.elements()[t];
        table.lemma_contains_among(v);
        assert((table.id.same)(table.elements()[t], v));
    }
    assert(diff =~= Seq::<T>::empty());
}

/// The difference holds exactly the elements of `a` that `b` has no match
/// for, each once and in the order of `a`.
pub proof fn lemma_difference_members<T>(a: TableModel<T>, b: TableModel<T>)
    ensures
        forall|i: int|
            0 <= i < a.difference(b).len() ==> !b.contains(#[trigger] a.difference(b)[i])
                && a.elements().contains(a.difference(b)[i]),
        forall|i: int|
            0 <= i < a.elements().len() && !b.contains(#[trigger] a.elements()[i])
                ==> a.difference(b).contains(a.elements()[i]),
        a.difference(b).len() <= a.len(),
{
    let diff = a.difference(b);
    assert forall|i: int| 0 <= i < diff.len() implies !b.contains(#[trigger] diff[i])
        && a.elements().contains(diff[i]) by {
        let t = lemma_filter_source(a.elements(), b.lacks(), i);
    }
    assert forall|i: int|
        0 <= i < a.elements().len() && !b.contains(#[trigger] a.elements()[i]) implies diff.contains(
        a.elements()[i],
    ) by {
        a.elements().lemma_filter_contains(b.lacks(), i);
    }
    a.elements().lemma_filter_len(b.lacks());
}

/// The difference of two tables that were filled from two sequences is the
/// difference of the sequences, up to sameness: a value has a match in it
/// exactly if it has one in the first sequence and none in the second. So the
/// outcome does not depend on the order of either sequence, nor on the number
/// of buckets. This rests on sameness being an equivalence.
pub proof fn lemma_difference_of_filled<T>(
    id: Identity<T>,
    first: Seq<T>,
    second: Seq<T>,
    first_count: nat,
    second_count: nat,
    v: T,
)
    requires
        first_count >= 1,
        second_count >= 1,
        id.valid(),
        id.reflexive(),
        id.symmetric(),
        id.transitive(),
    ensures
        id.among(
            TableModel::empty(id, first_count).insert_all(first).difference(
                TableModel::empty(id, second_count).insert_all(second),
            ),
            v,
        ) == (id.among(first, v) && !id.among(second, v)),
{
    let a = TableModel::empty(id, first_count).insert_all(first);
    let b = TableModel::empty(id, second_count).insert_all(second);
    let diff = a.difference(b);
    lemma_empty(id, first_count);
    lemma_empty(id, second_count);
    TableModel::empty(id, first_count).lemma_insert_all_shape(first);
    TableModel::empty(id, second_count).lemma_insert_all_shape(second);
    if id.among(diff, v) {
        let y = choose|y: int| 0 <= y < diff.len() && (id.same)(#[trigger] diff[y], v);
        let t = lemma_filter_source(a.elements(), b.lacks(), y);
        let e = a.elements()[t];
        assert((id.same)(e, e));
        lemma_insert_all_contains(TableModel::empty(id, first_count), first, e);
        lemma_insert_all_contains(TableModel::empty(id, second_count), second, e);
        a.lemma_contains_among(e);
        assert(id.among(first, e));
        let p = choose|p: int| 0 <= p < first.len() && (id.same)(#[trigger] first[p], e);
        assert((id.same)(first[p], v));
        if id.among(second, v) {
            let q = choose|q: int| 0 <= q < second.len() && (id.same)(#[trigger] second[q], v);
            assert((id.same)(v, e));
            assert((id.same)(second[q], e));
        }
    }
    if id.among(first, v) && !id.among(second, v) {
        lemma_insert_all_contains(TableModel::empty(id, first_count), first, v);
        a.lemma_contains_among(v);
        let t = choose|t: int|
            0 <= t < a.elements().len() && (id.same)(#[trigger] a.elements()[t], v);
        let e = a.elements()[t];
        lemma_insert_all_contains(TableModel::empty(id, second_count), second, e);
        if id.among(second, e) {
            let q = choose|q: int| 0 <= q < second.len() && (id.same)(#[trigger] second[q], e);
            assert((id.same)(second[q], v));
        }
        a.elements().lemma_filter_contains(b.lacks(), t);
        let y = choose|y: int| 0 <= y < diff.len() && diff[y] == e;
        assert((id.same)(diff[y], v));
    }
}

/// The difference of `a` from `b`, inserted element by element into an empty
/// table under the identity of `a`, gives a table that holds exactly the
/// difference: nothing is refused as a duplicate and nothing is left out.
pub proof fn lemma_difference_reinsert<T>(a: TableModel<T>, b: TableModel<T>, count: nat)
    requires
        a.wf(),
        count >= 1,
    ensures
        TableModel::empty(a.id, count).insert_all(a.difference(b)).wf(),
        TableModel::empty(a.id, count).insert_all(a.difference(b)).len() == a.difference(b).len(),
        TableModel::empty(a.id, count).insert_all(a.difference(b)).elements().to_multiset()
            == a.difference(b).to_multiset(),
{
    a.lemma_elements_distinct();
    a.id.lemma_filter_distinct(a.elements(), b.lacks());
    lemma_insert_distinct(a.id, count, a.difference(b));
}

} // verus!
