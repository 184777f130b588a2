//! The mathematical model of the bucketed table: a sequence of buckets
//! together with the identity that places and compares the elements.

use crate::identity::Identity;
use crate::layout::{
    lemma_flatten_empty, lemma_flatten_index, lemma_flatten_locate, lemma_flatten_push_into, offset,
};
use vstd::prelude::*;
use vstd::seq_lib::{to_multiset_build, to_multiset_contains};

verus! {

/// A table as a mathematical value.
#[verifier::reject_recursive_types(T)]
pub struct TableModel<T> {
    /// The buckets, in index order; each bucket in insertion order.
    pub buckets: Seq<Seq<T>>,
    /// The identity under which elements are placed and compared.
    pub id: Identity<T>,
}

/// `count` empty buckets.
pub open spec fn fresh_buckets<T>(count: nat) -> Seq<Seq<T>> {
    Seq::new(count, |i: int| Seq::<T>::empty())
}

/// The test that a bucket holds nothing.
pub open spec fn is_vacant<T>() -> spec_fn(Seq<T>) -> bool {
    |b: Seq<T>| b.len() == 0
}

/// `size` is the size of the largest of `buckets`, or 0 where there is none.
pub open spec fn is_largest_size<T>(buckets: Seq<Seq<T>>, size: nat) -> bool {
    &&& forall|i: int| 0 <= i < buckets.len() ==> (#[trigger] buckets[i]).len() <= size
    &&& if buckets.len() == 0 {
        size == 0
    } else {
        exists|i: int| 0 <= i < buckets.len() && (#[trigger] buckets[i]).len() == size
    }
}

/// `size` is the size of the smallest of `buckets`, or 0 where there is none.
pub open spec fn is_smallest_size<T>(buckets: Seq<Seq<T>>, size: nat) -> bool {
    &&& forall|i: int| 0 <= i < buckets.len() ==> (#[trigger] buckets[i]).len() >= size
    &&& if buckets.len() == 0 {
        size == 0
    } else {
        exists|i: int| 0 <= i < buckets.len() && (#[trigger] buckets[i]).len() == size
    }
}

impl<T> Identity<T> {
    /// The index, among `count` buckets, of the bucket that `v` belongs to.
    pub open spec fn slot_of(self, v: T, count: nat) -> int {
        ((self.hash)(v) as int) % (count as int)
    }

    /// The test that a value belongs to bucket `k` of `count`.
    pub open spec fn belongs_to(self, count: nat, k: int) -> spec_fn(T) -> bool {
        |v: T| self.slot_of(v, count) == k
    }

    /// No element of `items` counts as the same as a later one: the test
    /// fails on every pair taken in the order of the sequence.
    pub open spec fn pairwise_distinct(self, items: Seq<T>) -> bool {
        forall|p: int, q: int|
            0 <= p < q < items.len() ==> !(self.same)(#[trigger] items[p], #[trigger] items[q])
    }

    /// Some element of `items` counts as the same as `v`.
    pub open spec fn among(self, items: Seq<T>, v: T) -> bool {
        exists|p: int| 0 <= p < items.len() && (self.same)(#[trigger] items[p], v)
    }

    /// `items` dealt out, in order, to `count` buckets by hash.
    pub open spec fn distribute(self, items: Seq<T>, count: nat) -> Seq<Seq<T>>
        decreases items.len(),
    {
        if items.len() == 0 {
            fresh_buckets(count)
        } else {
            let before = self.distribute(items.drop_last(), count);
            let k = self.slot_of(items.last(), count);
            before.update(k, before[k].push(items.last()))
        }
    }
}

impl<T> TableModel<T> {
    /// The empty table of `count` buckets under `id`.
    pub open spec fn empty(id: Identity<T>, count: nat) -> Self {
        TableModel { buckets: fresh_buckets(count), id }
    }

    /// The index of the bucket that `v` belongs to.
    pub open spec fn slot(self, v: T) -> int {
        self.id.slot_of(v, self.buckets.len())
    }

    /// Some element of `bucket` counts as the same as `v`.
    pub open spec fn bucket_has(self, bucket: Seq<T>, v: T) -> bool {
        exists|j: int| 0 <= j < bucket.len() && (self.id.same)(#[trigger] bucket[j], v)
    }

    /// The table holds an element that counts as the same as `v`.
    pub open spec fn contains(self, v: T) -> bool {
        self.bucket_has(self.buckets[self.slot(v)], v)
    }

    /// The structural invariant: there is at least one bucket, every element
    /// sits in the bucket of its hash, and no bucket holds two elements that
    /// count as the same.
    pub open spec fn wf(self) -> bool {
        &&& self.buckets.len() >= 1
        &&& self.id.valid()
        &&& forall|i: int, j: int|
            0 <= i < self.buckets.len() && 0 <= j < self.buckets[i].len() ==> self.slot(
                #[trigger] self.buckets[i][j],
            ) == i
        &&& forall|i: int, j: int, k: int|
            0 <= i < self.buckets.len() && 0 <= j < k < self.buckets[i].len() ==> !(self.id.same)(
                #[trigger] self.buckets[i][j],
                #[trigger] self.buckets[i][k],
            )
    }

    /// All elements in iteration order: bucket by bucket, each bucket in
    /// insertion order.
    pub open spec fn elements(self) -> Seq<T> {
        self.buckets.flatten()
    }

    /// The number of elements.
    pub open spec fn len(self) -> nat {
        self.elements().len()
    }

    /// The position in `bucket` of the first element that counts as the same
    /// as `v`.
    pub open spec fn first_match(self, bucket: Seq<T>, v: T) -> int {
        choose|j: int|
            0 <= j < bucket.len() && (self.id.same)(#[trigger] bucket[j], v) && forall|k: int|
                0 <= k < j ==> !(self.id.same)(#[trigger] bucket[k], v)
    }

    /// The table after a removal of `v`: unchanged where no element counts as
    /// the same, else without the first such element of its bucket.
    pub open spec fn remove(self, v: T) -> Self {
        if self.contains(v) {
            let i = self.slot(v);
            let j = self.first_match(self.buckets[i], v);
            TableModel { buckets: self.buckets.update(i, self.buckets[i].remove(j)), id: self.id }
        } else {
            self
        }
    }

    /// The table after inserting `items` one after another.
    pub open spec fn insert_all(self, items: Seq<T>) -> Self
        decreases items.len(),
    {
        if items.len() == 0 {
            self
        } else {
            self.insert_all(items.drop_last()).insert(items.last())
        }
    }

    /// The test that the table holds no element that counts as the same as
    /// a value.
    pub open spec fn lacks(self) -> spec_fn(T) -> bool {
        |v: T| !self.contains(v)
    }

    /// The elements of this table that `other` does not contain, in this
    /// table's iteration order.
    pub open spec fn difference(self, other: Self) -> Seq<T> {
        self.elements().filter(other.lacks())
    }

    /// The table rebuilt with `count` buckets: bucket `k` holds, in iteration
    /// order, the elements whose hash selects it.
    pub open spec fn rebuild(self, count: nat) -> Self {
        TableModel {
            buckets: Seq::new(
                count,
                |k: int| self.elements().filter(self.id.belongs_to(count, k)),
            ),
            id: self.id,
        }
    }

    /// The table after an insertion of `v`: unchanged where an element that
    /// counts as the same is present, else `v` appended to its bucket.
    pub open spec fn insert(self, v: T) -> Self {
        if self.contains(v) {
            self
        } else {
            let i = self.slot(v);
            TableModel { buckets: self.buckets.update(i, self.buckets[i].push(v)), id: self.id }
        }
    }
}

/// Every element of a filtered sequence is an element of the sequence that
/// passes the test.
pub proof fn lemma_filter_source<T>(items: Seq<T>, pred: spec_fn(T) -> bool, y: int) -> (t: int)
    requires
        0 <= y < items.filter(pred).len(),
    ensures
        0 <= t < items.len(),
        items[t] == items.filter(pred)[y],
        pred(items[t]),
    decreases items.len(),
{
    reveal(Seq::filter);
    if pred(items.last()) && y == items.filter(pred).len() - 1 {
        items.len() - 1
    } else {
        lemma_filter_source(items.drop_last(), pred, y)
    }
}

/// Filtering decides on the first item and goes on with the rest.
pub proof fn lemma_filter_first<T>(items: Seq<T>, pred: spec_fn(T) -> bool)
    requires
        items.len() > 0,
    ensures
        items.filter(pred) == if pred(items[0]) {
            seq![items[0]] + items.skip(1).filter(pred)
        } else {
            items.skip(1).filter(pred)
        },
{
    let head = seq![items[0]];
    assert(items =~= head + items.skip(1));
    Seq::filter_distributes_over_add(head, items.skip(1), pred);
    assert(head.filter(pred) =~= if pred(items[0]) { head } else { Seq::<T>::empty() }) by {
        reveal_with_fuel(Seq::filter, 2);
        assert(head.drop_last() =~= Seq::<T>::empty());
    }
    assert(Seq::<T>::empty() + items.skip(1).filter(pred) =~= items.skip(1).filter(pred));
}

/// Filtering one item more keeps it where it passes the test.
pub proof fn lemma_filter_next<T>(items: Seq<T>, pred: spec_fn(T) -> bool, k: int)
    requires
        0 <= k < items.len(),
    ensures
        items.take(k + 1).filter(pred) == if pred(items[k]) {
            items.take(k).filter(pred).push(items[k])
        } else {
            items.take(k).filter(pred)
        },
{
    reveal(Seq::filter);
    assert(items.take(k + 1).drop_last() =~= items.take(k));
}

/// Sequences with the same elements, in whatever order, hold or lack a match
/// for `v` together.
pub proof fn lemma_among_permutation<T>(id: Identity<T>, a: Seq<T>, b: Seq<T>, v: T)
    requires
        a.to_multiset() == b.to_multiset(),
    ensures
        id.among(a, v) == id.among(b, v),
{
    if id.among(a, v) {
        let p = choose|p: int| 0 <= p < a.len() && (id.same)(#[trigger] a[p], v);
        to_multiset_contains(a, a[p]);
        to_multiset_contains(b, a[p]);
        assert(a.contains(a[p]));
        let q = choose|q: int| 0 <= q < b.len() && b[q] == a[p];
        assert((id.same)(b[q], v));
    }
    if id.among(b, v) {
        let p = choose|p: int| 0 <= p < b.len() && (id.same)(#[trigger] b[p], v);
        to_multiset_contains(b, b[p]);
        to_multiset_contains(a, b[p]);
        assert(b.contains(b[p]));
        let q = choose|q: int| 0 <= q < a.len() && a[q] == b[p];
        assert((id.same)(a[q], v));
    }
}

impl<T> Identity<T> {
    /// What is left of a pairwise distinct sequence after filtering is
    /// pairwise distinct.
    pub proof fn lemma_filter_distinct(self, items: Seq<T>, pred: spec_fn(T) -> bool)
        requires
            self.pairwise_distinct(items),
        ensures
            self.pairwise_distinct(items.filter(pred)),
        decreases items.len(),
    {
        reveal(Seq::filter);
        if items.len() > 0 {
            let front = items.drop_last();
            let kept = front.filter(pred);
            assert(self.pairwise_distinct(front)) by {
                assert forall|p: int, q: int| 0 <= p < q < front.len() implies !(self.same)(
                    #[trigger] front[p],
                    #[trigger] front[q],
                ) by {
                    assert(front[p] == items[p] && front[q] == items[q]);
                }
            }
            self.lemma_filter_distinct(front, pred);
            if pred(items.last()) {
                let all = items.filter(pred);
                assert forall|p: int, q: int| 0 <= p < q < all.len() implies !(self.same)(
                    #[trigger] all[p],
                    #[trigger] all[q],
                ) by {
                    if q < kept.len() {
                        assert(all[p] == kept[p] && all[q] == kept[q]);
                    } else {
                        let t = lemma_filter_source(front, pred, p);
                        assert(all[p] == items[t]);
                        assert(all[q] == items[items.len() - 1]);
                    }
                }
            }
        }
    }

    /// Dealing out loses and adds nothing.
    pub proof fn lemma_distribute_elements(self, items: Seq<T>, count: nat)
        requires
            count >= 1,
        ensures
            self.distribute(items, count).flatten().to_multiset() == items.to_multiset(),
            self.distribute(items, count).flatten().len() == items.len(),
        decreases items.len(),
    {
        self.lemma_distribute(items, count);
        if items.len() == 0 {
            lemma_flatten_empty(fresh_buckets::<T>(count));
            assert(self.distribute(items, count).flatten() =~= items);
        } else {
            let front = items.drop_last();
            self.lemma_distribute(front, count);
            self.lemma_distribute_elements(front, count);
            lemma_flatten_push_into(
                self.distribute(front, count),
                self.slot_of(items.last(), count),
                items.last(),
            );
            to_multiset_build(front, items.last());
            assert(front.push(items.last()) =~= items);
        }
    }

    /// Dealing out fills `count` buckets, and bucket `k` receives, in order,
    /// the items that belong to it.
    pub proof fn lemma_distribute(self, items: Seq<T>, count: nat)
        requires
            count >= 1,
        ensures
            self.distribute(items, count).len() == count,
            forall|k: int|
                0 <= k < count ==> #[trigger] self.distribute(items, count)[k] == items.filter(
                    self.belongs_to(count, k),
                ),
        decreases items.len(),
    {
        reveal(Seq::filter);
        if items.len() > 0 {
            self.lemma_distribute(items.drop_last(), count);
        }
    }
}

impl<T> TableModel<T> {
    /// A position that matches, with none before it, is the first match.
    pub proof fn lemma_first_match(self, bucket: Seq<T>, v: T, pos: int)
        requires
            0 <= pos < bucket.len(),
            (self.id.same)(bucket[pos], v),
            forall|k: int| 0 <= k < pos ==> !(self.id.same)(#[trigger] bucket[k], v),
        ensures
            self.first_match(bucket, v) == pos,
    {
        let j = self.first_match(bucket, v);
        if j < pos {
            assert(!(self.id.same)(bucket[j], v));
        }
        if j > pos {
            assert(!(self.id.same)(bucket[pos], v));
        }
    }

    /// A removal keeps the table well-formed.
    pub proof fn lemma_remove_wf(self, v: T)
        requires
            self.wf(),
        ensures
            self.remove(v).wf(),
            self.remove(v).buckets.len() == self.buckets.len(),
    {
        if self.contains(v) {
            let i = self.slot(v);
            let bucket = self.buckets[i];
            let pos = choose|p: int| 0 <= p < bucket.len() && (self.id.same)(#[trigger] bucket[p], v);
            self.lemma_some_first_match(bucket, v, pos);
            let j = self.first_match(bucket, v);
            let after = self.remove(v);
            bucket.remove_ensures(j);
            assert forall|x: int, y: int|
                0 <= x < after.buckets.len() && 0 <= y < after.buckets[x].len() implies after.slot(
                #[trigger] after.buckets[x][y],
            ) == x by {
                if x == i {
                    if y < j {
                        assert(after.buckets[x][y] == self.buckets[x][y]);
                    } else {
                        assert(after.buckets[x][y] == self.buckets[x][y + 1]);
                    }
                } else {
                    assert(after.buckets[x][y] == self.buckets[x][y]);
                }
            }
            assert forall|x: int, y: int, z: int|
                0 <= x < after.buckets.len() && 0 <= y < z < after.buckets[x].len() implies !(
            after.id.same)(#[trigger] after.buckets[x][y], #[trigger] after.buckets[x][z]) by {
                if x == i {
                    let y0 = if y < j { y } else { y + 1 };
                    let z0 = if z < j { z } else { z + 1 };
                    assert(after.buckets[x][y] == self.buckets[x][y0]);
                    assert(after.buckets[x][z] == self.buckets[x][z0]);
                } else {
                    assert(after.buckets[x][y] == self.buckets[x][y]);
                    assert(after.buckets[x][z] == self.buckets[x][z]);
                }
            }
        }
    }

    /// No element of a well-formed table counts as the same as one that
    /// stands before it in iteration order.
    pub proof fn lemma_elements_distinct(self)
        requires
            self.wf(),
        ensures
            self.id.pairwise_distinct(self.elements()),
    {
        let all = self.elements();
        assert forall|p: int, q: int| 0 <= p < q < all.len() implies !(self.id.same)(
            #[trigger] all[p],
            #[trigger] all[q],
        ) by {
            let a = lemma_flatten_locate(self.buckets, p);
            let b = lemma_flatten_locate(self.buckets, q);
            assert(self.slot(self.buckets[a.0][a.1]) == a.0);
            assert(self.slot(self.buckets[b.0][b.1]) == b.0);
            if a.0 == b.0 {
                assert(a.1 < b.1);
            }
        }
    }

    /// In a well-formed table, to contain a match for `v` is to have one
    /// among the elements: the bucket of `v` is the only place to look.
    pub proof fn lemma_contains_among(self, v: T)
        requires
            self.wf(),
        ensures
            self.contains(v) == self.id.among(self.elements(), v),
    {
        let all = self.elements();
        let i = self.slot(v);
        if self.contains(v) {
            let j = choose|j: int|
                0 <= j < self.buckets[i].len() && (self.id.same)(#[trigger] self.buckets[i][j], v);
            lemma_flatten_index(self.buckets, i, j);
            assert((self.id.same)(all[offset(self.buckets, i) + j], v));
        }
        if self.id.among(all, v) {
            let p = choose|p: int| 0 <= p < all.len() && (self.id.same)(#[trigger] all[p], v);
            let a = lemma_flatten_locate(self.buckets, p);
            assert(self.slot(self.buckets[a.0][a.1]) == a.0);
            assert((self.id.same)(self.buckets[a.0][a.1], v));
        }
    }

    /// Insertions change neither the identity nor the number of buckets.
    pub proof fn lemma_insert_all_shape(self, items: Seq<T>)
        requires
            self.buckets.len() >= 1,
        ensures
            self.insert_all(items).id == self.id,
            self.insert_all(items).buckets.len() == self.buckets.len(),
        decreases items.len(),
    {
        if items.len() > 0 {
            self.lemma_insert_all_shape(items.drop_last());
        }
    }

    /// What an insertion does to the elements: nothing where a match is
    /// present, else it adds `v` once.
    pub proof fn lemma_insert_elements(self, v: T)
        requires
            self.wf(),
        ensures
            self.contains(v) ==> self.insert(v) == self,
            !self.contains(v) ==> self.insert(v).len() == self.len() + 1,
            !self.contains(v) ==> self.insert(v).elements().to_multiset()
                == self.elements().to_multiset().insert(v),
    {
        if !self.contains(v) {
            lemma_flatten_push_into(self.buckets, self.slot(v), v);
        }
    }

    /// Inserting, one after another, items no two of which count as the same
    /// and none of which has a match in the table adds every one of them.
    pub proof fn lemma_insert_all_new(self, items: Seq<T>)
        requires
            self.wf(),
            self.id.pairwise_distinct(items),
            forall|p: int| 0 <= p < items.len() ==> !self.id.among(self.elements(), #[trigger] items[p]),
        ensures
            self.insert_all(items).wf(),
            self.insert_all(items).id == self.id,
            self.insert_all(items).buckets.len() == self.buckets.len(),
            self.insert_all(items).elements().to_multiset() == self.elements().to_multiset().add(
                items.to_multiset(),
            ),
            self.insert_all(items).len() == self.len() + items.len(),
        decreases items.len(),
    {
        broadcast use vstd::seq_lib::group_to_multiset_ensures;

        if items.len() == 0 {
            assert(items.to_multiset() =~= vstd::multiset::Multiset::<T>::empty());
            assert(self.elements().to_multiset().add(items.to_multiset())
                =~= self.elements().to_multiset());
        } else {
            let front = items.drop_last();
            let last = items.last();
            assert(self.id.pairwise_distinct(front)) by {
                assert forall|p: int, q: int| 0 <= p < q < front.len() implies !(self.id.same)(
                    #[trigger] front[p],
                    #[trigger] front[q],
                ) by {
                    assert(front[p] == items[p] && front[q] == items[q]);
                }
            }
            assert forall|p: int| 0 <= p < front.len() implies !self.id.among(
                self.elements(),
                #[trigger] front[p],
            ) by {
                assert(front[p] == items[p]);
            }
            self.lemma_insert_all_new(front);
            let grown = self.insert_all(front);
            grown.lemma_contains_among(last);
            if grown.id.among(grown.elements(), last) {
                let p = choose|p: int|
                    0 <= p < grown.elements().len() && (self.id.same)(
                        #[trigger] grown.elements()[p],
                        last,
                    );
                let e = grown.elements()[p];
                to_multiset_contains(grown.elements(), e);
                to_multiset_contains(self.elements(), e);
                to_multiset_contains(front, e);
                assert(grown.elements().contains(e));
                if self.elements().contains(e) {
                    let q = choose|q: int| 0 <= q < self.elements().len() && self.elements()[q] == e;
                    assert((self.id.same)(self.elements()[q], last));
                    assert(self.id.among(self.elements(), items[items.len() - 1]));
                } else {
                    let q = choose|q: int| 0 <= q < front.len() && front[q] == e;
                    assert(items[q] == e);
                    assert(!(self.id.same)(items[q], items[items.len() - 1]));
                }
            }
            grown.lemma_insert_wf(last);
            grown.lemma_insert_elements(last);
            to_multiset_build(front, last);
            assert(front.push(last) =~= items);
            assert(self.insert_all(items).elements().to_multiset()
                =~= self.elements().to_multiset().add(items.to_multiset()));
        }
    }

    /// A rebuilt table is well-formed.
    pub proof fn lemma_rebuild_wf(self, count: nat)
        requires
            self.wf(),
            count >= 1,
        ensures
            self.rebuild(count).wf(),
    {
        let after = self.rebuild(count);
        self.lemma_elements_distinct();
        assert forall|i: int, j: int|
            0 <= i < after.buckets.len() && 0 <= j < after.buckets[i].len() implies after.slot(
            #[trigger] after.buckets[i][j],
        ) == i by {
            let t = lemma_filter_source(self.elements(), self.id.belongs_to(count, i), j);
        }
        assert forall|i: int, j: int, k: int|
            0 <= i < after.buckets.len() && 0 <= j < k < after.buckets[i].len() implies !(
        after.id.same)(#[trigger] after.buckets[i][j], #[trigger] after.buckets[i][k]) by {
            self.id.lemma_filter_distinct(self.elements(), self.id.belongs_to(count, i));
        }
    }

    /// A rebuilt table has the elements of the old one, each as often.
    pub proof fn lemma_rebuild_elements(self, count: nat)
        requires
            count >= 1,
        ensures
            self.rebuild(count).elements().to_multiset() == self.elements().to_multiset(),
            self.rebuild(count).len() == self.len(),
    {
        self.id.lemma_distribute(self.elements(), count);
        self.id.lemma_distribute_elements(self.elements(), count);
        assert(self.rebuild(count).buckets =~= self.id.distribute(self.elements(), count));
    }

    /// Where some position matches, the first match is a matching position
    /// with none before it.
    pub proof fn lemma_some_first_match(self, bucket: Seq<T>, v: T, pos: int)
        requires
            0 <= pos < bucket.len(),
            (self.id.same)(bucket[pos], v),
        ensures
            0 <= self.first_match(bucket, v) <= pos,
            (self.id.same)(bucket[self.first_match(bucket, v)], v),
            forall|k: int|
                0 <= k < self.first_match(bucket, v) ==> !(self.id.same)(#[trigger] bucket[k], v),
        decreases pos,
    {
        if exists|k: int| 0 <= k < pos && (self.id.same)(#[trigger] bucket[k], v) {
            let k = choose|k: int| 0 <= k < pos && (self.id.same)(#[trigger] bucket[k], v);
            self.lemma_some_first_match(bucket, v, k);
        } else {
            self.lemma_first_match(bucket, v, pos);
        }
    }

    /// An insertion keeps the table well-formed.
    pub proof fn lemma_insert_wf(self, v: T)
        requires
            self.wf(),
        ensures
            self.insert(v).wf(),
            self.insert(v).buckets.len() == self.buckets.len(),
    {
        if !self.contains(v) {
            let i = self.slot(v);
            let after = self.insert(v);
            assert forall|x: int, j: int|
                0 <= x < after.buckets.len() && 0 <= j < after.buckets[x].len() implies after.slot(
                #[trigger] after.buckets[x][j],
            ) == x by {
                if x == i && j == self.buckets[i].len() {
                } else {
                    assert(after.buckets[x][j] == self.buckets[x][j]);
                }
            }
            assert forall|x: int, j: int, k: int|
                0 <= x < after.buckets.len() && 0 <= j < k < after.buckets[x].len() implies !(
            after.id.same)(#[trigger] after.buckets[x][j], #[trigger] after.buckets[x][k]) by {
                if x == i && k == self.buckets[i].len() {
                    assert(after.buckets[x][j] == self.buckets[i][j]);
                } else {
                    assert(after.buckets[x][j] == self.buckets[x][j]);
                    assert(after.buckets[x][k] == self.buckets[x][k]);
                }
            }
        }
    }
}

} // verus!
