//! A hash set whose identity is a stored pair of functions.

use crate::identity::{callable, Identity};
use crate::layout::{
    lemma_flatten_empty, lemma_flatten_index, lemma_flatten_push_into, lemma_flatten_remove_from,
    lemma_flatten_split, lemma_flatten_take_step, lemma_offset_ends, offset,
};
use crate::model::{
    fresh_buckets, is_largest_size, is_smallest_size, is_vacant, lemma_filter_first,
    lemma_filter_next, TableModel,
};
use std::collections::hash_map::DefaultHasher;
use std::hash::{Hash, Hasher};
use vstd::prelude::*;
use vstd::std_specs::hash::DefaultHasherAdditionalSpecFns;

verus! {

/// A hash set that takes its equality test and its hash function as values
/// at construction, and keeps its elements in a fixed number of buckets.
pub struct CustomHashSet<T, E, H> {
    /// the buckets, each in insertion order
    buckets: Vec<Vec<T>>,
    /// the number of buckets
    buckets_required: usize,
    /// the equality test
    eq_fn: E,
    /// the hash function
    hash_fn: H,
}

/// A cursor over the elements of a set, in iteration order: bucket by bucket,
/// each bucket in insertion order.
pub struct Iter<'a, T> {
    buckets: &'a Vec<Vec<T>>,
    bucket: usize,
    pos: usize,
}

/// A cursor over the elements of one set that another set does not contain.
/// It tests an element only when it is asked for the next one.
pub struct Difference<'a, T, E, H> {
    inner: Iter<'a, T>,
    other: &'a CustomHashSet<T, E, H>,
}

/// The values that a sequence of references points to.
pub open spec fn referents<T>(refs: Seq<&T>) -> Seq<T> {
    refs.map_values(|r: &T| *r)
}

/// The buckets of `v` as sequences.
pub open spec fn buckets_of<T>(v: Vec<Vec<T>>) -> Seq<Seq<T>> {
    v@.map_values(|b: Vec<T>| b@)
}

impl<T, E, H> View for CustomHashSet<T, E, H> {
    type V = Seq<Seq<T>>;

    closed spec fn view(&self) -> Seq<Seq<T>> {
        buckets_of(self.buckets)
    }
}

impl<T, E: Fn(&T, &T) -> bool, H: Fn(&T) -> usize> CustomHashSet<T, E, H> {
    /// The stored equality test.
    pub closed spec fn eq_fn(&self) -> E {
        self.eq_fn
    }

    /// The stored hash function.
    pub closed spec fn hash_fn(&self) -> H {
        self.hash_fn
    }

    /// The recorded bucket count agrees with the buckets held.
    pub closed spec fn consistent(&self) -> bool {
        self.buckets_required == self.buckets.len()
    }

    /// `id` describes the stored pair of functions.
    pub open spec fn obeys(&self, id: Identity<T>) -> bool {
        id.describes(self.eq_fn(), self.hash_fn())
    }

    /// The table as a mathematical value, read under `id`.
    pub open spec fn model(&self, id: Identity<T>) -> TableModel<T> {
        TableModel { buckets: self@, id }
    }

    /// Well-formedness: the stored functions may be called on anything, and
    /// under every identity that describes them the model is well-formed.
    pub open spec fn wf(&self) -> bool {
        &&& self.consistent()
        &&& self@.len() >= 1
        &&& callable(self.eq_fn(), self.hash_fn())
        &&& forall|id: Identity<T>| #[trigger] self.obeys(id) ==> self.model(id).wf()
    }

    /// All elements in iteration order: bucket by bucket, each bucket in
    /// insertion order.
    pub open spec fn elements(&self) -> Seq<T> {
        self@.flatten()
    }

    /// The two tables hold the same pair of functions.
    pub open spec fn same_strategy(&self, other: &Self) -> bool {
        self.eq_fn() == other.eq_fn() && self.hash_fn() == other.hash_fn()
    }

    /// Creates an empty set of `buckets_required` buckets around the two
    /// functions. `default_bucket_size` is a capacity hint for each bucket.
    pub fn new(eq_fn: E, hash_fn: H, buckets_required: usize, default_bucket_size: usize) -> (set:
        Self)
        requires
            buckets_required >= 1,
            callable(eq_fn, hash_fn),
        ensures
            set.wf(),
            set@ == fresh_buckets::<T>(buckets_required as nat),
            set.elements().len() == 0,
            set.eq_fn() == eq_fn,
            set.hash_fn() == hash_fn,
    {
        let buckets = create_buckets(buckets_required, default_bucket_size);
        proof {
            lemma_flatten_empty(fresh_buckets::<T>(buckets_required as nat));
        }
        Self { buckets, buckets_required, eq_fn, hash_fn }
    }

    /// Position of the first element of bucket `index` that the equality test
    /// accepts against `value`, if there is one.
    fn find_in_bucket(&self, index: usize, value: &T) -> (found: Option<usize>)
        requires
            self.wf(),
            index < self@.len(),
        ensures
            match found {
                Some(pos) => {
                    &&& pos < self@[index as int].len()
                    &&& call_ensures(self.eq_fn(), (&self@[index as int][pos as int], value), true)
                    &&& forall|k: int|
                        0 <= k < pos ==> call_ensures(
                            self.eq_fn(),
                            (&#[trigger] self@[index as int][k], value),
                            false,
                        )
                },
                None => forall|k: int|
                    0 <= k < self@[index as int].len() ==> call_ensures(
                        self.eq_fn(),
                        (&#[trigger] self@[index as int][k], value),
                        false,
                    ),
            },
    {
        let bucket = &self.buckets[index];
        let mut pos: usize = 0;
        while pos < bucket.len()
            invariant
                pos <= bucket.len(),
                bucket@ == self@[index as int],
                callable(self.eq_fn(), self.hash_fn()),
                forall|k: int|
                    0 <= k < pos ==> call_ensures(self.eq_fn(), (&#[trigger] bucket@[k], value), false),
            decreases bucket.len() - pos,
        {
            if (self.eq_fn)(&bucket[pos], value) {
                return Some(pos);
            }
            pos += 1;
        }
        None
    }

    /// The bucket index of `value`: its hash modulo the bucket count.
    fn bucket_index(&self, value: &T) -> (index: usize)
        requires
            self.wf(),
        ensures
            index < self@.len(),
            forall|id: Identity<T>| #[trigger] self.obeys(id) ==> index == self.model(id).slot(*value),
    {
        let hash = (self.hash_fn)(value);
        hash % self.buckets_required
    }

    /// Tells whether the set holds an element that the equality test accepts
    /// against `value`.
    pub fn contains(&self, value: &T) -> (found: bool)
        requires
            self.wf(),
        ensures
            forall|id: Identity<T>| #[trigger] self.obeys(id) ==> found == self.model(id).contains(*value),
    {
        let index = self.bucket_index(value);
        let found = self.find_in_bucket(index, value);
        found.is_some()
    }

    /// Inserts `value` unless an element that the equality test accepts
    /// against it is present. Returns whether it was added.
    pub fn insert(&mut self, value: T) -> (added: bool)
        requires
            old(self).wf(),
        ensures
            final(self).wf(),
            final(self).same_strategy(old(self)),
            final(self)@.len() == old(self)@.len(),
            final(self).elements().len() == old(self).elements().len() + if added {
                1int
            } else {
                0int
            },
            forall|id: Identity<T>| #[trigger]
                old(self).obeys(id) ==> {
                    &&& added == !old(self).model(id).contains(value)
                    &&& final(self)@ == old(self).model(id).insert(value).buckets
                },
    {
        let ghost v = value;
        let index = self.bucket_index(&value);
        match self.find_in_bucket(index, &value) {
            Some(_) => false,
            None => {
                self.buckets[index].push(value);
                proof {
                    assert(self@ =~= old(self)@.update(index as int, old(self)@[index as int].push(v)));
                    lemma_flatten_push_into(old(self)@, index as int, v);
                    assert forall|id: Identity<T>| #[trigger] self.obeys(id) implies self.model(
                        id,
                    ).wf() by {
                        let before = old(self).model(id);
                        assert(old(self).obeys(id));
                        assert(!before.contains(v));
                        before.lemma_insert_wf(v);
                        assert(self.model(id) == before.insert(v));
                    }
                }
                true
            },
        }
    }

    /// Removes the first element of its bucket that the equality test accepts
    /// against `value`, keeping the order of the others. Returns whether one
    /// was removed.
    pub fn remove(&mut self, value: &T) -> (removed: bool)
        requires
            old(self).wf(),
        ensures
            final(self).wf(),
            final(self).same_strategy(old(self)),
            final(self)@.len() == old(self)@.len(),
            final(self).elements().len() + if removed {
                1int
            } else {
                0int
            } == old(self).elements().len(),
            forall|id: Identity<T>| #[trigger]
                old(self).obeys(id) ==> {
                    &&& removed == old(self).model(id).contains(*value)
                    &&& final(self)@ == old(self).model(id).remove(*value).buckets
                },
    {
        let index = self.bucket_index(value);
        match self.find_in_bucket(index, value) {
            Some(pos) => {
                let ghost bucket = self@[index as int];
                assert(pos < bucket.len());
                self.buckets[index].remove(pos);
                proof {
                    assert(bucket == old(self)@[index as int]);
                    assert(self@ =~= old(self)@.update(index as int, bucket.remove(pos as int)));
                    lemma_flatten_remove_from(old(self)@, index as int, pos as int);
                    assert forall|id: Identity<T>| #[trigger] old(self).obeys(id) implies {
                        &&& old(self).model(id).contains(*value)
                        &&& self@ == old(self).model(id).remove(*value).buckets
                        &&& self.model(id).wf()
                    } by {
                        let before = old(self).model(id);
                        assert((id.same)(bucket[pos as int], *value));
                        before.lemma_first_match(bucket, *value, pos as int);
                        before.lemma_remove_wf(*value);
                        assert(self.model(id) == before.remove(*value));
                    }
                    assert forall|id: Identity<T>| #[trigger] self.obeys(id) implies self.model(
                        id,
                    ).wf() by {
                        assert(old(self).obeys(id));
                    }
                }
                true
            },
            None => false,
        }
    }

    /// Rebuilds the set with `buckets_required` buckets: every element moves,
    /// in iteration order, to the bucket that its hash selects among the new
    /// ones. No equality test is made.
    pub fn rebuild(&mut self, buckets_required: usize, default_bucket_size: usize)
        requires
            old(self).wf(),
            buckets_required >= 1,
        ensures
            final(self).wf(),
            final(self).same_strategy(old(self)),
            final(self)@.len() == buckets_required,
            final(self).elements().to_multiset() == old(self).elements().to_multiset(),
            final(self).elements().len() == old(self).elements().len(),
            forall|id: Identity<T>| #[trigger]
                old(self).obeys(id) ==> final(self)@ == old(self).model(id).rebuild(
                    buckets_required as nat,
                ).buckets,
    {
        let mut new_buckets: Vec<Vec<T>> = create_buckets(buckets_required, default_bucket_size);
        let mut old_buckets: Vec<Vec<T>> = Vec::new();
        core::mem::swap(&mut self.buckets, &mut old_buckets);
        let ghost source = old(self)@;
        let ghost eq_fn = self.eq_fn;
        let ghost hash_fn = self.hash_fn;
        let ghost moved = Seq::<T>::empty();
        proof {
            assert(source.take(0).flatten() =~= moved) by {
                lemma_offset_ends(source);
                assert(source.take(0).flatten().len() == 0);
            }
            assert(buckets_of(old_buckets) == source);
            lemma_flatten_empty(buckets_of(new_buckets));
            assert(buckets_of(new_buckets).flatten() =~= moved);
        }
        for bucket in outer: old_buckets
            invariant
                buckets_required >= 1,
                buckets_of(new_buckets).flatten().to_multiset() == moved.to_multiset(),
                buckets_of(new_buckets).flatten().len() == moved.len(),
                outer.seq().len() == source.len(),
                forall|k: int| 0 <= k < source.len() ==> (#[trigger] outer.seq()[k])@ == source[k],
                new_buckets.len() == buckets_required,
                moved == source.take(outer.index()).flatten(),
                self.eq_fn == eq_fn && self.hash_fn == hash_fn,
                callable(eq_fn, hash_fn),
                forall|id: Identity<T>| #[trigger]
                    id.describes(eq_fn, hash_fn) ==> buckets_of(new_buckets) == id.distribute(
                        moved,
                        buckets_required as nat,
                    ),
        {
            let ghost at = outer.index();
            assert(bucket@ == source[at]);
            let ghost moved_before = moved;
            for item in inner: bucket
                invariant
                    buckets_required >= 1,
                    buckets_of(new_buckets).flatten().to_multiset() == moved.to_multiset(),
                    buckets_of(new_buckets).flatten().len() == moved.len(),
                    inner.seq() == source[at],
                    0 <= at < source.len(),
                    new_buckets.len() == buckets_required,
                    moved == moved_before + source[at].take(inner.index()),
                    self.eq_fn == eq_fn && self.hash_fn == hash_fn,
                    callable(eq_fn, hash_fn),
                    forall|id: Identity<T>| #[trigger]
                        id.describes(eq_fn, hash_fn) ==> buckets_of(new_buckets) == id.distribute(
                            moved,
                            buckets_required as nat,
                        ),
            {
                let ghost v = item;
                let ghost before = buckets_of(new_buckets);
                let hash = (self.hash_fn)(&item);
                let index = hash % buckets_required;
                new_buckets[index].push(item);
                proof {
                    let taken = moved;
                    moved = moved.push(v);
                    assert(v == source[at][inner.index()]);
                    assert(moved =~= moved_before + source[at].take(inner.index() + 1));
                    assert(moved.drop_last() =~= taken);
                    assert(buckets_of(new_buckets) =~= before.update(
                        index as int,
                        before[index as int].push(v),
                    ));
                    lemma_flatten_push_into(before, index as int, v);
                    vstd::seq_lib::to_multiset_build(taken, v);
                    assert forall|id: Identity<T>| #[trigger]
                        id.describes(eq_fn, hash_fn) implies buckets_of(new_buckets)
                        == id.distribute(moved, buckets_required as nat) by {
                        assert(hash == (id.hash)(v));
                    }
                }
            }
            proof {
                assert(source[at].take(source[at].len() as int) =~= source[at]);
                assert(moved == moved_before + source[at]);
                lemma_flatten_take_step(source, at);
            }
        }
        self.buckets = new_buckets;
        self.buckets_required = buckets_required;
        proof {
            assert(source.take(source.len() as int) =~= source);
            assert(moved == source.flatten());
            assert forall|id: Identity<T>| #[trigger] old(self).obeys(id) implies {
                &&& self@ == old(self).model(id).rebuild(buckets_required as nat).buckets
                &&& self.model(id).wf()
            } by {
                let before = old(self).model(id);
                assert(id.describes(eq_fn, hash_fn));
                id.lemma_distribute(source.flatten(), buckets_required as nat);
                assert(self@ =~= before.rebuild(buckets_required as nat).buckets);
                before.lemma_rebuild_wf(buckets_required as nat);
                assert(self.model(id) == before.rebuild(buckets_required as nat));
            }
            assert forall|id: Identity<T>| #[trigger] self.obeys(id) implies self.model(
                id,
            ).wf() by {
                assert(old(self).obeys(id));
            }
        }
    }

    /// A cursor placed before the first element.
    pub fn iter(&self) -> (it: Iter<'_, T>)
        ensures
            it.wf(),
            it.source() == self@,
            it.position() == 0,
    {
        proof {
            lemma_offset_ends(self@);
        }
        Iter { buckets: &self.buckets, bucket: 0, pos: 0 }
    }

    /// The elements of this set that `other` does not contain, in this set's
    /// iteration order. Neither set changes.
    pub fn difference<'a>(&'a self, other: &Self) -> (diff: Vec<&'a T>)
        requires
            other.wf(),
        ensures
            diff@.len() <= self.elements().len(),
            forall|id: Identity<T>| #[trigger]
                other.obeys(id) ==> referents(diff@) == self.model(id).difference(other.model(id)),
    {
        let mut diff: Vec<&T> = Vec::with_capacity(100);
        let mut it = self.iter();
        let ghost all = self.elements();
        let mut done = false;
        proof {
            assert(all.take(0) =~= Seq::<T>::empty());
            reveal(Seq::filter);
            assert(referents(diff@) =~= Seq::<T>::empty());
        }
        while !done
            invariant
                it.wf(),
                it.source() == self@,
                all == self@.flatten(),
                other.wf(),
                it.position() <= all.len(),
                diff@.len() <= it.position(),
                done ==> it.position() == all.len(),
                forall|id: Identity<T>| #[trigger]
                    other.obeys(id) ==> referents(diff@) == all.take(it.position() as int).filter(
                        other.model(id).lacks(),
                    ),
            decreases all.len() - it.position() + if done { 0int } else { 1int },
        {
            let ghost k = it.position() as int;
            let ghost kept = referents(diff@);
            match it.next() {
                Some(item) => {
                    let found = other.contains(item);
                    if !found {
                        diff.push(item);
                    }
                    proof {
                        assert(referents(diff@) =~= if found {
                            kept
                        } else {
                            kept.push(*item)
                        });
                        assert forall|id: Identity<T>| #[trigger] other.obeys(id) implies referents(
                            diff@,
                        ) == all.take(k + 1).filter(other.model(id).lacks()) by {
                            lemma_filter_next(all, other.model(id).lacks(), k);
                        }
                    }
                },
                None => {
                    done = true;
                },
            }
        }
        proof {
            assert(all.take(all.len() as int) =~= all);
        }
        diff
    }

    /// The same difference, computed one element at a time as the cursor is
    /// advanced.
    pub fn difference_iter<'a>(&'a self, other: &'a Self) -> (it: Difference<'a, T, E, H>)
        requires
            other.wf(),
        ensures
            it.wf(),
            it.other() == other,
            it.remaining() == self.elements(),
            forall|id: Identity<T>|
                #![trigger other.obeys(id)]
                it.pending(id) == self.model(id).difference(other.model(id)),
    {
        let inner = self.iter();
        proof {
            assert(inner.remaining() =~= self.elements());
        }
        Difference { inner, other }
    }

    /// The number of elements: the sum of the bucket sizes.
    pub fn len(&self) -> (count: usize)
        requires
            self.elements().len() <= usize::MAX,
        ensures
            count == self.elements().len(),
    {
        let mut count: usize = 0;
        let mut i: usize = 0;
        while i < self.buckets.len()
            invariant
                i <= self.buckets.len(),
                count == self@.take(i as int).flatten().len(),
                self@.flatten().len() <= usize::MAX,
            decreases self.buckets.len() - i,
        {
            proof {
                lemma_flatten_take_step(self@, i as int);
                lemma_flatten_split(self@, i + 1);
            }
            count = count + self.buckets[i].len();
            i += 1;
        }
        proof {
            assert(self@.take(i as int) =~= self@);
        }
        count
    }

    /// Tells whether the set holds no element.
    pub fn is_empty(&self) -> (empty: bool)
        ensures
            empty == (self.elements().len() == 0),
    {
        let mut i: usize = 0;
        while i < self.buckets.len()
            invariant
                i <= self.buckets.len(),
                forall|k: int| 0 <= k < i ==> (#[trigger] self@[k]).len() == 0,
            decreases self.buckets.len() - i,
        {
            if !self.buckets[i].is_empty() {
                proof {
                    lemma_flatten_empty(self@);
                    assert(self@[i as int].len() != 0);
                }
                return false;
            }
            i += 1;
        }
        proof {
            lemma_flatten_empty(self@);
        }
        true
    }

    /// Empties every bucket. The number of buckets and the two functions stay.
    pub fn clear(&mut self)
        requires
            old(self).wf(),
        ensures
            final(self).wf(),
            final(self).same_strategy(old(self)),
            final(self)@ == fresh_buckets::<T>(old(self)@.len()),
            final(self).elements().len() == 0,
    {
        let mut i: usize = 0;
        while i < self.buckets.len()
            invariant
                i <= self.buckets.len(),
                self.buckets.len() == old(self).buckets.len(),
                self.buckets_required == old(self).buckets_required,
                self.same_strategy(old(self)),
                forall|k: int| 0 <= k < i ==> (#[trigger] self@[k]).len() == 0,
            decreases self.buckets.len() - i,
        {
            let ghost before = self@;
            self.buckets[i].clear();
            proof {
                assert(self@ =~= before.update(i as int, Seq::<T>::empty()));
            }
            i += 1;
        }
        proof {
            assert forall|k: int| 0 <= k < self@.len() implies #[trigger] self@[k]
                == Seq::<T>::empty() by {
                assert(self@[k].len() == 0);
                assert(self@[k] =~= Seq::<T>::empty());
            }
            assert(self@ =~= fresh_buckets::<T>(old(self)@.len()));
            lemma_flatten_empty(self@);
        }
    }

    /// The buckets themselves, for inspection.
    pub fn get_buckets(&self) -> (buckets: &Vec<Vec<T>>)
        ensures
            buckets_of(*buckets) == self@,
    {
        &self.buckets
    }

    /// The size of the largest bucket; 0 where there is no bucket.
    pub fn largest_bucket_size(&self) -> (size: usize)
        ensures
            is_largest_size(self@, size as nat),
    {
        let mut size: usize = 0;
        let mut i: usize = 0;
        while i < self.buckets.len()
            invariant
                i <= self.buckets.len(),
                is_largest_size(self@.take(i as int), size as nat),
            decreases self.buckets.len() - i,
        {
            let ghost seen = self@.take(i as int);
            let ghost next = self@.take(i + 1);
            let n = self.buckets[i].len();
            proof {
                assert(next =~= seen.push(self@[i as int]));
                assert(next[i as int].len() == n);
                assert forall|k: int| 0 <= k < seen.len() implies #[trigger] next[k] == seen[k] by {}
            }
            if i == 0 || n > size {
                size = n;
            } else {
                proof {
                    let w = choose|w: int| 0 <= w < seen.len() && (#[trigger] seen[w]).len() == size;
                    assert(next[w].len() == size);
                }
            }
            i += 1;
        }
        proof {
            assert(self@.take(i as int) =~= self@);
        }
        size
    }

    /// The size of the smallest bucket; 0 where there is no bucket.
    pub fn smallest_bucket_size(&self) -> (size: usize)
        ensures
            is_smallest_size(self@, size as nat),
    {
        let mut size: usize = 0;
        let mut i: usize = 0;
        while i < self.buckets.len()
            invariant
                i <= self.buckets.len(),
                is_smallest_size(self@.take(i as int), size as nat),
            decreases self.buckets.len() - i,
        {
            let ghost seen = self@.take(i as int);
            let ghost next = self@.take(i + 1);
            let n = self.buckets[i].len();
            proof {
                assert(next =~= seen.push(self@[i as int]));
                assert(next[i as int].len() == n);
                assert forall|k: int| 0 <= k < seen.len() implies #[trigger] next[k] == seen[k] by {}
            }
            if i == 0 || n < size {
                size = n;
            } else {
                proof {
                    let w = choose|w: int| 0 <= w < seen.len() && (#[trigger] seen[w]).len() == size;
                    assert(next[w].len() == size);
                }
            }
            i += 1;
        }
        proof {
            assert(self@.take(i as int) =~= self@);
        }
        size
    }

    /// The number of buckets that hold nothing.
    pub fn empty_buckets(&self) -> (count: usize)
        ensures
            count == self@.filter(is_vacant::<T>()).len(),
    {
        let mut count: usize = 0;
        let mut i: usize = 0;
        while i < self.buckets.len()
            invariant
                i <= self.buckets.len(),
                count <= i,
                count == self@.take(i as int).filter(is_vacant::<T>()).len(),
            decreases self.buckets.len() - i,
        {
            proof {
                reveal(Seq::filter);
                assert(self@.take(i + 1).drop_last() =~= self@.take(i as int));
                assert(self@.take(i + 1).last() == self@[i as int]);
            }
            if self.buckets[i].is_empty() {
                count += 1;
            }
            i += 1;
        }
        proof {
            assert(self@.take(i as int) =~= self@);
        }
        count
    }
}

impl<'a, T> Iter<'a, T> {
    /// The buckets that the cursor walks.
    pub closed spec fn source(&self) -> Seq<Seq<T>> {
        buckets_of(*self.buckets)
    }

    /// The number of elements that the cursor has passed.
    pub closed spec fn position(&self) -> nat {
        (offset(self.source(), self.bucket as int) + self.pos) as nat
    }

    /// The cursor stands inside its buckets.
    pub closed spec fn wf(&self) -> bool {
        &&& self.bucket <= self.buckets.len()
        &&& self.bucket < self.buckets.len() ==> self.pos <= self.buckets[self.bucket as int].len()
        &&& self.bucket == self.buckets.len() ==> self.pos == 0
    }

    /// The elements still to come.
    pub open spec fn remaining(&self) -> Seq<T> {
        self.source().flatten().skip(self.position() as int)
    }

    /// Hands out the element at the cursor and steps past it; `None` once
    /// every element has been handed out.
    pub fn next(&mut self) -> (item: Option<&'a T>)
        requires
            old(self).wf(),
        ensures
            final(self).wf(),
            final(self).source() == old(self).source(),
            match item {
                Some(x) => {
                    &&& old(self).position() < old(self).source().flatten().len()
                    &&& *x == old(self).source().flatten()[old(self).position() as int]
                    &&& final(self).position() == old(self).position() + 1
                },
                None => {
                    &&& old(self).position() == old(self).source().flatten().len()
                    &&& final(self).position() == old(self).position()
                },
            },
    {
        let buckets: &'a Vec<Vec<T>> = self.buckets;
        while self.bucket < buckets.len()
            invariant
                self.wf(),
                buckets == self.buckets,
                self.source() == old(self).source(),
                self.position() == old(self).position(),
            decreases buckets.len() - self.bucket,
        {
            let bucket = &buckets[self.bucket];
            if self.pos < bucket.len() {
                proof {
                    lemma_flatten_index(self.source(), self.bucket as int, self.pos as int);
                }
                let item = &bucket[self.pos];
                self.pos += 1;
                return Some(item);
            }
            proof {
                lemma_flatten_take_step(self.source(), self.bucket as int);
            }
            self.bucket += 1;
            self.pos = 0;
        }
        proof {
            lemma_offset_ends(self.source());
        }
        None
    }
}

impl<'a, T, E: Fn(&T, &T) -> bool, H: Fn(&T) -> usize> Difference<'a, T, E, H> {
    /// The set whose elements are left out.
    pub closed spec fn other(&self) -> &'a CustomHashSet<T, E, H> {
        self.other
    }

    /// The elements not yet examined.
    pub closed spec fn remaining(&self) -> Seq<T> {
        self.inner.remaining()
    }

    /// The cursor stands inside its buckets and the other set is well-formed.
    pub closed spec fn wf(&self) -> bool {
        &&& self.inner.wf()
        &&& self.inner.position() <= self.inner.source().flatten().len()
        &&& self.other.wf()
    }

    /// The elements still to be handed out, read under `id`: those not yet
    /// examined that the other set does not contain.
    pub open spec fn pending(&self, id: Identity<T>) -> Seq<T> {
        self.remaining().filter(self.other().model(id).lacks())
    }

    /// Hands out the next element that the other set does not contain;
    /// `None` once there is none left.
    pub fn next(&mut self) -> (item: Option<&'a T>)
        requires
            old(self).wf(),
        ensures
            final(self).wf(),
            final(self).other() == old(self).other(),
            forall|id: Identity<T>| #[trigger]
                old(self).other().obeys(id) ==> match item {
                    Some(x) => {
                        &&& old(self).pending(id).len() > 0
                        &&& *x == old(self).pending(id)[0]
                        &&& final(self).pending(id) == old(self).pending(id).skip(1)
                    },
                    None => old(self).pending(id).len() == 0 && final(self).pending(id).len() == 0,
                },
    {
        let ghost all = self.inner.source().flatten();
        let ghost other = self.other;
        loop
            invariant
                self.wf(),
                self.other == other,
                old(self).other == other,
                self.inner.source().flatten() == all,
                forall|id: Identity<T>| #[trigger]
                    other.obeys(id) ==> self.pending(id) == old(self).pending(id),
            decreases all.len() - self.inner.position(),
        {
            let ghost rest = self.remaining();
            match self.inner.next() {
                Some(item) => {
                    let found = self.other.contains(item);
                    proof {
                        assert(rest.len() > 0 && rest[0] == *item);
                        assert(self.remaining() =~= rest.skip(1));
                        assert forall|id: Identity<T>| #[trigger] other.obeys(id) implies {
                            &&& found ==> self.pending(id) == old(self).pending(id)
                            &&& !found ==> {
                                &&& old(self).pending(id).len() > 0
                                &&& *item == old(self).pending(id)[0]
                                &&& self.pending(id) == old(self).pending(id).skip(1)
                            }
                        } by {
                            let lacks = other.model(id).lacks();
                            lemma_filter_first(rest, lacks);
                            if !found {
                                assert((seq![*item] + rest.skip(1).filter(lacks)).skip(1)
                                    =~= rest.skip(1).filter(lacks));
                            }
                        }
                    }
                    if !found {
                        return Some(item);
                    }
                },
                None => {
                    proof {
                        assert(self.remaining() =~= Seq::<T>::empty());
                        reveal(Seq::filter);
                    }
                    return None;
                },
            }
        }
    }
}

/// Calls `Hash::hash` of the standard library: feeds `value` to `state`.
/// Nothing is claimed of what it writes: that is up to the type's own `Hash`.
#[verifier::external_body]
fn feed<T: Hash>(value: &T, state: &mut DefaultHasher) {
    value.hash(state);
}

/// The hash of a single value (a tuple too) by the standard hasher, started
/// afresh: what that hasher answers after the writes that the value's `Hash`
/// makes, cut to the width of `usize`.
pub fn get_hash<T: Hash>(t: &T) -> (hash: usize)
    ensures
        exists|written: Seq<Seq<u8>>| hash == DefaultHasher::spec_finish(written) as usize,
{
    let mut s = DefaultHasher::new();
    feed(t, &mut s);
    let wide = s.finish();
    assert(wide == DefaultHasher::spec_finish(s@));
    #[verifier::truncate]
    (wide as usize)
}

/// Creates `buckets_required` empty buckets, each with room for
/// `default_bucket_size` elements.
fn create_buckets<T>(buckets_required: usize, default_bucket_size: usize) -> (buckets: Vec<Vec<T>>)
    ensures
        buckets_of(buckets) == fresh_buckets::<T>(buckets_required as nat),
        buckets.len() == buckets_required,
{
    let mut buckets: Vec<Vec<T>> = Vec::with_capacity(buckets_required);
    for i in 0..buckets_required
        invariant
            buckets_of(buckets) == fresh_buckets::<T>(i as nat),
            buckets.len() == i,
    {
        let ghost before = buckets_of(buckets);
        buckets.push(Vec::with_capacity(default_bucket_size));
        assert(buckets_of(buckets) =~= before.push(Seq::<T>::empty()));
        assert(before.push(Seq::<T>::empty()) =~= fresh_buckets::<T>((i + 1) as nat));
    }
    buckets
}

} // verus!
