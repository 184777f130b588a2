//! Facts about a sequence of buckets and the sequence of its elements.

use vstd::prelude::*;
use vstd::seq_lib::{lemma_flatten_concat, lemma_multiset_commutative};

verus! {

/// The number of elements in the first `i` buckets: the position in the
/// flattened sequence at which bucket `i` starts.
pub open spec fn offset<T>(buckets: Seq<Seq<T>>, i: int) -> nat {
    buckets.take(i).flatten().len()
}

/// The elements of the first `i + 1` buckets are those of the first `i`
/// followed by bucket `i`.
pub proof fn lemma_flatten_take_step<T>(buckets: Seq<Seq<T>>, i: int)
    requires
        0 <= i < buckets.len(),
    ensures
        buckets.take(i + 1).flatten() == buckets.take(i).flatten() + buckets[i],
        offset(buckets, i + 1) == offset(buckets, i) + buckets[i].len(),
{
    assert(buckets.take(i + 1) =~= buckets.take(i).push(buckets[i]));
    buckets.take(i).lemma_flatten_push(buckets[i]);
}

/// The elements split at any bucket boundary.
pub proof fn lemma_flatten_split<T>(buckets: Seq<Seq<T>>, i: int)
    requires
        0 <= i <= buckets.len(),
    ensures
        buckets.flatten() == buckets.take(i).flatten() + buckets.skip(i).flatten(),
        offset(buckets, i) <= buckets.flatten().len(),
{
    assert(buckets =~= buckets.take(i) + buckets.skip(i));
    lemma_flatten_concat(buckets.take(i), buckets.skip(i));
}

/// The first and the last offset.
pub proof fn lemma_offset_ends<T>(buckets: Seq<Seq<T>>)
    ensures
        offset(buckets, 0) == 0,
        offset(buckets, buckets.len() as int) == buckets.flatten().len(),
{
    assert(buckets.take(0) =~= Seq::<Seq<T>>::empty());
    assert(buckets.take(buckets.len() as int) =~= buckets);
}

/// The elements are those before bucket `k`, then bucket `k`, then those
/// after it.
pub proof fn lemma_flatten_at<T>(buckets: Seq<Seq<T>>, k: int)
    requires
        0 <= k < buckets.len(),
    ensures
        buckets.flatten() == buckets.take(k).flatten() + buckets[k] + buckets.skip(
            k + 1,
        ).flatten(),
{
    lemma_flatten_split(buckets, k + 1);
    lemma_flatten_take_step(buckets, k);
}

/// Replacing bucket `k` replaces its stretch of the elements.
pub proof fn lemma_flatten_update<T>(buckets: Seq<Seq<T>>, k: int, bucket: Seq<T>)
    requires
        0 <= k < buckets.len(),
    ensures
        buckets.update(k, bucket).flatten() == buckets.take(k).flatten() + bucket + buckets.skip(
            k + 1,
        ).flatten(),
{
    let changed = buckets.update(k, bucket);
    lemma_flatten_at(changed, k);
    assert(changed.take(k) =~= buckets.take(k));
    assert(changed.skip(k + 1) =~= buckets.skip(k + 1));
}

/// Appending `v` to bucket `k` adds one element and changes no other.
pub proof fn lemma_flatten_push_into<T>(buckets: Seq<Seq<T>>, k: int, v: T)
    requires
        0 <= k < buckets.len(),
    ensures
        buckets.update(k, buckets[k].push(v)).flatten().len() == buckets.flatten().len() + 1,
        buckets.update(k, buckets[k].push(v)).flatten().to_multiset()
            == buckets.flatten().to_multiset().insert(v),
{
    broadcast use vstd::seq_lib::group_to_multiset_ensures;

    let head = buckets.take(k).flatten();
    let tail = buckets.skip(k + 1).flatten();
    lemma_flatten_at(buckets, k);
    lemma_flatten_update(buckets, k, buckets[k].push(v));
    lemma_multiset_commutative(head + buckets[k], tail);
    lemma_multiset_commutative(head, buckets[k]);
    lemma_multiset_commutative(head + buckets[k].push(v), tail);
    lemma_multiset_commutative(head, buckets[k].push(v));
    assert(buckets.update(k, buckets[k].push(v)).flatten().to_multiset()
        =~= buckets.flatten().to_multiset().insert(v));
}

/// Removing position `j` of bucket `k` takes one element away and changes no
/// other.
pub proof fn lemma_flatten_remove_from<T>(buckets: Seq<Seq<T>>, k: int, j: int)
    requires
        0 <= k < buckets.len(),
        0 <= j < buckets[k].len(),
    ensures
        buckets.update(k, buckets[k].remove(j)).flatten().len() + 1 == buckets.flatten().len(),
        buckets.update(k, buckets[k].remove(j)).flatten().to_multiset().insert(buckets[k][j])
            == buckets.flatten().to_multiset(),
{
    broadcast use vstd::seq_lib::group_to_multiset_ensures;

    let head = buckets.take(k).flatten();
    let tail = buckets.skip(k + 1).flatten();
    let left = buckets[k].subrange(0, j);
    let right = buckets[k].subrange(j + 1, buckets[k].len() as int);
    lemma_flatten_at(buckets, k);
    lemma_flatten_update(buckets, k, buckets[k].remove(j));
    assert(buckets[k] =~= left.push(buckets[k][j]) + right);
    lemma_multiset_commutative(head + buckets[k], tail);
    lemma_multiset_commutative(head, buckets[k]);
    lemma_multiset_commutative(left.push(buckets[k][j]), right);
    lemma_multiset_commutative(head + buckets[k].remove(j), tail);
    lemma_multiset_commutative(head, buckets[k].remove(j));
    lemma_multiset_commutative(left, right);
    assert(buckets.update(k, buckets[k].remove(j)).flatten().to_multiset().insert(buckets[k][j])
        =~= buckets.flatten().to_multiset());
}

/// Element `j` of bucket `i` stands at position `offset(buckets, i) + j` of
/// the flattened sequence.
pub proof fn lemma_flatten_index<T>(buckets: Seq<Seq<T>>, i: int, j: int)
    requires
        0 <= i < buckets.len(),
        0 <= j < buckets[i].len(),
    ensures
        offset(buckets, i) + j < buckets.flatten().len(),
        buckets.flatten()[offset(buckets, i) + j] == buckets[i][j],
{
    lemma_flatten_at(buckets, i);
}

/// Every position of the flattened sequence is some element of some bucket.
pub proof fn lemma_flatten_locate<T>(buckets: Seq<Seq<T>>, p: int) -> (at: (int, int))
    requires
        0 <= p < buckets.flatten().len(),
    ensures
        0 <= at.0 < buckets.len(),
        0 <= at.1 < buckets[at.0].len(),
        offset(buckets, at.0) + at.1 == p,
        buckets.flatten()[p] == buckets[at.0][at.1],
{
    lemma_offset_ends(buckets);
    let at = lemma_locate_below(buckets, p, buckets.len() as int);
    lemma_flatten_index(buckets, at.0, at.1);
    at
}

proof fn lemma_locate_below<T>(buckets: Seq<Seq<T>>, p: int, k: int) -> (at: (int, int))
    requires
        0 <= k <= buckets.len(),
        0 <= p < offset(buckets, k),
    ensures
        0 <= at.0 < buckets.len(),
        0 <= at.1 < buckets[at.0].len(),
        offset(buckets, at.0) + at.1 == p,
    decreases k,
{
    if k == 0 {
        lemma_offset_ends(buckets);
        (0, 0)
    } else {
        lemma_flatten_take_step(buckets, k - 1);
        if offset(buckets, k - 1) <= p {
            (k - 1, p - offset(buckets, k - 1))
        } else {
            lemma_locate_below(buckets, p, k - 1)
        }
    }
}

/// Buckets that are all empty hold no elements, and conversely.
pub proof fn lemma_flatten_empty<T>(buckets: Seq<Seq<T>>)
    ensures
        buckets.flatten().len() == 0 <==> forall|i: int|
            0 <= i < buckets.len() ==> (#[trigger] buckets[i]).len() == 0,
    decreases buckets.len(),
{
    if buckets.len() > 0 {
        let rest = buckets.drop_first();
        lemma_flatten_empty(rest);
        assert(buckets.flatten() == buckets.first() + rest.flatten());
        if buckets.flatten().len() == 0 {
            assert forall|i: int| 0 <= i < buckets.len() implies (#[trigger] buckets[i]).len()
                == 0 by {
                if i > 0 {
                    assert(buckets[i] == rest[i - 1]);
                }
            }
        }
        if forall|i: int| 0 <= i < buckets.len() ==> (#[trigger] buckets[i]).len() == 0 {
            assert(buckets[0].len() == 0);
            assert forall|i: int| 0 <= i < rest.len() implies (#[trigger] rest[i]).len() == 0 by {
                assert(rest[i] == buckets[i + 1]);
            }
        }
    }
}

} // verus!
