use folder_compare::customhashset::{get_hash, CustomHashSet};
use folder_compare::strategies::{
    eq_array, eq_int, eq_string, hash_array, hash_int, hash_string, SmallArray,
};

fn hash_zero(_value: &i32) -> usize {
    0
}

fn hash_tens(value: &i32) -> usize {
    (*value / 10) as usize
}

fn eq_never(_a: &i32, _b: &i32) -> bool {
    false
}

fn eq_near(a: &i32, b: &i32) -> bool {
    (*a - *b).abs() <= 1
}

#[test]
fn insert_then_contains() {
    let mut set = CustomHashSet::new(eq_int, hash_int, 16, 4);
    assert!(set.insert(5));
    assert!(!set.insert(5));
    assert!(set.contains(&5));
    assert!(!set.contains(&7));
    assert_eq!(set.len(), 1);
}

#[test]
fn new_set_is_empty() {
    let set = CustomHashSet::new(eq_int, hash_int, 3, 0);
    assert!(set.is_empty());
    assert_eq!(set.len(), 0);
    assert_eq!(set.get_buckets().len(), 3);
    assert!(!set.contains(&0));
}

#[test]
fn distinct_values_are_all_kept() {
    for buckets in [1usize, 2, 7, 64] {
        let mut set = CustomHashSet::new(eq_int, hash_int, buckets, 2);
        let values = [3, -4, 15, 92, 65, 0, -1000, 7];
        for v in values {
            assert!(set.insert(v));
        }
        assert_eq!(set.len(), values.len());
        for v in values {
            assert!(set.contains(&v));
        }
        assert!(!set.contains(&1));
    }
}

#[test]
fn equal_value_is_refused_and_length_stays() {
    let mut set = CustomHashSet::new(eq_string, hash_string, 8, 2);
    assert!(set.insert(String::from("alpha")));
    assert!(set.insert(String::from("beta")));
    assert_eq!(set.len(), 2);
    assert!(!set.insert(String::from("alpha")));
    assert_eq!(set.len(), 2);
}

#[test]
fn refused_value_is_discarded() {
    let mut set = CustomHashSet::new(eq_near, hash_zero, 1, 0);
    assert!(set.insert(10));
    assert!(!set.insert(11));
    assert_eq!(set.get_buckets()[0], vec![10]);
}

#[test]
fn without_transitivity_an_equal_value_may_be_added() {
    let mut set = CustomHashSet::new(eq_near, hash_zero, 1, 0);
    assert!(set.insert(0));
    assert!(!set.insert(1));
    assert!(set.insert(2));
    assert_eq!(set.len(), 2);
}

#[test]
fn without_reflexivity_a_value_is_not_found() {
    let mut set = CustomHashSet::new(eq_never, hash_int, 4, 0);
    assert!(set.insert(1));
    assert!(!set.contains(&1));
    assert!(set.insert(1));
    assert_eq!(set.len(), 2);
    assert_eq!(set.difference(&set).len(), 2);
}

#[test]
fn elements_go_to_the_bucket_of_their_hash() {
    let mut set = CustomHashSet::new(eq_int, hash_int, 4, 0);
    for v in [5, 2, 8, 9, 13] {
        assert!(set.insert(v));
    }
    let buckets = set.get_buckets();
    assert_eq!(buckets[0], vec![8]);
    assert_eq!(buckets[1], vec![5, 9, 13]);
    assert_eq!(buckets[2], vec![2]);
    assert_eq!(buckets[3], Vec::<i32>::new());
}

#[test]
fn negative_integer_hash_wraps() {
    assert_eq!(hash_int(&-1), usize::MAX);
    assert_eq!(hash_int(&42), 42);
    let mut set = CustomHashSet::new(eq_int, hash_int, 4, 0);
    assert!(set.insert(-1));
    assert_eq!(set.get_buckets()[usize::MAX % 4], vec![-1]);
}

#[test]
fn remove_takes_the_match_and_keeps_the_order() {
    let mut set = CustomHashSet::new(eq_int, hash_zero, 1, 0);
    for v in [1, 2, 3, 4] {
        assert!(set.insert(v));
    }
    assert!(set.remove(&2));
    assert_eq!(set.get_buckets()[0], vec![1, 3, 4]);
    assert!(!set.remove(&2));
    assert!(!set.contains(&2));
    assert_eq!(set.len(), 3);
    assert!(set.remove(&4));
    assert!(set.remove(&1));
    assert_eq!(set.get_buckets()[0], vec![3]);
}

#[test]
fn remove_takes_the_first_of_several_matches() {
    let mut set = CustomHashSet::new(eq_near, hash_zero, 1, 0);
    assert!(set.insert(0));
    assert!(set.insert(2));
    assert!(set.insert(4));
    assert!(set.remove(&3));
    assert_eq!(set.get_buckets()[0], vec![0, 4]);
}

#[test]
fn clear_empties_and_keeps_the_buckets() {
    let mut set = CustomHashSet::new(eq_int, hash_int, 5, 1);
    for v in 0..20 {
        assert!(set.insert(v));
    }
    assert!(!set.is_empty());
    set.clear();
    assert!(set.is_empty());
    assert_eq!(set.len(), 0);
    assert_eq!(set.get_buckets().len(), 5);
    assert!(set.insert(3));
    assert!(set.contains(&3));
}

#[test]
fn rebuild_keeps_length_and_membership() {
    let mut set = CustomHashSet::new(eq_int, hash_int, 3, 1);
    let values = [0, 1, 2, 3, 4, 5, 6, 7, 8, 9, 10, 100, -5];
    for v in values {
        assert!(set.insert(v));
    }
    for buckets in [1usize, 2, 5, 50] {
        set.rebuild(buckets, 2);
        assert_eq!(set.get_buckets().len(), buckets);
        assert_eq!(set.len(), values.len());
        for v in values {
            assert!(set.contains(&v));
        }
        assert!(!set.contains(&11));
        assert!(!set.insert(4));
    }
}

#[test]
fn rebuild_redistributes_in_iteration_order() {
    let mut set = CustomHashSet::new(eq_int, hash_int, 3, 0);
    for v in [4, 3, 1, 2, 6, 5] {
        assert!(set.insert(v));
    }
    assert_eq!(set.get_buckets()[0], vec![3, 6]);
    assert_eq!(set.get_buckets()[1], vec![4, 1]);
    assert_eq!(set.get_buckets()[2], vec![2, 5]);
    set.rebuild(2, 0);
    assert_eq!(set.get_buckets()[0], vec![6, 4, 2]);
    assert_eq!(set.get_buckets()[1], vec![3, 1, 5]);
}

#[test]
fn iteration_goes_bucket_by_bucket() {
    let mut set = CustomHashSet::new(eq_int, hash_int, 4, 0);
    for v in [5, 2, 8, 9] {
        assert!(set.insert(v));
    }
    let mut seen = Vec::new();
    let mut it = set.iter();
    while let Some(v) = it.next() {
        seen.push(*v);
    }
    assert_eq!(seen, vec![8, 5, 9, 2]);
    assert!(it.next().is_none());
}

#[test]
fn iteration_of_an_empty_set_yields_nothing() {
    let set: CustomHashSet<i32, _, _> = CustomHashSet::new(eq_int, hash_int, 4, 0);
    let mut it = set.iter();
    assert!(it.next().is_none());
}

#[test]
fn difference_with_itself_is_empty() {
    let mut set = CustomHashSet::new(eq_int, hash_int, 4, 0);
    for v in [5, 2, 8, 9] {
        assert!(set.insert(v));
    }
    assert!(set.difference(&set).is_empty());
}

#[test]
fn difference_follows_bucket_order() {
    let mut a = CustomHashSet::new(eq_int, hash_int, 4, 0);
    let mut b = CustomHashSet::new(eq_int, hash_int, 7, 0);
    for v in [5, 2, 8, 9, 3] {
        assert!(a.insert(v));
    }
    for v in [9, 40, 2] {
        assert!(b.insert(v));
    }
    let diff: Vec<i32> = a.difference(&b).into_iter().copied().collect();
    assert_eq!(diff, vec![8, 5, 3]);
    let back: Vec<i32> = b.difference(&a).into_iter().copied().collect();
    assert_eq!(back, vec![40]);
    assert_eq!(a.len(), 5);
    assert_eq!(b.len(), 3);
}

#[test]
fn difference_from_an_empty_set_is_everything() {
    let mut a = CustomHashSet::new(eq_int, hash_int, 2, 0);
    let b = CustomHashSet::new(eq_int, hash_int, 2, 0);
    for v in [1, 2, 3] {
        assert!(a.insert(v));
    }
    let diff: Vec<i32> = a.difference(&b).into_iter().copied().collect();
    assert_eq!(diff, vec![2, 1, 3]);
    assert!(b.difference(&a).is_empty());
}

#[test]
fn difference_cursor_agrees_with_difference() {
    let mut a = CustomHashSet::new(eq_int, hash_int, 4, 0);
    let mut b = CustomHashSet::new(eq_int, hash_int, 3, 0);
    for v in 0..30 {
        assert!(a.insert(v));
    }
    for v in (0..30).step_by(3) {
        assert!(b.insert(v));
    }
    let eager: Vec<i32> = a.difference(&b).into_iter().copied().collect();
    let mut lazy = Vec::new();
    let mut it = a.difference_iter(&b);
    while let Some(v) = it.next() {
        lazy.push(*v);
    }
    assert_eq!(eager.len(), 20);
    assert_eq!(lazy, eager);
    assert!(it.next().is_none());
}

#[test]
fn difference_reinserted_gives_the_same_elements() {
    let mut a = CustomHashSet::new(eq_int, hash_int, 4, 0);
    let mut b = CustomHashSet::new(eq_int, hash_int, 4, 0);
    for v in [10, 11, 12, 13, 14, 15] {
        assert!(a.insert(v));
    }
    for v in [11, 13, 99] {
        assert!(b.insert(v));
    }
    let diff = a.difference(&b);
    let mut fresh = CustomHashSet::new(eq_int, hash_int, 9, 0);
    for v in &diff {
        assert!(fresh.insert(**v));
    }
    assert_eq!(fresh.len(), diff.len());
    assert_eq!(fresh.len(), 4);
    for v in [10, 12, 14, 15] {
        assert!(fresh.contains(&v));
    }
    for v in [11, 13, 99] {
        assert!(!fresh.contains(&v));
    }
}

#[test]
fn bucket_sizes_are_reported() {
    let mut set = CustomHashSet::new(eq_int, hash_tens, 4, 0);
    assert_eq!(set.largest_bucket_size(), 0);
    assert_eq!(set.smallest_bucket_size(), 0);
    assert_eq!(set.empty_buckets(), 4);
    for v in [1, 2, 3, 11, 12, 31] {
        assert!(set.insert(v));
    }
    assert_eq!(set.largest_bucket_size(), 3);
    assert_eq!(set.smallest_bucket_size(), 0);
    assert_eq!(set.empty_buckets(), 1);
    assert!(set.insert(21));
    assert_eq!(set.smallest_bucket_size(), 1);
    assert_eq!(set.empty_buckets(), 0);
}

#[test]
fn strings_are_compared_by_text() {
    let a = String::from("same");
    let b = String::from("same");
    let c = String::from("other");
    assert!(eq_string(&a, &b));
    assert!(!eq_string(&a, &c));
    assert_eq!(hash_string(&a), hash_string(&b));
}

#[test]
fn arrays_are_hashed_by_their_leading_bytes() {
    let mut data = [0u8; 32];
    data[7] = 1;
    data[6] = 2;
    data[31] = 9;
    let a = SmallArray { data };
    assert_eq!(hash_array(&a) as u64, 0x0201);
    let mut other = data;
    other[31] = 8;
    let b = SmallArray { data: other };
    assert_eq!(hash_array(&a), hash_array(&b));
    assert!(!eq_array(&a, &b));
    assert!(eq_array(&a, &SmallArray { data }));
    let mut high = [0u8; 32];
    high[0] = 0x80;
    assert_eq!(hash_array(&SmallArray { data: high }) as u64, 0x8000_0000_0000_0000);
}

#[test]
fn arrays_in_a_set() {
    let mut set = CustomHashSet::new(eq_array, hash_array, 16, 1);
    let mut first = [7u8; 32];
    let second = first;
    first[20] = 1;
    assert!(set.insert(SmallArray { data: first }));
    assert!(set.insert(SmallArray { data: second }));
    assert!(!set.insert(SmallArray { data: first }));
    assert_eq!(set.len(), 2);
    assert_eq!(set.largest_bucket_size(), 2);
}

#[test]
fn get_hash_is_the_same_for_the_same_value() {
    assert_eq!(get_hash(&"hello"), get_hash(&"hello"));
    assert_eq!(get_hash(&("hello", 99)), get_hash(&("hello", 99)));
    assert_ne!(get_hash(&("hello", 99)), get_hash(&("hello", 98)));
}
