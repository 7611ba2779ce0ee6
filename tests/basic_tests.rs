use std::fmt::Debug;

use non_contiguously_indexed_array::{NciArray, NciIndex};

const ARRAY_1: NciArray<u32, u32> = NciArray {
    segments_idx_begin: &[0, 10, 100],
    segments_mem_idx_begin: &[0, 3, 5],
    values: &[0, 1, 2, 10, 11, 100],
};

const ARRAY_2: NciArray<u32, u32> = NciArray {
    segments_idx_begin: &[100, 200, 500],
    segments_mem_idx_begin: &[0, 2, 3],
    values: &[100, 101, 200, 500, 501, 502],
};

const ARRAY_3: NciArray<i32, i32> = NciArray {
    segments_idx_begin: &[-500, -490, -400],
    segments_mem_idx_begin: &[0, 3, 5],
    values: &[-500, -499, -498, -490, -489, -400],
};

const ARRAY_4: NciArray<i32, i32> = NciArray {
    segments_idx_begin: &[-500, -2, 499],
    segments_mem_idx_begin: &[0, 2, 7],
    values: &[-500, -499, -2, -1, 0, 1, 2, 499, 500],
};

const ARRAY_5: NciArray<u128, u128> = NciArray {
    segments_idx_begin: &[0, u128::MAX / 2, u128::MAX - 1],
    segments_mem_idx_begin: &[0, 2, 4],
    values: &[0, 1, u128::MAX / 2, u128::MAX / 2 + 1, u128::MAX - 1, u128::MAX],
};

fn normal_case<I: NciIndex + Debug>(a: &NciArray<I, I>, keys: &[I]) {
    for &i in keys {
        assert_eq!(a.get(i), Some(&i));
        assert!(a.has_entry(i));
    }
}

fn edge_case<I: NciIndex + Debug>(a: &NciArray<I, I>, keys: &[I]) {
    for &i in keys {
        assert_eq!(a.get(i), None);
        assert!(!a.has_entry(i));
    }
}

fn next_normal_case<I: NciIndex + Debug>(i: I, expected: I) {
    assert_eq!(i.next(), Some(expected));
}

fn next_edge_case<I: NciIndex + Debug>(i: I) {
    assert_eq!(i.next(), None);
}

/// `lower` reaches `higher` in `expected` steps; the reverse direction has no distance.
fn distance_normal_case<I: NciIndex + Debug>(lower: I, higher: I, expected: usize) {
    assert_eq!(lower.distance(higher), Some(expected));
    if lower != higher {
        assert_eq!(higher.distance(lower), None);
    }
}

fn distance_edge_case<I: NciIndex + Debug>(first: I, second: I) {
    assert_eq!(first.distance(second), None);
    assert_eq!(second.distance(first), None);
}

fn iterator_case<I: NciIndex + Debug>(a: &NciArray<I, I>) {
    let mut entries = a.entries();
    let mut indices = a.indices();
    let mut values = a.values();
    assert_eq!(entries.len(), a.values.len());
    assert_eq!(indices.len(), a.values.len());

    let mut previous: Option<I> = None;
    let mut count = 0;
    while let (Some(entry), Some(index), Some(value)) =
        (entries.next(), indices.next(), values.next())
    {
        // Lookup agrees with iteration, and keys come in strictly increasing order.
        assert_eq!(a.get(entry.0), Some(entry.1));
        if let Some(p) = previous {
            assert!(p < index);
        }
        previous = Some(index);
        count += 1;
        assert_eq!(entry.0, index);
        assert_eq!(entry.1, value);
        assert_eq!(entry.0, *entry.1); // not generally true
    }

    assert_eq!(count, a.values.len());
    assert_eq!(entries.next(), None);
    assert_eq!(indices.next(), None);
    assert_eq!(values.next(), None);
    assert_eq!(indices.len(), 0);
}

#[test]
fn test_try() {
    let test: NciArray<u32, u32> = NciArray::new(&[0, 10, 100], &[0, 3, 5], &[0, 1, 2, 10, 11, 100]);
    println!("{:?}", test);
    assert_eq!(test.get(11), Some(&11));
}

#[test]
fn basic_tests_basic_array_test_1() {
    normal_case(&ARRAY_1, &[0, 1, 2, 10, 11, 100]);
    edge_case(&ARRAY_1, &[3, 5, 9, 55, 99, 101, 500]);
}

#[test]
fn basic_tests_basic_array_test_2() {
    normal_case(&ARRAY_2, &[100, 101, 200, 500, 501, 502]);
    edge_case(&ARRAY_2, &[0, 1, 50, 99, 102, 150, 199, 201, 350, 499, 503, 750, 999]);
}

#[test]
fn basic_array_test_3() {
    normal_case(&ARRAY_3, &[-500, -499, -498, -490, -489, -400]);
    edge_case(&ARRAY_3, &[-510, -501, -497, -495, -491, -488, -445, -401, -399, 0]);
}

#[test]
fn basic_array_test_4() {
    normal_case(&ARRAY_4, &[-500, -499, -2, -1, 0, 1, 2, 499, 500]);
    edge_case(&ARRAY_4, &[-510, -501, -498, -250, -10, -3, 3, 10, 250, 498, 501, 999]);
}

#[test]
fn basic_array_test_5() {
    normal_case(
        &ARRAY_5,
        &[0, 1, u128::MAX / 2, u128::MAX / 2 + 1, u128::MAX - 1, u128::MAX],
    );
    edge_case(
        &ARRAY_5,
        &[50, 101, u128::from(u64::MAX), u128::MAX / 2 + u128::MAX / 4, u128::MAX - 2],
    );
}

#[test]
fn basic_index_test_1() {
    next_normal_case(0u8, 1u8);
    next_normal_case(5u16, 6u16);
    next_normal_case(1000u32, 1001u32);
    next_normal_case(41u32, 42u32);
    next_normal_case(u32::MAX - 1, u32::MAX);
    next_normal_case(u64::MAX / 4, u64::MAX / 4 + 1);
    next_normal_case(u128::MAX / 2, u128::MAX / 2 + 1);
    next_edge_case(u8::MAX);
    next_edge_case(u16::MAX);
    next_edge_case(u32::MAX);
    next_edge_case(u64::MAX);
    next_edge_case(u128::MAX);

    distance_normal_case(0u32, 500, 500);
    distance_normal_case(42u32, 500, 500 - 42);
    distance_normal_case(41u32, 42, 1);
}

#[test]
fn basic_index_test_2() {
    next_normal_case(-31i8, -30i8);
    next_normal_case(-5i16, -4i16);
    next_normal_case(-500i32, -499i32);
    next_normal_case(-43i32, -42i32);
    next_normal_case(0i32, 1i32);
    next_normal_case(41i32, 42i32);
    next_normal_case(i32::MIN, i32::MIN + 1);
    next_normal_case(i32::MAX - 1, i32::MAX);
    next_normal_case(i64::MAX / 4, i64::MAX / 4 + 1);
    next_normal_case(i128::MIN, i128::MIN + 1);
    next_normal_case(i128::MAX / 2, i128::MAX / 2 + 1);
    next_edge_case(i8::MAX);
    next_edge_case(i16::MAX);
    next_edge_case(i32::MAX);
    next_edge_case(i64::MAX);
    next_edge_case(i128::MAX);

    distance_normal_case(-500i32, 500, 1000);
    distance_normal_case(-333i32, -1, 332);
    distance_normal_case(-43i32, -42, 1);
    distance_normal_case(-750i32, -500, 250);
    distance_normal_case(41i32, 42, 1);
    distance_normal_case(0i32, 500, 500);
}

#[test]
fn basic_index_test_3() {
    distance_normal_case(i8::MIN, i8::MAX, usize::from(u8::MAX));
    distance_normal_case(i16::MIN, i16::MAX, usize::from(u16::MAX));
    distance_normal_case(i32::MIN, i32::MAX, usize::try_from(u32::MAX).unwrap());
    distance_normal_case(i64::MIN, i64::MAX, usize::try_from(u64::MAX).unwrap());
    distance_edge_case(u128::MIN, u128::MAX);
    distance_edge_case(i128::MIN, i128::MAX);
    distance_edge_case(i128::from(u64::MIN), i128::from(u64::MAX) + 1);
    distance_edge_case(i128::from(i64::MIN), i128::from(i64::MAX) + 1);
}

#[test]
fn basic_iterator_test_array_1() {
    iterator_case(&ARRAY_1);
}

#[test]
fn basic_iterator_test_array_2() {
    iterator_case(&ARRAY_2);
}

#[test]
fn basic_iterator_test_array_3() {
    iterator_case(&ARRAY_3);
}

#[test]
fn basic_iterator_test_array_4() {
    iterator_case(&ARRAY_4);
}

#[test]
fn basic_array_iterator_test_5() {
    iterator_case(&ARRAY_5);
}

#[test]
fn lookup_below_first_start_on_unchecked_data() {
    // Storage starts are out of bounds, but the start keys are sorted.
    let a: NciArray<u32, u32> = NciArray::new(&[10, 20], &[0, 9], &[1, 2]);
    assert_eq!(a.get(5), None);
    assert!(!a.has_entry(5));
}

#[test]
fn iterator_without_segments_is_empty() {
    let a: NciArray<u32, u32> = NciArray::new(&[], &[], &[1, 2]);
    let mut indices = a.indices();
    assert_eq!(indices.len(), 0);
    assert_eq!(indices.next(), None);
}

#[test]
fn iterator_steps_on_unchecked_data() {
    // Not minimal: the second segment continues the first one.
    let a: NciArray<u32, u32> = NciArray::new(&[3, 5], &[0, 2], &[0, 0, 0, 0]);
    let mut indices = a.indices();
    let mut keys = Vec::new();
    while let Some(k) = indices.next() {
        keys.push(k);
    }
    assert_eq!(keys, vec![3, 4, 5, 6]);
}
