use sort_const::{
    check_gaps, quicksort, quicksort_with_depth, shellsort, shellsort_with_gaps, DepthExceeded,
    GapTableError, Wrapper, DEFAULT_GAPS,
};

#[derive(Debug)]
struct Foo(u8);

fn lt(a: &u8, b: &u8) -> bool {
    *a < *b
}

fn interleaved(n: usize) -> Vec<u32> {
    let mut data = vec![0u32; n];
    let mut i = 0;
    while i < n {
        if i & 1 == 0 {
            data[i] = i as u32;
        }
        i += 1;
    }
    data
}

fn ascending_copy(data: &[u32]) -> Vec<u32> {
    let mut v = data.to_vec();
    v.sort();
    v
}

#[test]
fn test_u8() {
    let mut w = Wrapper([3u8, 2, 1]);
    quicksort(w.as_mut_slice(), |a: &u8, b: &u8| a < b);
    assert_eq!(w.0, [1, 2, 3]);
}

#[test]
fn test_u8_fn() {
    let mut w = Wrapper([3u8, 2, 1]);
    quicksort(w.as_mut_slice(), lt);
    assert_eq!(w.0, [1, 2, 3]);
}

#[test]
fn test_foo() {
    let mut foos = Wrapper([Foo(1), Foo(2), Foo(4), Foo(3)]);
    quicksort(foos.as_mut_slice(), |a: &Foo, b: &Foo| a.0 > b.0);
    assert!(foos.0.iter().map(|v| v.0).eq([4, 3, 2, 1]));

    let mut foo = [Foo(1), Foo(2), Foo(4), Foo(3)];
    let mut part = Wrapper(foo.split_last_mut().expect("failed").1);
    quicksort(part.as_mut_slice(), |a: &Foo, b: &Foo| a.0 > b.0);
    assert!(foo.iter().map(|v| v.0).eq([4, 2, 1, 3]));
}

#[test]
fn quick_three_elements() {
    let mut a = [3u8, 1, 2];
    quicksort(&mut a, |a: &u8, b: &u8| a < b);
    assert_eq!(a, [1, 2, 3]);
}

#[test]
fn quick_descending_predicate() {
    let mut a = [1u8, 2, 4, 3];
    quicksort(&mut a, |a: &u8, b: &u8| a > b);
    assert_eq!(a, [4, 3, 2, 1]);
}

#[test]
fn both_engines_ten_elements() {
    let input = [1u8, 2, 3, 6, 5, 4, 7, 8, 9, 0];
    let mut q = input;
    let mut s = input;
    quicksort(&mut q, |a: &u8, b: &u8| a < b);
    shellsort(&mut s, |a: &u8, b: &u8| a < b);
    assert_eq!(q, [0, 1, 2, 3, 4, 5, 6, 7, 8, 9]);
    assert_eq!(s, [0, 1, 2, 3, 4, 5, 6, 7, 8, 9]);
}

#[test]
fn shell_twenty_thousand() {
    let mut data = interleaved(20_000);
    let expected = ascending_copy(&data);
    shellsort(&mut data, |a: &u32, b: &u32| a < b);
    assert_eq!(data, expected);
    assert!(data.windows(2).all(|p| p[0] <= p[1]));
    assert_eq!(data[19_999], 19_998);
}

#[test]
fn quick_depth_twelve_suffices() {
    let mut data = interleaved(3625);
    let expected = ascending_copy(&data);
    let r = quicksort_with_depth(&mut data, |a: &u32, b: &u32| a < b, 12);
    assert_eq!(r, Ok(()));
    assert_eq!(data, expected);
}

#[test]
fn quick_depth_one_fails() {
    let mut a = [1u8, 2, 3, 6, 5, 4, 7, 8, 9, 0];
    let r = quicksort_with_depth(&mut a, |a: &u8, b: &u8| a < b, 1);
    assert_eq!(r, Err(DepthExceeded));
    let mut sorted = a;
    sorted.sort();
    assert_eq!(sorted, [0, 1, 2, 3, 4, 5, 6, 7, 8, 9]);
}

#[test]
fn quick_depth_zero_fails_from_two_elements() {
    let mut a = [2u8, 1];
    assert_eq!(quicksort_with_depth(&mut a, |a: &u8, b: &u8| a < b, 0), Err(DepthExceeded));
}

#[test]
fn empty_and_single_are_left_alone() {
    let mut e: [u8; 0] = [];
    assert_eq!(quicksort_with_depth(&mut e, |a: &u8, b: &u8| a < b, 0), Ok(()));
    shellsort(&mut e, |a: &u8, b: &u8| a < b);
    let mut one = [7u8];
    assert_eq!(quicksort_with_depth(&mut one, |a: &u8, b: &u8| a < b, 0), Ok(()));
    shellsort(&mut one, |a: &u8, b: &u8| a < b);
    assert_eq!(one, [7]);
}

#[test]
fn two_elements_are_ordered() {
    let mut a = [9u8, 4];
    quicksort(&mut a, |a: &u8, b: &u8| a < b);
    assert_eq!(a, [4, 9]);
    let mut b = [4u8, 9];
    quicksort(&mut b, |a: &u8, b: &u8| a < b);
    assert_eq!(b, [4, 9]);
    let mut c = [9u8, 4];
    shellsort(&mut c, |a: &u8, b: &u8| a < b);
    assert_eq!(c, [4, 9]);
}

#[test]
fn sorting_sorted_input_changes_nothing() {
    // equal keys carry distinct tags, so any exchange would show
    let input = [(1u8, 'a'), (1, 'b'), (2, 'c'), (2, 'd'), (2, 'e'), (5, 'f'), (7, 'g')];
    let mut q = input;
    quicksort(&mut q, |a: &(u8, char), b: &(u8, char)| a.0 < b.0);
    assert_eq!(q, input);
    let mut s = input;
    shellsort(&mut s, |a: &(u8, char), b: &(u8, char)| a.0 < b.0);
    assert_eq!(s, input);
}

#[test]
fn sorting_twice_gives_the_same() {
    let mut a = [(3u8, 0u8), (1, 1), (3, 2), (2, 3), (1, 4), (3, 5), (0, 6), (2, 7)];
    quicksort(&mut a, |a: &(u8, u8), b: &(u8, u8)| a.0 < b.0);
    let once = a;
    quicksort(&mut a, |a: &(u8, u8), b: &(u8, u8)| a.0 < b.0);
    assert_eq!(a, once);
    shellsort(&mut a, |a: &(u8, u8), b: &(u8, u8)| a.0 < b.0);
    assert_eq!(a, once);
}

#[test]
fn permutation_is_kept() {
    let input = [5u16, 3, 5, 1, 9, 3, 3, 0, 9, 2, 5];
    let mut q = input;
    quicksort(&mut q, |a: &u16, b: &u16| a < b);
    let mut s = input;
    shellsort(&mut s, |a: &u16, b: &u16| a < b);
    let mut expected = input;
    expected.sort();
    assert_eq!(q, expected);
    assert_eq!(s, expected);
}

#[test]
fn adversarial_inputs_stay_within_log_depth() {
    // below 2^13 elements, 13 pending sub-problems always suffice
    let n = 1usize << 12;
    let mut asc: Vec<u32> = (0..n as u32).collect();
    assert_eq!(quicksort_with_depth(&mut asc, |a: &u32, b: &u32| a < b, 13), Ok(()));
    let mut desc: Vec<u32> = (0..n as u32).rev().collect();
    assert_eq!(quicksort_with_depth(&mut desc, |a: &u32, b: &u32| a < b, 13), Ok(()));
    assert!(desc.windows(2).all(|p| p[0] <= p[1]));
}

#[test]
fn scrambled_input_within_log_depth() {
    // below 2^17 elements, 17 pending sub-problems always suffice
    let n = 1usize << 16;
    let mut x: u32 = 12345;
    let mut data: Vec<u32> = Vec::new();
    for _ in 0..n {
        x = x.wrapping_mul(1103515245).wrapping_add(12345);
        data.push(x >> 8);
    }
    let expected = ascending_copy(&data);
    assert_eq!(quicksort_with_depth(&mut data, |a: &u32, b: &u32| a < b, 17), Ok(()));
    assert_eq!(data, expected);
}

#[test]
fn custom_gap_table_sorts() {
    let mut a = [8u8, 7, 6, 5, 4, 3, 2, 1, 0];
    assert_eq!(shellsort_with_gaps(&mut a, |a: &u8, b: &u8| a < b, &[1, 3, 7]), Ok(()));
    assert_eq!(a, [0, 1, 2, 3, 4, 5, 6, 7, 8]);
}

#[test]
fn malformed_gap_tables_are_refused() {
    let input = [3u8, 1, 2];
    let mut a = input;
    assert_eq!(shellsort_with_gaps(&mut a, |a: &u8, b: &u8| a < b, &[]), Err(GapTableError::Empty));
    assert_eq!(a, input);
    assert_eq!(
        shellsort_with_gaps(&mut a, |a: &u8, b: &u8| a < b, &[2, 4]),
        Err(GapTableError::FirstNotOne)
    );
    assert_eq!(a, input);
    assert_eq!(
        shellsort_with_gaps(&mut a, |a: &u8, b: &u8| a < b, &[1, 4, 4]),
        Err(GapTableError::NotAscending)
    );
    assert_eq!(a, input);
    assert_eq!(check_gaps(&[1, 9, 3]), Err(GapTableError::NotAscending));
    assert_eq!(check_gaps(&DEFAULT_GAPS), Ok(()));
}

#[test]
fn wrapper_over_mutable_slice_and_array() {
    let mut arr = [5i32, -1, 3];
    let mut w = Wrapper(&mut arr);
    shellsort(w.as_mut_slice(), |a: &i32, b: &i32| a < b);
    assert_eq!(arr, [-1, 3, 5]);

    let mut v = vec![4i32, 2, 8, 6];
    let mut ws = Wrapper(&mut v[1..]);
    quicksort(ws.as_mut_slice(), |a: &i32, b: &i32| a < b);
    assert_eq!(v, [4, 2, 6, 8]);
}

#[test]
fn depth_one_suffices_when_every_pivot_is_largest() {
    // each partition leaves its right side empty, so only one sub-problem waits
    let mut a = [5u8, 1, 2, 3, 4];
    assert_eq!(quicksort_with_depth(&mut a, |a: &u8, b: &u8| a < b, 1), Ok(()));
    assert_eq!(a, [1, 2, 3, 4, 5]);
}
