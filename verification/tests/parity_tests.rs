use homotopy::parity::{sort_2, sort_3, sort_4};

#[test]
fn sort_4_sorts_and_reports_odd_rearrangement() {
    let mut t = [3u32, 1, 2, 0];
    let even = sort_4(&mut t, |a: u32, b: u32| a.cmp(&b));
    assert_eq!(t, [0, 1, 2, 3]);
    // [3, 1, 2, 0] has five inversions.
    assert!(!even);
}

#[test]
fn sort_3_sorts_and_reports_even_rearrangement() {
    let mut t = [2u32, 0, 1];
    let even = sort_3(&mut t, |a: u32, b: u32| a.cmp(&b));
    assert_eq!(t, [0, 1, 2]);
    assert!(even);
}

#[test]
fn sort_2_keeps_equal_elements() {
    let mut t = [1u32, 1];
    assert!(sort_2(&mut t, |a: u32, b: u32| a.cmp(&b)));
    assert_eq!(t, [1, 1]);
    let mut t = [5u32, 4];
    assert!(!sort_2(&mut t, |a: u32, b: u32| a.cmp(&b)));
    assert_eq!(t, [4, 5]);
}

#[test]
fn sort_3_is_stable() {
    let mut t = [(1u32, 'a'), (0u32, 'b'), (1u32, 'c')];
    let even = sort_3(&mut t, |x: (u32, char), y: (u32, char)| x.0.cmp(&y.0));
    assert_eq!(t, [(0, 'b'), (1, 'a'), (1, 'c')]);
    assert!(!even);
}

#[test]
fn sort_4_already_sorted_is_even() {
    let mut t = [1u32, 2, 3, 4];
    assert!(sort_4(&mut t, |a: u32, b: u32| a.cmp(&b)));
    assert_eq!(t, [1, 2, 3, 4]);
}
