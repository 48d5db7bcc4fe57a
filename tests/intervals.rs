use aggbgp::interval::{
    coalesce_intervals, merge_intervals_backwards_copy, merge_intervals_backwards_remove,
    merge_intervals_forwards_copy, merge_intervals_forwards_remove, merge_intervals_itertools,
};

#[test]
fn main_test() {
    let v: Vec<(u32, u32)> = vec![
        (0, 1), (1, 2), (2, 3),
        (11, 12), (13, 14), (10, 15), (11, 13),
        (20, 25), (24, 29),
    ];

    let v_ok: Vec<(u32, u32)> = vec![(0, 3), (10, 15), (20, 29)];

    let mut v_ok_rev = v_ok.clone();
    v_ok_rev.reverse();

    // Two-component keys [a, b], ordered lexicographically, written as a * 256 + b.
    let vv: Vec<(u32, u32)> = vec![
        (0 * 256 + 1, 0 * 256 + 2), (0 * 256 + 2, 0 * 256 + 3), (0 * 256 + 0, 0 * 256 + 1),
        (10 * 256 + 15, 11 * 256 + 0), (10 * 256 + 0, 10 * 256 + 16),
    ];

    let vv_ok: Vec<(u32, u32)> = vec![(0 * 256 + 0, 0 * 256 + 3), (10 * 256 + 0, 11 * 256 + 0)];

    let mut vv_ok_rev = vv_ok.clone();
    vv_ok_rev.reverse();

    assert_eq!(merge_intervals_backwards_copy(v.clone()), v_ok_rev);
    assert_eq!(merge_intervals_backwards_remove(v.clone()), v_ok);
    assert_eq!(merge_intervals_forwards_copy(v.clone()), v_ok);
    assert_eq!(merge_intervals_forwards_remove(v.clone()), v_ok);
    assert_eq!(coalesce_intervals(v.clone()), v_ok);
    assert_eq!(merge_intervals_itertools(v.clone()), v_ok);

    assert_eq!(merge_intervals_backwards_copy(vv.clone()), vv_ok_rev);
    assert_eq!(merge_intervals_backwards_remove(vv.clone()), vv_ok);
    assert_eq!(merge_intervals_forwards_copy(vv.clone()), vv_ok);
    assert_eq!(merge_intervals_forwards_remove(vv.clone()), vv_ok);
    assert_eq!(coalesce_intervals(vv.clone()), vv_ok);
    assert_eq!(merge_intervals_itertools(vv.clone()), vv_ok);

    // IPv4 addresses as their 32-bit integers.
    let ip: Vec<(u32, u32)> = vec![(0, 1), (1, 2), (2, 3)];
    let ip_ok: Vec<(u32, u32)> = vec![(0, 3)];
    let mut ip_ok_rev = ip_ok.clone();
    ip_ok_rev.reverse();

    // IPv6 addresses as their 128-bit integers.
    let ip6: Vec<(u128, u128)> = vec![(0, 1), (1, 2), (2, 3)];
    let ip6_ok: Vec<(u128, u128)> = vec![(0, 3)];
    let mut ip6_ok_rev = ip6_ok.clone();
    ip6_ok_rev.reverse();

    assert_eq!(merge_intervals_backwards_copy(ip.clone()), ip_ok_rev);
    assert_eq!(merge_intervals_backwards_remove(ip.clone()), ip_ok);
    assert_eq!(merge_intervals_forwards_copy(ip.clone()), ip_ok);
    assert_eq!(merge_intervals_forwards_remove(ip.clone()), ip_ok);
    assert_eq!(coalesce_intervals(ip.clone()), ip_ok);
    assert_eq!(merge_intervals_itertools(ip.clone()), ip_ok);

    assert_eq!(merge_intervals_backwards_copy(ip6.clone()), ip6_ok_rev);
    assert_eq!(merge_intervals_backwards_remove(ip6.clone()), ip6_ok);
    assert_eq!(merge_intervals_forwards_copy(ip6.clone()), ip6_ok);
    assert_eq!(merge_intervals_forwards_remove(ip6.clone()), ip6_ok);
    assert_eq!(coalesce_intervals(ip6.clone()), ip6_ok);
    assert_eq!(merge_intervals_itertools(ip6.clone()), ip6_ok);
}

#[test]
fn merge_empty_input_gives_empty_output() {
    let e: Vec<(u64, u64)> = Vec::new();
    assert!(merge_intervals_backwards_copy(e.clone()).is_empty());
    assert!(merge_intervals_backwards_remove(e.clone()).is_empty());
    assert!(merge_intervals_forwards_copy(e.clone()).is_empty());
    assert!(merge_intervals_forwards_remove(e.clone()).is_empty());
    assert!(coalesce_intervals(e.clone()).is_empty());
    assert!(merge_intervals_itertools(e).is_empty());
}

#[test]
fn merge_variants_agree_on_unsorted_overlaps() {
    let v: Vec<(u64, u64)> = vec![(50, 60), (5, 7), (1, 3), (7, 9), (55, 70), (3, 4), (100, 101), (0, 1)];
    let expected: Vec<(u64, u64)> = vec![(0, 4), (5, 9), (50, 70), (100, 101)];
    let mut rev = expected.clone();
    rev.reverse();
    assert_eq!(merge_intervals_forwards_copy(v.clone()), expected);
    assert_eq!(merge_intervals_forwards_remove(v.clone()), expected);
    assert_eq!(merge_intervals_backwards_remove(v.clone()), expected);
    assert_eq!(coalesce_intervals(v.clone()), expected);
    assert_eq!(merge_intervals_itertools(v.clone()), expected);
    assert_eq!(merge_intervals_backwards_copy(v), rev);
}

#[test]
fn merge_equal_starts_keeps_longest() {
    let v: Vec<(u32, u32)> = vec![(10, 12), (10, 20), (10, 11), (20, 21)];
    let expected: Vec<(u32, u32)> = vec![(10, 21)];
    assert_eq!(merge_intervals_itertools(v.clone()), expected);
    assert_eq!(merge_intervals_forwards_copy(v.clone()), expected);
    assert_eq!(merge_intervals_backwards_copy(v), expected);
}

#[test]
fn itertools_merge_changes_its_input() {
    let v: Vec<(u32, u32)> = vec![(3, 5), (1, 3)];
    assert_eq!(merge_intervals_itertools(v), vec![(1u32, 5u32)]);
}

#[test]
fn merge_keeps_intervals_with_a_gap() {
    let v: Vec<(u128, u128)> = vec![(u128::MAX - 1, u128::MAX), (0, 1), (2, 3)];
    let expected: Vec<(u128, u128)> = vec![(0, 1), (2, 3), (u128::MAX - 1, u128::MAX)];
    assert_eq!(merge_intervals_forwards_remove(v.clone()), expected);
    assert_eq!(merge_intervals_backwards_remove(v), expected);
}
