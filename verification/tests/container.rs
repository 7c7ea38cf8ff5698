use tiered_vec::dynamic_vec::{DynamicVec, Tier};

fn contents(v: &DynamicVec<i32>) -> Vec<i32> {
    let mut out: Vec<i32> = Vec::new();
    let mut i: usize = 0;
    while i < v.len() {
        out.push(*v.get(i));
        i += 1;
    }
    out
}

fn rank(t: Tier) -> u32 {
    match t {
        Tier::Small => 0,
        Tier::Medium => 1,
        Tier::Large => 2,
    }
}

#[test]
fn starts_empty_and_small() {
    let v: DynamicVec<i32> = DynamicVec::new();
    assert_eq!(v.len(), 0);
    assert_eq!(v.current_tier(), Tier::Small);
}

#[test]
fn tier_is_monotone_over_pushes() {
    let mut v: DynamicVec<i32> = DynamicVec::new();
    let mut last = rank(v.current_tier());
    for i in 0..100 {
        v.push(i);
        let now = rank(v.current_tier());
        assert!(last <= now);
        last = now;
    }
    assert_eq!(v.current_tier(), Tier::Large);
}

#[test]
fn fourth_push_stays_small_fifth_goes_medium() {
    let mut v: DynamicVec<i32> = DynamicVec::new();
    for i in 1..=4 {
        v.push(i);
    }
    assert_eq!(v.current_tier(), Tier::Small);
    assert_eq!(contents(&v), vec![1, 2, 3, 4]);
    v.push(5);
    assert_eq!(v.current_tier(), Tier::Medium);
    assert_eq!(contents(&v), vec![1, 2, 3, 4, 5]);
}

#[test]
fn sixteenth_push_stays_medium_seventeenth_goes_large() {
    let mut v: DynamicVec<i32> = DynamicVec::new();
    for i in 1..=16 {
        v.push(i);
    }
    assert_eq!(v.current_tier(), Tier::Medium);
    assert_eq!(contents(&v), (1..=16).collect::<Vec<i32>>());
    v.push(99);
    assert_eq!(v.current_tier(), Tier::Large);
    let mut expected: Vec<i32> = (1..=16).collect();
    expected.push(99);
    assert_eq!(contents(&v), expected);
}

#[test]
fn order_is_preserved_across_all_transitions() {
    let mut v: DynamicVec<i32> = DynamicVec::new();
    let pushed: Vec<i32> = (0..100).map(|i| i * 7 - 50).collect();
    for &x in &pushed {
        v.push(x);
    }
    assert_eq!(v.len(), pushed.len());
    assert_eq!(contents(&v), pushed);
}

#[test]
fn extend_matches_sequential_push() {
    // Straddle the Small -> Medium boundary from a non-empty start.
    let mut by_extend: DynamicVec<i32> = DynamicVec::new();
    let mut by_push: DynamicVec<i32> = DynamicVec::new();
    for i in 0..3 {
        by_extend.push(i);
        by_push.push(i);
    }
    by_extend.extend(vec![10, 11, 12]);
    for x in [10, 11, 12] {
        by_push.push(x);
    }
    assert_eq!(by_extend.current_tier(), by_push.current_tier());
    assert_eq!(contents(&by_extend), contents(&by_push));

    // Straddle the Medium -> Large boundary with one bulk append.
    let mut a: DynamicVec<i32> = DynamicVec::new();
    let mut b: DynamicVec<i32> = DynamicVec::new();
    let items: Vec<i32> = (0..20).collect();
    a.extend(items.clone());
    for &x in &items {
        b.push(x);
    }
    assert_eq!(a.current_tier(), b.current_tier());
    assert_eq!(a.current_tier(), Tier::Large);
    assert_eq!(contents(&a), contents(&b));
}

#[test]
fn extend_five_from_empty_lands_in_medium() {
    let mut v: DynamicVec<i32> = DynamicVec::new();
    v.extend(vec![1, 2, 3, 4, 5]);
    assert_eq!(v.current_tier(), Tier::Medium);
    assert_eq!(contents(&v), vec![1, 2, 3, 4, 5]);
}

#[test]
fn large_tier_is_terminal_and_grows_one_per_push() {
    let mut v: DynamicVec<i32> = DynamicVec::new();
    for i in 1..=17 {
        v.push(i);
    }
    assert_eq!(v.current_tier(), Tier::Large);
    for i in 0..500 {
        let before = v.len();
        v.push(i);
        assert_eq!(v.len(), before + 1);
        assert_eq!(v.current_tier(), Tier::Large);
    }
}

#[test]
fn extend_with_empty_input_changes_nothing() {
    let mut v: DynamicVec<i32> = DynamicVec::new();
    v.extend(vec![1, 2, 3, 4]);
    let tier_before = v.current_tier();
    let before = contents(&v);
    v.extend(Vec::new());
    assert_eq!(v.current_tier(), tier_before);
    assert_eq!(contents(&v), before);
}
