use macroquad_toolkit::rng::{
    chance_percent, choose_multiple, choose_mut, choose_one, roll_hits, shuffle, shuffle_with, SeededRng,
};

#[test]
fn seeded_rng_is_repeatable() {
    let mut a = SeededRng::new(42);
    let mut b = SeededRng::new(42);

    assert_eq!(a.next_u64(), b.next_u64());
    assert_eq!(a.next_u64(), b.next_u64());
}

#[test]
fn seeded_rng_produces_xorshift_stream() {
    let mut rng = SeededRng::new(42);
    assert_eq!(rng.next_u64(), 590690077802032154);
    assert_eq!(rng.next_u64(), 539994873130563277);
    assert_eq!(rng.next_u64(), 886656687834640542);
    let mut zero = SeededRng::new(0);
    assert_eq!(zero.next_u64(), 973819730272012410);
}

#[test]
fn chance_percent_saturates() {
    for _ in 0..50 {
        assert!(!chance_percent(0));
        assert!(!chance_percent(-20));
        assert!(chance_percent(100));
        assert!(chance_percent(250));
    }
}

#[test]
fn shuffle_keeps_the_elements() {
    let mut values: Vec<u32> = (0..20).collect();
    shuffle(&mut values);
    assert_eq!(values.len(), 20);
    let mut sorted = values.clone();
    sorted.sort();
    assert_eq!(sorted, (0..20).collect::<Vec<u32>>());
    let mut empty: Vec<u32> = Vec::new();
    shuffle(&mut empty);
    assert!(empty.is_empty());
}

#[test]
fn choose_one_picks_a_member() {
    let empty: [i32; 0] = [];
    assert_eq!(choose_one(&empty), None);
    assert_eq!(choose_one(&[7]), Some(&7));
    for _ in 0..20 {
        let v = *choose_one(&[1, 2, 3]).unwrap();
        assert!((1..=3).contains(&v));
    }
}

#[test]
fn choose_mut_writes_into_the_slice() {
    let mut values = [5];
    *choose_mut(&mut values).unwrap() = 9;
    assert_eq!(values, [9]);
    let mut none: [i32; 0] = [];
    assert!(choose_mut(&mut none).is_none());
}

#[test]
fn choose_multiple_takes_distinct_positions() {
    let values = [10, 20, 30, 40];
    let picked = choose_multiple(&values, 3);
    assert_eq!(picked.len(), 3);
    let mut seen: Vec<i32> = picked.iter().map(|v| **v).collect();
    seen.sort();
    seen.dedup();
    assert_eq!(seen.len(), 3);
    assert_eq!(choose_multiple(&values, 10).len(), 4);
    assert!(choose_multiple(&values, 0).is_empty());
    let empty: [i32; 0] = [];
    assert!(choose_multiple(&empty, 2).is_empty());
}

#[test]
fn rolls_hit_under_the_clamped_percentage() {
    assert!(roll_hits(0, 1));
    assert!(!roll_hits(1, 1));
    assert!(roll_hits(99, 100));
    assert!(roll_hits(99, 500));
    assert!(!roll_hits(0, 0));
    assert!(!roll_hits(0, -7));
    assert!(roll_hits(49, 50));
    assert!(!roll_hits(50, 50));
}

#[test]
fn shuffle_with_applies_the_draws_from_the_back() {
    let mut values = [1, 2, 3];
    shuffle_with(&mut values, &[0, 0]);
    assert_eq!(values, [2, 3, 1]);
    let mut same = [1, 2, 3];
    shuffle_with(&mut same, &[2, 1]);
    assert_eq!(same, [1, 2, 3]);
    let mut four = [10, 20, 30, 40];
    shuffle_with(&mut four, &[1, 2, 0]);
    assert_eq!(four, [40, 10, 30, 20]);
}
