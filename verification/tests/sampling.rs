use multimarkov::{MultiMarkovModel, OBSERVATION};

fn three_to_one() -> MultiMarkovModel<char> {
    let mut model = MultiMarkovModel::with_order(1);
    for _ in 0..3 {
        model.add_sequence(vec!['a', 'b']).unwrap();
    }
    model.add_sequence(vec!['a', 'c']).unwrap();
    model
}

#[test]
fn a_roll_falls_on_the_entry_whose_share_holds_it() {
    let model = three_to_one();
    let query = vec!['a'];
    let followers = model.best_model(&query).unwrap();
    assert_eq!(followers.len(), 2);
    assert_eq!(followers.get(&'b'), Some(&(3 * OBSERVATION)));
    assert_eq!(followers.get(&'c'), Some(&OBSERVATION));
    assert_eq!(followers.total_weight(), 4_000_000);
    let (first, first_weight) = followers.entry(0).unwrap();
    let (second, second_weight) = followers.entry(1).unwrap();
    assert_ne!(first, second);
    let edge = first_weight as u128;
    assert_eq!(edge + second_weight as u128, 4_000_000);
    assert_eq!(model.next_for_roll(&query, 0), Some(first));
    assert_eq!(model.next_for_roll(&query, edge - 1), Some(first));
    assert_eq!(model.next_for_roll(&query, edge), Some(second));
    assert_eq!(model.next_for_roll(&query, 3_999_999), Some(second));
    assert_eq!(model.next_for_roll(&query, 4_000_000), None);
    assert_eq!(model.next_for_roll(&query, u128::MAX), None);
    assert_eq!(followers.pick(123_456), Some(first));
    assert_eq!(followers.pick(edge + 500_000), Some(second));
    assert_eq!(followers.pick(4_000_000), None);
}

#[test]
fn every_symbol_is_chosen_by_as_many_rolls_as_its_weight() {
    let mut model = MultiMarkovModel::with_order(1);
    model.add_sequence(vec!['a', 'b']).unwrap();
    model.add_sequence(vec!['c', 'd']).unwrap();
    model.add_priors(250);
    let query = vec!['a'];
    let followers = model.best_model(&query).unwrap();
    let total = followers.total_weight();
    assert_eq!(total, 1_000_750);
    let mut counts = std::collections::HashMap::new();
    for roll in 0..total {
        let symbol = model.next_for_roll(&query, roll).unwrap();
        *counts.entry(symbol).or_insert(0u64) += 1;
    }
    assert_eq!(counts.len(), 4);
    for symbol in ['a', 'b', 'c', 'd'] {
        assert_eq!(counts[&symbol], *followers.get(&symbol).unwrap());
    }
    assert_eq!(counts[&'b'], OBSERVATION);
    assert_eq!(counts[&'a'], 250);
}

#[test]
fn a_symbol_without_weight_is_never_chosen() {
    let mut model = MultiMarkovModel::with_order(1);
    model.add_sequence(vec!['z', 'a']).unwrap();
    model.add_priors(0);
    model.add_sequence(vec!['a', 'b']).unwrap();
    model.add_priors(0);
    let query = vec!['z'];
    let followers = model.best_model(&query).unwrap();
    assert_eq!(followers.get(&'z'), Some(&0));
    assert_eq!(followers.total_weight(), OBSERVATION as u128);
    for roll in [0u128, 1, 500_000, 999_999] {
        assert_eq!(model.next_for_roll(&query, roll), Some('a'));
    }
    for _ in 0..200 {
        assert_eq!(model.random_next(&query), Some('a'));
    }
}

#[test]
fn random_next_draws_in_proportion_to_the_weights() {
    let mut model = three_to_one();
    let query = vec!['x', 'a'];
    let draws = 40_000;
    let mut b = 0u32;
    let mut c = 0u32;
    for _ in 0..draws {
        match model.random_next(&query) {
            Some('b') => b += 1,
            Some('c') => c += 1,
            other => panic!("drew {:?}", other),
        }
    }
    let share_b = b as f64 / draws as f64;
    let share_c = c as f64 / draws as f64;
    assert!((share_b - 0.75).abs() < 0.02);
    assert!((share_c - 0.25).abs() < 0.02);
}

#[test]
fn random_next_always_finds_a_symbol_after_a_known_context() {
    let mut model = MultiMarkovModel::new();
    model.add_sequence(vec!['h', 'e', 'l', 'l', 'o']).unwrap();
    model.add_priors(MultiMarkovModel::<char>::DEFAULT_PRIOR);
    let before = model.frequencies().len();
    for _ in 0..2_000 {
        let next = model.random_next(&vec!['h', 'e', 'l']).unwrap();
        assert!(model.known_states().contains(&next));
    }
    let only = model.random_next(&vec!['x', 'h']);
    assert!(only.is_some());
    assert_eq!(model.frequencies().len(), before);
}

#[test]
fn random_next_with_one_follower_returns_it() {
    let mut model = MultiMarkovModel::new();
    model.add_sequence(vec!['a', 'b']).unwrap();
    for _ in 0..100 {
        assert_eq!(model.random_next(&vec!['a']), Some('b'));
    }
}

#[test]
fn a_total_beyond_sixty_four_bits_is_drawn_from() {
    let mut model = MultiMarkovModel::with_order(1);
    model.add_sequence(vec!['a', 'b', 'c', 'd']).unwrap();
    model.add_priors(u64::MAX);
    let query = vec!['a'];
    let followers = model.best_model(&query).unwrap();
    let total = followers.total_weight();
    assert_eq!(total, 3 * (u64::MAX as u128) + OBSERVATION as u128);
    assert_eq!(followers.len(), 4);
    assert_eq!(followers.pick(total - 1), followers.entry(3).map(|entry| entry.0));
    assert_eq!(followers.pick(total), None);
    assert_eq!(followers.pick(0), followers.entry(0).map(|entry| entry.0));
    let first_weight = followers.entry(0).unwrap().1 as u128;
    assert_eq!(followers.pick(first_weight), followers.entry(1).map(|entry| entry.0));
    assert_eq!(followers.pick(first_weight - 1), followers.entry(0).map(|entry| entry.0));
    for _ in 0..100 {
        assert!(model.random_next(&query).is_some());
    }
}
