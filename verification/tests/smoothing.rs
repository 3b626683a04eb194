use multimarkov::{MultiMarkovModel, OBSERVATION};

#[test]
fn add_priors_fills_gaps_and_keeps_what_was_observed() {
    let mut model = MultiMarkovModel::new();
    model.add_sequence(vec!['a', 'b', 'c']).unwrap();
    model.add_priors(MultiMarkovModel::<char>::DEFAULT_PRIOR);
    assert_eq!(*model.frequencies().get(&*vec!['a']).unwrap().get(&'b').unwrap(), OBSERVATION);
    assert_eq!(*model.frequencies().get(&*vec!['b']).unwrap().get(&'a').unwrap(), 5_000);
}

#[test]
fn add_priors_adds_no_context() {
    let mut model = MultiMarkovModel::new();
    model.add_sequence(vec!['a', 'b', 'c']).unwrap();
    let before = model.frequencies().len();
    model.add_priors(7);
    assert_eq!(model.frequencies().len(), before);
    assert!(!model.frequencies().contains_key(&['c']));
    for i in 0..model.frequencies().len() {
        let context = model.frequencies().context(i).unwrap();
        let followers = model.frequencies().get(context).unwrap();
        assert_eq!(followers.len(), 3);
        for symbol in ['a', 'b', 'c'] {
            assert!(followers.contains_key(&symbol));
        }
    }
    assert_eq!(model.known_states().len(), 3);
}

#[test]
fn a_second_smoothing_overwrites_nothing() {
    let mut model = MultiMarkovModel::new();
    model.add_sequence(vec!['a', 'b', 'c']).unwrap();
    model.add_priors(5_000);
    model.add_priors(9);
    let followers = model.frequencies().get(&['a']).unwrap();
    assert_eq!(followers.get(&'b'), Some(&OBSERVATION));
    assert_eq!(followers.get(&'a'), Some(&5_000));
    assert_eq!(followers.get(&'c'), Some(&5_000));
    assert_eq!(followers.total_weight(), 1_010_000);
}

#[test]
fn a_later_smoothing_fills_only_what_is_new() {
    let mut model = MultiMarkovModel::new();
    model.add_sequence(vec!['a', 'b']).unwrap();
    model.add_priors(5_000);
    model.add_sequence(vec!['a', 'd']).unwrap();
    model.add_priors(9);
    let followers = model.frequencies().get(&['a']).unwrap();
    assert_eq!(followers.get(&'a'), Some(&5_000));
    assert_eq!(followers.get(&'b'), Some(&OBSERVATION));
    assert_eq!(followers.get(&'d'), Some(&OBSERVATION));
}

#[test]
fn training_after_smoothing_adds_to_the_prior() {
    let mut model = MultiMarkovModel::new();
    model.add_sequence(vec!['a', 'b', 'c']).unwrap();
    model.add_priors(5_000);
    model.add_sequence(vec!['b', 'a']).unwrap();
    assert_eq!(model.frequencies().get(&['b']).unwrap().get(&'a'), Some(&1_005_000));
}

#[test]
fn a_prior_of_zero_lists_the_symbol_with_no_weight() {
    let mut model = MultiMarkovModel::new();
    model.add_sequence(vec!['a', 'b', 'c']).unwrap();
    model.add_priors(0);
    let followers = model.frequencies().get(&['a']).unwrap();
    assert_eq!(followers.get(&'c'), Some(&0));
    assert_eq!(followers.total_weight(), 1_000_000);
}

#[test]
fn a_weight_stays_at_the_largest_value() {
    let mut model = MultiMarkovModel::new();
    model.add_sequence(vec!['a', 'b', 'c']).unwrap();
    model.add_priors(u64::MAX - 1);
    model.add_sequence(vec!['a', 'c']).unwrap();
    let followers = model.frequencies().get(&['a']).unwrap();
    assert_eq!(followers.get(&'c'), Some(&u64::MAX));
    assert_eq!(followers.get(&'a'), Some(&(u64::MAX - 1)));
    assert_eq!(followers.get(&'b'), Some(&OBSERVATION));
    assert_eq!(
        followers.total_weight(),
        u64::MAX as u128 + (u64::MAX - 1) as u128 + OBSERVATION as u128
    );
    model.add_sequence(vec!['a', 'c']).unwrap();
    assert_eq!(model.frequencies().get(&['a']).unwrap().get(&'c'), Some(&u64::MAX));
}
