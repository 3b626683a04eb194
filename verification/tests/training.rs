use multimarkov::{MultiMarkovModel, TrainingError, OBSERVATION};

fn weight(model: &MultiMarkovModel<char>, context: &[char], symbol: char) -> Option<u64> {
    model.frequencies().get(context).and_then(|followers| followers.get(&symbol).copied())
}

#[test]
fn add_sequences_passes_over_a_short_sequence() {
    let mut model = MultiMarkovModel::new();
    let input_vec = vec![vec!['a'], vec!['f', 'o', 'o', 'b', 'a', 'r'], vec!['b', 'a', 'z']];
    assert!(model.add_sequences(input_vec).is_ok());
    assert!(model.frequencies().contains_key(&*vec!['b']));
    assert_eq!(
        *model.frequencies().get(&*vec!['b']).unwrap().get(&'a').unwrap(),
        2 * OBSERVATION
    );
}

#[test]
fn add_sequence_records_every_context_up_to_the_order() {
    let mut model = MultiMarkovModel::new();
    assert_eq!(model.add_sequence(vec!['h', 'e', 'l', 'l', 'o']), Ok(()));
    assert!(model.frequencies().contains_key(&*vec!['l']));
    assert!(model.frequencies().contains_key(&*vec!['l', 'l']));
    assert!(model.frequencies().get(&*vec!['l']).unwrap().contains_key(&'l'));
    assert!(model.frequencies().get(&*vec!['l', 'l']).unwrap().contains_key(&'o'));
    assert!(model.frequencies().contains_key(&['h', 'e', 'l']));
    assert!(model.frequencies().contains_key(&['e', 'l', 'l']));
    assert!(!model.frequencies().contains_key(&['h', 'e', 'l', 'l']));
    assert!(!model.frequencies().contains_key(&['o']));
    assert!(!model.frequencies().contains_key(&[]));
}

#[test]
fn add_sequence_gives_exact_weights() {
    let mut model = MultiMarkovModel::new();
    model.add_sequence(vec!['h', 'e', 'l', 'l', 'o']).unwrap();
    assert_eq!(weight(&model, &['h'], 'e'), Some(1_000_000));
    assert_eq!(weight(&model, &['e'], 'l'), Some(1_000_000));
    assert_eq!(weight(&model, &['l'], 'l'), Some(1_000_000));
    assert_eq!(weight(&model, &['l'], 'o'), Some(1_000_000));
    assert_eq!(weight(&model, &['l'], 'e'), None);
    assert_eq!(weight(&model, &['h', 'e'], 'l'), Some(1_000_000));
    assert_eq!(weight(&model, &['e', 'l', 'l'], 'o'), Some(1_000_000));
    assert_eq!(model.frequencies().len(), 8);
    assert_eq!(model.frequencies().get(&['l']).unwrap().len(), 2);
    assert_eq!(model.frequencies().get(&['l']).unwrap().total_weight(), 2_000_000);
}

#[test]
fn repeated_transitions_in_one_sequence_add_up() {
    let mut model = MultiMarkovModel::new();
    model.add_sequence(vec!['a', 'b', 'a', 'b', 'a', 'b']).unwrap();
    assert_eq!(weight(&model, &['a'], 'b'), Some(3 * OBSERVATION));
    assert_eq!(weight(&model, &['b'], 'a'), Some(2 * OBSERVATION));
    assert_eq!(weight(&model, &['a', 'b'], 'a'), Some(2 * OBSERVATION));
    assert_eq!(weight(&model, &['b', 'a'], 'b'), Some(2 * OBSERVATION));
    assert_eq!(weight(&model, &['a', 'b', 'a'], 'b'), Some(2 * OBSERVATION));
    assert_eq!(weight(&model, &['b', 'a', 'b'], 'a'), Some(OBSERVATION));
}

#[test]
fn training_twice_on_one_transition_gives_two_observations() {
    let mut model = MultiMarkovModel::new();
    model.add_sequence(vec!['x', 'c', 's']).unwrap();
    model.add_sequence(vec!['y', 'c', 's', 'z']).unwrap();
    assert_eq!(weight(&model, &['c'], 's'), Some(2 * OBSERVATION));
    assert_eq!(weight(&model, &['x', 'c'], 's'), Some(OBSERVATION));
    assert_eq!(weight(&model, &['y', 'c'], 's'), Some(OBSERVATION));
}

fn same_tables(one: &MultiMarkovModel<char>, other: &MultiMarkovModel<char>) -> bool {
    let (a, b) = (one.frequencies(), other.frequencies());
    if a.len() != b.len() {
        return false;
    }
    for i in 0..a.len() {
        let context = a.context(i).unwrap();
        let (mine, theirs) = match (a.get(context), b.get(context)) {
            (Some(mine), Some(theirs)) => (mine, theirs),
            _ => return false,
        };
        if mine.len() != theirs.len() {
            return false;
        }
        for k in 0..mine.len() {
            let (symbol, weight) = mine.entry(k).unwrap();
            if theirs.get(&symbol) != Some(&weight) {
                return false;
            }
        }
    }
    true
}

#[test]
fn the_order_of_training_does_not_show_in_the_table() {
    let first = vec!['f', 'o', 'o', 'b', 'a', 'r'];
    let second = vec!['b', 'a', 'z', 'o', 'o'];
    let mut one = MultiMarkovModel::new();
    one.add_sequence(first.clone()).unwrap();
    one.add_sequence(second.clone()).unwrap();
    let mut other = MultiMarkovModel::new();
    other.add_sequence(second).unwrap();
    other.add_sequence(first).unwrap();
    assert!(same_tables(&one, &other));
    assert!(same_tables(&other, &one));
    assert_eq!(one.known_states().len(), other.known_states().len());
    for i in 0..one.known_states().len() {
        assert!(other.known_states().contains(&one.known_states().symbol(i).unwrap()));
    }
}

#[test]
fn short_sequences_are_refused_and_change_nothing() {
    let mut model: MultiMarkovModel<char> = MultiMarkovModel::new();
    assert_eq!(model.add_sequence(vec![]), Err(TrainingError::SequenceTooShort));
    assert_eq!(model.add_sequence(vec!['x']), Err(TrainingError::SequenceTooShort));
    assert!(model.frequencies().is_empty());
    assert!(model.known_states().is_empty());
    assert!(!model.known_states().contains(&'x'));

    model.add_sequence(vec!['a', 'b']).unwrap();
    assert_eq!(model.add_sequence(vec!['x']), Err(TrainingError::SequenceTooShort));
    assert_eq!(model.frequencies().len(), 1);
    assert_eq!(model.known_states().len(), 2);
    assert!(!model.known_states().contains(&'x'));
    assert_eq!(weight(&model, &['a'], 'b'), Some(OBSERVATION));
}

#[test]
fn an_empty_batch_is_refused() {
    let mut model: MultiMarkovModel<char> = MultiMarkovModel::new();
    assert_eq!(model.add_sequences(vec![]), Err(TrainingError::EmptyBatch));
    assert!(model.frequencies().is_empty());
    assert!(model.known_states().is_empty());
}

#[test]
fn a_batch_of_short_sequences_only_is_accepted_and_changes_nothing() {
    let mut model: MultiMarkovModel<char> = MultiMarkovModel::new();
    assert_eq!(model.add_sequences(vec![vec![], vec!['q']]), Ok(()));
    assert!(model.frequencies().is_empty());
    assert!(model.known_states().is_empty());
}

#[test]
fn a_batch_trains_like_its_sequences_one_by_one() {
    let mut batch = MultiMarkovModel::new();
    batch
        .add_sequences(vec![vec!['a', 'c', 'e'], vec!['z'], vec!['b', 'a', 'z'], vec!['a', 'c']])
        .unwrap();
    let mut single = MultiMarkovModel::new();
    single.add_sequence(vec!['a', 'c', 'e']).unwrap();
    single.add_sequence(vec!['b', 'a', 'z']).unwrap();
    single.add_sequence(vec!['a', 'c']).unwrap();
    assert!(same_tables(&batch, &single));
    assert!(same_tables(&single, &batch));
    assert_eq!(weight(&batch, &['a'], 'c'), Some(2 * OBSERVATION));
}

#[test]
fn every_symbol_of_a_sequence_becomes_known() {
    let mut model = MultiMarkovModel::new();
    model.add_sequence(vec!['r', 'u', 's', 't', 's']).unwrap();
    for symbol in ['r', 'u', 's', 't'] {
        assert!(model.known_states().contains(&symbol));
    }
    assert!(!model.known_states().contains(&'x'));
    assert_eq!(model.known_states().len(), 4);
    assert!(!model.known_states().is_empty());
    assert_eq!(model.known_states().symbol(4), None);
}

#[test]
fn no_context_is_longer_than_the_order() {
    let input: Vec<char> = "the quick brown fox jumps over the lazy dog".chars().collect();
    for order in 1..=6usize {
        let mut model = MultiMarkovModel::with_order(order);
        model.add_sequence(input.clone()).unwrap();
        model.add_sequence(vec!['a', 'b']).unwrap();
        model.add_priors(MultiMarkovModel::<char>::DEFAULT_PRIOR);
        assert_eq!(model.order(), order);
        let table = model.frequencies();
        assert!(!table.is_empty());
        let mut longest = 0;
        for i in 0..table.len() {
            let context = table.context(i).unwrap();
            assert!(context.len() >= 1);
            assert!(context.len() <= order);
            longest = longest.max(context.len());
        }
        assert_eq!(longest, order);
        assert!(table.context(table.len()).is_none());
    }
}

#[test]
fn the_default_order_is_three() {
    let model: MultiMarkovModel<char> = MultiMarkovModel::new();
    assert_eq!(model.order(), 3);
    assert_eq!(MultiMarkovModel::<char>::DEFAULT_ORDER, 3);
    assert_eq!(MultiMarkovModel::<char>::DEFAULT_PRIOR, 5_000);
    assert_eq!(OBSERVATION, 1_000_000);
}

#[test]
fn symbols_may_be_numbers() {
    let mut model: MultiMarkovModel<u8> = MultiMarkovModel::with_order(2);
    model.add_sequence(vec![1, 2, 3, 1, 2]).unwrap();
    let followers = model.frequencies().get(&[1]).unwrap();
    assert_eq!(followers.get(&2), Some(&(2 * OBSERVATION)));
    assert_eq!(model.frequencies().get(&[1, 2]).unwrap().get(&3), Some(&OBSERVATION));
    assert!(!model.frequencies().contains_key(&[1, 2, 3]));
    let mut signed: MultiMarkovModel<i64> = MultiMarkovModel::new();
    signed.add_sequence(vec![-1, 7, -1]).unwrap();
    assert_eq!(signed.frequencies().get(&[7]).unwrap().get(&-1), Some(&OBSERVATION));
}

#[test]
fn the_errors_name_their_reason() {
    assert_eq!(
        TrainingError::SequenceTooShort.message(),
        "sequence was too short, must contain at least two states"
    );
    assert_eq!(TrainingError::EmptyBatch.message(), "no sequences in input");
    assert_ne!(TrainingError::EmptyBatch, TrainingError::SequenceTooShort);
}
