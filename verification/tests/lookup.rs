use multimarkov::{MultiMarkovModel, OBSERVATION};

fn trained() -> MultiMarkovModel<char> {
    let mut model = MultiMarkovModel::new();
    let input_vec = vec![vec!['a', 'c', 'e'], vec!['f', 'o', 'o', 'b', 'a', 'r'], vec!['b', 'a', 'z']];
    model.add_sequences(input_vec).unwrap();
    model
}

#[test]
fn best_model_prefers_the_longest_context() {
    let model = trained();
    let bestmodel = model.best_model(&vec!['b', 'a']).unwrap();
    assert!(bestmodel.contains_key(&'r'));
    assert!(!bestmodel.contains_key(&'c'));
    assert!(bestmodel.contains_key(&'z'));
    assert_eq!(bestmodel.len(), 2);
    assert_eq!(bestmodel.get(&'r'), Some(&OBSERVATION));
}

#[test]
fn best_model_backs_off_to_a_shorter_context() {
    let model = trained();
    let bestmodel = model.best_model(&vec!['x', 'a']).unwrap();
    assert!(bestmodel.contains_key(&'c'));
    assert!(bestmodel.contains_key(&'r'));
    assert!(bestmodel.contains_key(&'z'));
    assert_eq!(bestmodel.len(), 3);
    let longer = model.best_model(&vec!['q', 'q', 'q', 'o', 'b', 'a']).unwrap();
    assert_eq!(longer.len(), 1);
    assert!(longer.contains_key(&'r'));
}

#[test]
fn best_model_looks_at_no_more_symbols_than_the_order() {
    let mut model = MultiMarkovModel::with_order(1);
    model.add_sequence(vec!['f', 'o', 'o', 'b', 'a', 'r']).unwrap();
    model.add_sequence(vec!['z', 'a', 'c']).unwrap();
    let bestmodel = model.best_model(&vec!['b', 'a']).unwrap();
    assert!(bestmodel.contains_key(&'r'));
    assert!(bestmodel.contains_key(&'c'));
}

#[test]
fn an_unknown_context_gives_no_model() {
    let model = trained();
    assert!(model.best_model(&vec!['x', 'y']).is_none());
    assert!(model.best_model(&vec!['a', 'q']).is_none());
    assert!(model.best_model(&vec![]).is_none());
    assert!(model.best_model(&vec!['e']).is_none());
    assert!(model.best_model(&vec!['r']).is_none());
    let empty: MultiMarkovModel<char> = MultiMarkovModel::new();
    assert!(empty.best_model(&vec!['a']).is_none());
}

#[test]
fn an_unknown_context_gives_no_symbol() {
    let mut model = trained();
    assert_eq!(model.random_next(&vec!['x', 'y']), None);
    assert_eq!(model.random_next(&vec![]), None);
    assert_eq!(model.next_for_roll(&vec!['x', 'y'], 0), None);
    assert_eq!(model.next_for_roll(&vec![], 0), None);
}

#[test]
fn the_table_reads_like_a_map() {
    let model = trained();
    let table = model.frequencies();
    assert!(table.get(&['q']).is_none());
    assert!(!table.contains_key(&['q']));
    let followers = table.get(&['o']).unwrap();
    assert!(!followers.is_empty());
    assert_eq!(followers.get(&'o'), Some(&OBSERVATION));
    assert_eq!(followers.get(&'b'), Some(&OBSERVATION));
    assert_eq!(followers.get(&'q'), None);
    assert_eq!(followers.entry(2), None);
    let mut seen = vec![followers.entry(0).unwrap().0, followers.entry(1).unwrap().0];
    seen.sort();
    assert_eq!(seen, vec!['b', 'o']);
}
