use data_structures::dfa::Dfa;

fn parity_dfa() -> Dfa {
    let transition_function = vec![
        vec![1, 0],
        vec![0, 1],
    ];
    Dfa::new(2, 2, transition_function, 0, vec![0]).unwrap()
}

#[test]
fn test_accepted1() {
    let dfa = parity_dfa();
    let input = vec![1, 1, 1];
    assert_eq!(dfa.execute(input), Ok(true));
}

#[test]
fn test_accepted2() {
    let dfa = parity_dfa();
    let input = vec![1, 0, 0];
    assert_eq!(dfa.execute(input), Ok(true));
}

#[test]
fn test_rejected1() {
    let dfa = parity_dfa();
    let input = vec![1, 0, 1];
    assert_eq!(dfa.execute(input), Ok(false));
}

#[test]
fn test_rejected2() {
    let dfa = parity_dfa();
    let input = vec![0, 0, 0, 1];
    assert_eq!(dfa.execute(input), Ok(false));
}

#[test]
fn test_language() {
    let dfa = parity_dfa();
    let input = vec![1, 0, 0];
    assert!(dfa.is_language(input));
}

#[test]
fn test_non_language() {
    let dfa = parity_dfa();
    let input = vec![0, 0, 0, 1];
    assert!(!dfa.is_language(input));
}

#[test]
fn table_of_wrong_shape_is_rejected() {
    assert!(Dfa::new(3, 2, vec![vec![0, 1], vec![1, 0]], 0, vec![0]).is_err());
    assert!(Dfa::new(2, 2, vec![vec![0, 1], vec![1]], 0, vec![0]).is_err());
    assert!(Dfa::new(0, 5, vec![], 0, vec![]).is_ok());
}

#[test]
fn letter_out_of_range_is_an_error() {
    let dfa = parity_dfa();
    assert_eq!(dfa.execute(vec![0, 2]), Err(()));
    assert!(!dfa.is_language(vec![2]));
}

#[test]
fn run_leaving_the_states_is_an_error() {
    let dfa = Dfa::new(2, 1, vec![vec![1], vec![7]], 0, vec![1]).unwrap();
    assert_eq!(dfa.execute(vec![0]), Ok(true));
    assert_eq!(dfa.execute(vec![0, 0]), Ok(false));
    assert_eq!(dfa.execute(vec![0, 0, 0]), Err(()));
    assert_eq!(dfa.execute(vec![]), Ok(false));
}
