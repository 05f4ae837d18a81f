use fftools::environment::{canonical_copy, canonicalize, matches_reference, reversed, same_atoms};

#[test]
fn canonicalize_keeps_an_ascending_tuple() {
    assert_eq!(canonicalize(vec![1, 5, 7, 9]), vec![1, 5, 7, 9]);
}

#[test]
fn canonicalize_reverses_a_descending_tuple() {
    assert_eq!(canonicalize(vec![9, 5, 7, 1]), vec![1, 7, 5, 9]);
}

#[test]
fn canonicalize_keeps_a_single_atom() {
    assert_eq!(canonicalize(vec![4]), vec![4]);
}

#[test]
fn canonicalize_keeps_a_tuple_with_equal_ends() {
    assert_eq!(canonicalize(vec![1, 2, 3, 1]), vec![1, 2, 3, 1]);
    assert_eq!(canonicalize(vec![1, 3, 2, 1]), vec![1, 3, 2, 1]);
}

#[test]
fn canonicalize_is_idempotent() {
    for env in [vec![3, 2, 1, 0], vec![0, 1, 2, 3], vec![5, 5], vec![2, 9, 1]] {
        let once = canonicalize(env);
        let twice = canonicalize(once.clone());
        assert_eq!(once, twice);
    }
}

#[test]
fn canonicalize_ignores_the_direction_of_the_match() {
    for env in [vec![3, 2, 1, 0], vec![0, 1, 2, 3], vec![7, 4], vec![1, 2, 1], vec![6]] {
        let forward = canonicalize(env.clone());
        let backward = canonicalize(reversed(&env));
        assert_eq!(forward, backward);
    }
}

#[test]
fn canonical_copy_leaves_the_match_alone() {
    let env = vec![8, 3, 2];
    assert_eq!(canonical_copy(&env), vec![2, 3, 8]);
    assert_eq!(env, vec![8, 3, 2]);
    assert_eq!(canonical_copy(&vec![2, 3, 8]), vec![2, 3, 8]);
}

#[test]
fn reversed_turns_the_tuple_round() {
    assert_eq!(reversed(&vec![1, 2, 3]), vec![3, 2, 1]);
    assert_eq!(reversed(&Vec::new()), Vec::<usize>::new());
}

#[test]
fn same_atoms_compares_index_by_index() {
    assert!(same_atoms(&vec![1, 2, 3], &vec![1, 2, 3]));
    assert!(!same_atoms(&vec![1, 2, 3], &vec![3, 2, 1]));
    assert!(!same_atoms(&vec![1, 2], &vec![1, 2, 3]));
    assert!(same_atoms(&Vec::new(), &Vec::new()));
}

#[test]
fn matches_reference_in_both_directions() {
    assert!(matches_reference(&vec![1, 2, 3, 4], &vec![1, 2, 3, 4]));
    assert!(matches_reference(&vec![4, 3, 2, 1], &vec![1, 2, 3, 4]));
    assert!(!matches_reference(&vec![1, 3, 2, 4], &vec![1, 2, 3, 4]));
    assert!(!matches_reference(&vec![1, 2, 3], &vec![1, 2, 3, 4]));
}
