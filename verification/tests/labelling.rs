use fftools::assignment::{resolve, Assignment};
use fftools::label_molecule;
use fftools::parameter_map::{ParameterMap, Rejected};
use fftools::string_set::StringSet;

fn s(text: &str) -> String {
    text.to_string()
}

fn map(ids: &[&str]) -> ParameterMap {
    ParameterMap::new(ids.iter().map(|id| (s(id), format!("[*:1]~[*:2] {id}"))).collect())
}

#[test]
fn parameter_map_keeps_the_order_of_the_force_field() {
    let params = map(&["t1", "t2", "t3"]);
    assert_eq!(params.len(), 3);
    assert!(!params.is_empty());
    assert_eq!(params.keys(), vec![s("t1"), s("t2"), s("t3")]);
    assert_eq!(params.id(1), "t2");
    assert_eq!(params.pattern(2), "[*:1]~[*:2] t3");
}

#[test]
fn parameter_map_may_be_empty() {
    let params = ParameterMap::new(Vec::new());
    assert_eq!(params.len(), 0);
    assert!(params.is_empty());
    assert!(params.keys().is_empty());
    assert!(params.label_molecule(&Vec::new()).is_empty());
}

#[test]
fn build_accepts_a_force_field_whose_patterns_compile() {
    let built = ParameterMap::build(vec![
        (s("b1"), s("[#6:1]-[#6:2]"), true),
        (s("b2"), s("[#6:1]=[#6:2]"), true),
    ]);
    let params = built.ok().unwrap();
    assert_eq!(params.keys(), vec![s("b1"), s("b2")]);
    assert_eq!(params.pattern(0), "[#6:1]-[#6:2]");
}

#[test]
fn build_names_the_first_rejected_pattern() {
    let built = ParameterMap::build(vec![
        (s("b1"), s("[#6:1]-[#6:2]"), true),
        (s("b2"), s("[#6:1]-[#6:2"), false),
        (s("b3"), s("]"), false),
    ]);
    assert_eq!(built.err(), Some(Rejected { id: s("b2"), pattern: s("[#6:1]-[#6:2") }));
}

#[test]
fn match_molecule_lists_matches_pattern_by_pattern() {
    let params = map(&["t1", "t2"]);
    let found = vec![vec![vec![3, 2, 1, 0], vec![4, 5, 6, 7]], vec![vec![0, 1, 2, 3]]];
    assert_eq!(
        params.match_molecule(&found),
        vec![
            (vec![0, 1, 2, 3], s("t1")),
            (vec![4, 5, 6, 7], s("t1")),
            (vec![0, 1, 2, 3], s("t2")),
        ]
    );
}

#[test]
fn match_molecule_skips_matches_that_name_no_environment() {
    let params = map(&["t1"]);
    let found = vec![vec![vec![], vec![5], vec![2, 1]]];
    assert_eq!(params.match_molecule(&found), vec![(vec![1, 2], s("t1"))]);
}

#[test]
fn match_molecule_takes_a_pattern_without_matches_as_unmatched() {
    let params = map(&["t1", "t2", "t3"]);
    let found = vec![vec![vec![1, 2]], vec![]];
    assert_eq!(params.match_molecule(&found), vec![(vec![1, 2], s("t1"))]);
    let more = vec![vec![], vec![], vec![], vec![vec![1, 2]]];
    assert!(params.match_molecule(&more).is_empty());
}

#[test]
fn label_molecule_assigns_the_single_match() {
    let params = map(&["b1"]);
    let labels = params.label_molecule(&vec![vec![vec![0, 1]]]);
    assert_eq!(labels.len(), 1);
    assert_eq!(labels.entries(), &vec![(vec![0, 1], s("b1"))]);
    assert_eq!(labels.get(&vec![0, 1]), Some(&s("b1")));
    assert_eq!(labels.get(&vec![1, 0]), Some(&s("b1")));
    assert_eq!(labels.get(&vec![0, 2]), None);
}

#[test]
fn label_molecule_lets_the_later_parameter_win() {
    let params = map(&["generic", "specific"]);
    let found = vec![vec![vec![0, 1, 2, 3], vec![4, 5, 6, 7]], vec![vec![3, 2, 1, 0]]];
    let labels = params.label_molecule(&found);
    assert_eq!(
        labels.entries(),
        &vec![(vec![0, 1, 2, 3], s("specific")), (vec![4, 5, 6, 7], s("generic"))]
    );
}

#[test]
fn label_molecule_depends_on_the_order_of_the_parameters() {
    let found_ab = vec![vec![vec![0, 1]], vec![vec![0, 1]]];
    let ab = map(&["a", "b"]).label_molecule(&found_ab);
    let ba = map(&["b", "a"]).label_molecule(&found_ab);
    assert_eq!(ab.get(&vec![0, 1]), Some(&s("b")));
    assert_eq!(ba.get(&vec![0, 1]), Some(&s("a")));
}

#[test]
fn label_molecule_is_deterministic() {
    let params = map(&["t1", "t2", "t3"]);
    let found = vec![
        vec![vec![0, 1, 2, 3], vec![7, 6, 5, 4]],
        vec![vec![3, 2, 1, 0]],
        vec![vec![4, 5, 6, 7], vec![8, 9, 10, 11]],
    ];
    let once = params.label_molecule(&found);
    let again = params.label_molecule(&found);
    assert_eq!(once.entries(), again.entries());
    assert_eq!(once.len(), 3);
}

#[test]
fn label_molecule_as_a_function_agrees_with_the_method() {
    let params = map(&["t1", "t2"]);
    let found = vec![vec![vec![2, 1]], vec![vec![5, 9], vec![1, 2]]];
    assert_eq!(
        label_molecule(&found, &params).entries(),
        params.label_molecule(&found).entries()
    );
}

#[test]
fn no_environment_is_labelled_twice() {
    let params = map(&["t1", "t2"]);
    let found = vec![vec![vec![0, 1, 2], vec![2, 1, 0]], vec![vec![2, 1, 0], vec![0, 1, 2]]];
    let labels = params.label_molecule(&found);
    assert_eq!(labels.entries(), &vec![(vec![0, 1, 2], s("t2"))]);
}

#[test]
fn assignment_insert_overwrites() {
    let mut labels = Assignment::new();
    assert!(labels.is_empty());
    labels.insert(vec![5, 2], s("first"));
    labels.insert(vec![7, 8], s("other"));
    labels.insert(vec![2, 5], s("second"));
    assert_eq!(labels.len(), 2);
    assert_eq!(labels.entries(), &vec![(vec![2, 5], s("second")), (vec![7, 8], s("other"))]);
}

#[test]
fn assignment_get_of_no_atoms_is_none() {
    let mut labels = Assignment::new();
    labels.insert(vec![3], s("single"));
    assert_eq!(labels.get(&Vec::new()), None);
    assert_eq!(labels.get(&vec![3]), Some(&s("single")));
}

#[test]
fn resolve_keeps_the_last_pair_of_each_environment() {
    let labels = resolve(vec![
        (vec![1, 0], s("a")),
        (vec![2, 3], s("b")),
        (vec![0, 1], s("c")),
        (vec![3, 2], s("d")),
        (vec![4, 5], s("a")),
    ]);
    assert_eq!(
        labels.entries(),
        &vec![(vec![0, 1], s("c")), (vec![2, 3], s("d")), (vec![4, 5], s("a"))]
    );
}

#[test]
fn parameter_ids_are_distinct() {
    let labels = resolve(vec![
        (vec![0, 1], s("t2")),
        (vec![1, 2], s("t1")),
        (vec![2, 3], s("t2")),
        (vec![3, 4], s("t1")),
    ]);
    let ids = labels.parameter_ids();
    assert_eq!(ids.len(), 2);
    assert_eq!(ids.items(), &vec![s("t2"), s("t1")]);
}

#[test]
fn string_set_keeps_the_first_of_each_member() {
    let mut set = StringSet::new();
    assert!(set.is_empty());
    assert!(set.insert(s("b")));
    assert!(set.insert(s("a")));
    assert!(!set.insert(s("b")));
    assert_eq!(set.len(), 2);
    assert_eq!(set.items(), &vec![s("b"), s("a")]);
    assert!(set.contains(&s("a")));
    assert!(!set.contains(&s("c")));
    assert_eq!(set.position(&s("a")), Some(1));
    assert_eq!(set.position(&s("c")), None);
}

#[test]
fn string_set_from_vec_drops_repetitions() {
    let set = StringSet::from_vec(vec![s("x"), s("y"), s("x"), s("z"), s("y")]);
    assert_eq!(set.items(), &vec![s("x"), s("y"), s("z")]);
}

#[test]
fn string_sets_intersect_where_they_share_a_member() {
    let one = StringSet::from_vec(vec![s("a"), s("b")]);
    let two = StringSet::from_vec(vec![s("c"), s("b")]);
    let three = StringSet::from_vec(vec![s("c"), s("d")]);
    assert!(one.intersects(&two));
    assert!(two.intersects(&one));
    assert!(!one.intersects(&three));
    assert!(!one.intersects(&StringSet::new()));
    assert!(!StringSet::new().intersects(&one));
}
