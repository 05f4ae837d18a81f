use fftools::assignment::resolve;
use fftools::moved::{compare, diff, Inconsistent, Moved};
use fftools::parameter_map::ParameterMap;

fn s(text: &str) -> String {
    text.to_string()
}

fn map(ids: &[&str]) -> ParameterMap {
    ParameterMap::new(ids.iter().map(|id| (s(id), s("[*:1]~[*:2]"))).collect())
}

#[test]
fn an_environment_moves_from_one_parameter_to_another() {
    let first = map(&["P7"]);
    let second = map(&["P9"]);
    let molecules = vec![(s("mol-1"), vec![vec![vec![2, 5]]], vec![vec![vec![5, 2]]])];
    let moves = diff(&molecules, &first, &second).ok().unwrap();
    assert_eq!(
        moves,
        vec![Moved { molecule: s("mol-1"), environment: vec![2, 5], from: s("P7"), to: s("P9") }]
    );
}

#[test]
fn nothing_moves_where_the_force_fields_agree() {
    let first = map(&["t1", "t2"]);
    let second = map(&["t1", "t2"]);
    let found = vec![vec![vec![0, 1], vec![1, 2]], vec![vec![1, 2]]];
    let molecules = vec![(s("a"), found.clone(), found)];
    assert_eq!(diff(&molecules, &first, &second).ok().unwrap(), Vec::new());
}

#[test]
fn diff_goes_through_the_molecules_in_order() {
    let first = map(&["t1", "t2"]);
    let second = map(&["t1", "t2", "t3"]);
    let molecules = vec![
        (
            s("10"),
            vec![vec![vec![0, 1], vec![1, 2]], vec![vec![2, 3]]],
            vec![vec![vec![0, 1], vec![1, 2]], vec![vec![2, 3]], vec![vec![2, 1]]],
        ),
        (s("11"), vec![vec![vec![4, 5]], vec![]], vec![vec![vec![4, 5]], vec![], vec![]]),
        (
            s("12"),
            vec![vec![vec![7, 6]], vec![vec![8, 9]]],
            vec![vec![], vec![vec![6, 7]], vec![vec![9, 8]]],
        ),
    ];
    let moves = diff(&molecules, &first, &second).ok().unwrap();
    assert_eq!(
        moves,
        vec![
            Moved { molecule: s("10"), environment: vec![1, 2], from: s("t1"), to: s("t3") },
            Moved { molecule: s("12"), environment: vec![6, 7], from: s("t1"), to: s("t2") },
            Moved { molecule: s("12"), environment: vec![8, 9], from: s("t2"), to: s("t3") },
        ]
    );
}

#[test]
fn diff_is_symmetric() {
    let first = map(&["t1", "t2"]);
    let second = map(&["t1", "t2", "t3"]);
    let forward = vec![(
        s("m"),
        vec![vec![vec![0, 1], vec![1, 2], vec![5, 6]], vec![vec![2, 3]]],
        vec![vec![vec![5, 6], vec![0, 1]], vec![vec![2, 3], vec![1, 0]], vec![vec![2, 1]]],
    )];
    let backward: Vec<_> =
        forward.iter().map(|(id, a, b)| (id.clone(), b.clone(), a.clone())).collect();
    let there = diff(&forward, &first, &second).ok().unwrap();
    let back = diff(&backward, &second, &first).ok().unwrap();
    assert_eq!(there.len(), 2);
    assert_eq!(there.len(), back.len());
    for m in &there {
        let mirrored = Moved {
            molecule: m.molecule.clone(),
            environment: m.environment.clone(),
            from: m.to.clone(),
            to: m.from.clone(),
        };
        assert!(back.contains(&mirrored));
    }
    for m in &back {
        let mirrored = Moved {
            molecule: m.molecule.clone(),
            environment: m.environment.clone(),
            from: m.to.clone(),
            to: m.from.clone(),
        };
        assert!(there.contains(&mirrored));
    }
}

#[test]
fn diff_fails_where_the_second_force_field_lacks_an_environment() {
    let first = map(&["t1"]);
    let second = map(&["t1"]);
    let molecules = vec![
        (s("fine"), vec![vec![vec![0, 1]]], vec![vec![vec![0, 1]]]),
        (s("bad"), vec![vec![vec![0, 1], vec![3, 2]]], vec![vec![vec![0, 1]]]),
        (s("worse"), vec![vec![vec![7, 8]]], vec![vec![]]),
    ];
    assert_eq!(
        diff(&molecules, &first, &second).err(),
        Some(Inconsistent { molecule: s("bad"), environment: vec![2, 3] })
    );
}

#[test]
fn diff_fails_where_the_first_force_field_lacks_an_environment() {
    let first = map(&["t1"]);
    let second = map(&["t1"]);
    let molecules = vec![(s("bad"), vec![vec![vec![0, 1]]], vec![vec![vec![0, 1], vec![4, 3]]])];
    assert_eq!(
        diff(&molecules, &first, &second).err(),
        Some(Inconsistent { molecule: s("bad"), environment: vec![3, 4] })
    );
}

#[test]
fn compare_lists_the_moves_in_the_order_of_the_first_assignment() {
    let a = resolve(vec![(vec![0, 1], s("x")), (vec![1, 2], s("y")), (vec![2, 3], s("z"))]);
    let b = resolve(vec![(vec![2, 3], s("w")), (vec![1, 2], s("y")), (vec![0, 1], s("v"))]);
    assert_eq!(
        compare(&a, &b),
        Ok(vec![(vec![0, 1], s("x"), s("v")), (vec![2, 3], s("z"), s("w"))])
    );
    assert_eq!(
        compare(&b, &a),
        Ok(vec![(vec![2, 3], s("w"), s("z")), (vec![0, 1], s("v"), s("x"))])
    );
}

#[test]
fn compare_names_an_environment_of_one_side_only() {
    let a = resolve(vec![(vec![0, 1], s("x")), (vec![1, 2], s("y"))]);
    let b = resolve(vec![(vec![0, 1], s("x")), (vec![5, 6], s("y"))]);
    assert_eq!(compare(&a, &b), Err(vec![1, 2]));
    assert_eq!(compare(&b, &a), Err(vec![5, 6]));
    let empty = resolve(Vec::new());
    assert_eq!(compare(&empty, &a), Err(vec![0, 1]));
    assert_eq!(compare(&empty, &empty), Ok(Vec::new()));
}
