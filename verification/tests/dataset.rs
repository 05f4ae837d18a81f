use fftools::dataset::{resolve_records, Policy, SmilesMap, Unresolved};
use fftools::{load_dataset, Dataset, Entry, Record};

fn s(text: &str) -> String {
    text.to_string()
}

fn entry(id: &str, smiles: &str) -> Entry {
    Entry { record_id: s(id), cmiles: s(smiles) }
}

#[test]
fn load_dataset_flattens_the_groups() {
    let dataset = Dataset {
        entries: vec![
            (s("first"), vec![entry("1", "C"), entry("2", "CC")]),
            (s("empty"), vec![]),
            (s("second"), vec![entry("3", "CCC")]),
        ],
    };
    let map = load_dataset(dataset);
    assert_eq!(map.len(), 3);
    assert_eq!(map.record_ids(), &vec![s("1"), s("2"), s("3")]);
    assert_eq!(map.molecules(), &vec![s("C"), s("CC"), s("CCC")]);
    assert_eq!(map.get(&s("2")), Some(&s("CC")));
    assert_eq!(map.get(&s("4")), None);
}

#[test]
fn load_dataset_lets_the_last_entry_of_a_record_win() {
    let dataset = Dataset {
        entries: vec![
            (s("a"), vec![entry("1", "C"), entry("2", "CC"), entry("1", "CO")]),
            (s("b"), vec![entry("2", "CN")]),
        ],
    };
    let map = load_dataset(dataset);
    assert_eq!(map.record_ids(), &vec![s("1"), s("2")]);
    assert_eq!(map.molecules(), &vec![s("CO"), s("CN")]);
}

#[test]
fn load_dataset_of_nothing_is_empty() {
    let map = load_dataset(Dataset { entries: Vec::new() });
    assert!(map.is_empty());
    assert_eq!(map.len(), 0);
}

#[test]
fn smiles_of_looks_the_number_up_as_a_numeral() {
    let mut map = SmilesMap::new();
    map.insert(s("18433006"), s("CCO"));
    map.insert(s("007"), s("C"));
    map.insert(s("0"), s("N"));
    assert_eq!(map.smiles_of(18433006), Some(&s("CCO")));
    assert_eq!(map.smiles_of(0), Some(&s("N")));
    assert_eq!(map.smiles_of(7), None);
    assert_eq!(map.smiles_of(1843300), None);
}

#[test]
fn strict_resolution_resolves_every_record() {
    let map = load_dataset(Dataset {
        entries: vec![(s("g"), vec![entry("1", "C"), entry("2", "CC")])],
    });
    let records = vec![Record { id: 2, value: 0.5 }, Record { id: 1, value: 1.5 }];
    let resolved = resolve_records(records, &map, Policy::Strict).ok().unwrap();
    assert_eq!(
        resolved.found,
        vec![(Record { id: 2, value: 0.5 }, s("CC")), (Record { id: 1, value: 1.5 }, s("C"))]
    );
    assert!(resolved.missing.is_empty());
}

#[test]
fn strict_resolution_fails_at_the_first_unknown_record() {
    let map = load_dataset(Dataset { entries: vec![(s("g"), vec![entry("1", "C")])] });
    let records = vec![
        Record { id: 1, value: 0.5 },
        Record { id: 5, value: 1.5 },
        Record { id: 6, value: 2.5 },
    ];
    assert_eq!(resolve_records(records, &map, Policy::Strict).err(), Some(Unresolved { id: 5 }));
}

#[test]
fn lenient_resolution_sets_unknown_records_aside() {
    let map = load_dataset(Dataset {
        entries: vec![(s("g"), vec![entry("1", "C"), entry("3", "CCC")])],
    });
    let records = vec![
        Record { id: 1, value: 0.5 },
        Record { id: 5, value: 1.5 },
        Record { id: 3, value: 2.5 },
        Record { id: 6, value: 3.5 },
    ];
    let resolved = resolve_records(records, &map, Policy::Lenient).ok().unwrap();
    assert_eq!(
        resolved.found,
        vec![(Record { id: 1, value: 0.5 }, s("C")), (Record { id: 3, value: 2.5 }, s("CCC"))]
    );
    assert_eq!(resolved.missing, vec![Record { id: 5, value: 1.5 }, Record { id: 6, value: 3.5 }]);
}
