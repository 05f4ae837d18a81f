use fftools::attribution::{aggregate, AttributionTable};
use fftools::dataset::{resolve_records, Policy};
use fftools::parameter_map::ParameterMap;
use fftools::record::process_records;
use fftools::string_set::StringSet;
use fftools::subset::partition;
use fftools::{load_dataset, Dataset, Entry, Record};

fn s(text: &str) -> String {
    text.to_string()
}

fn set(ids: &[&str]) -> StringSet {
    StringSet::from_vec(ids.iter().map(|id| s(id)).collect())
}

fn mean(values: &[f64]) -> f64 {
    values.iter().sum::<f64>() / values.len() as f64
}

#[test]
fn one_record_one_parameter() {
    let dataset = load_dataset(Dataset {
        entries: vec![(s("default"), vec![Entry { record_id: s("1"), cmiles: s("CCO") }])],
    });
    let params = ParameterMap::new(vec![(s("P1"), s("[#6:1]-[#6:2]"))]);
    let records = vec![Record { id: 1, value: 2.5 }];

    let resolved = resolve_records(records, &dataset, Policy::Strict).ok().unwrap();
    assert_eq!(resolved.found, vec![(Record { id: 1, value: 2.5 }, s("CCO"))]);

    let found = vec![vec![vec![0, 1]]];
    let labels = params.label_molecule(&found);
    assert_eq!(labels.entries(), &vec![(vec![0, 1], s("P1"))]);

    let searched = resolved.found.into_iter().map(|(record, _)| (record, found.clone())).collect();
    let table = aggregate(&process_records(searched, &params));
    assert_eq!(table.len(), 1);
    assert_eq!(table.pids(), &vec![s("P1")]);
    assert_eq!(table.count(&s("P1")), 1);
    assert_eq!(mean(table.get(&s("P1")).unwrap()), 2.5);
}

#[test]
fn a_parameter_is_blamed_once_per_record() {
    let params = ParameterMap::new(vec![(s("t1"), s("a")), (s("t2"), s("b"))]);
    let found = vec![vec![vec![0, 1, 2, 3], vec![1, 2, 3, 4], vec![2, 3, 4, 5]], vec![]];
    let processed = process_records(vec![(Record { id: 7, value: 4.0 }, found)], &params);
    assert_eq!(processed[0].1.items(), &vec![s("t1")]);
    let table = aggregate(&processed);
    assert_eq!(table.count(&s("t1")), 1);
    assert_eq!(table.get(&s("t1")).unwrap(), &vec![4.0]);
}

#[test]
fn aggregate_collects_the_values_of_each_parameter() {
    let processed = vec![
        (Record { id: 1, value: 1.0 }, set(&["t1", "t2"])),
        (Record { id: 2, value: 2.0 }, set(&["t2"])),
        (Record { id: 3, value: 6.0 }, set(&["t3", "t1"])),
        (Record { id: 4, value: 8.0 }, set(&[])),
    ];
    let table = aggregate(&processed);
    assert_eq!(table.pids(), &vec![s("t1"), s("t2"), s("t3")]);
    assert_eq!(table.get(&s("t1")).unwrap(), &vec![1.0, 6.0]);
    assert_eq!(table.get(&s("t2")).unwrap(), &vec![1.0, 2.0]);
    assert_eq!(table.get(&s("t3")).unwrap(), &vec![6.0]);
    assert_eq!(table.values_at(1), &vec![1.0, 2.0]);
    assert_eq!(mean(table.get(&s("t1")).unwrap()), 3.5);
    assert_eq!(mean(table.get(&s("t2")).unwrap()), 1.5);
    assert_eq!(mean(table.get(&s("t3")).unwrap()), 6.0);
}

#[test]
fn a_count_never_exceeds_the_number_of_records() {
    let processed = vec![
        (Record { id: 1, value: 1.0 }, set(&["t1", "t2"])),
        (Record { id: 2, value: 2.0 }, set(&["t1"])),
        (Record { id: 3, value: 3.0 }, set(&["t1", "t3"])),
    ];
    let table = aggregate(&processed);
    assert_eq!(table.count(&s("t1")), 3);
    for pid in table.pids() {
        assert!(table.count(pid) <= processed.len());
    }
}

#[test]
fn an_unmatched_parameter_has_no_row() {
    let processed = vec![(Record { id: 1, value: 1.0 }, set(&["t1"]))];
    let table = aggregate(&processed);
    assert!(table.get(&s("t9")).is_none());
    assert_eq!(table.count(&s("t9")), 0);
    assert!(!table.is_empty());
}

#[test]
fn aggregate_of_no_records_is_empty() {
    let processed: Vec<(Record<f64>, StringSet)> = Vec::new();
    let table = aggregate(&processed);
    assert!(table.is_empty());
    assert_eq!(table.len(), 0);
}

#[test]
fn a_seeded_table_has_a_row_for_every_parameter() {
    let params = ParameterMap::new(vec![(s("t1"), s("a")), (s("t2"), s("b")), (s("t3"), s("c"))]);
    let mut table: AttributionTable<f64> = AttributionTable::seeded(&params);
    assert_eq!(table.pids(), &vec![s("t1"), s("t2"), s("t3")]);
    assert_eq!(table.count(&s("t2")), 0);
    table.extend(&vec![(Record { id: 1, value: 0.5 }, set(&["t3", "t4"]))]);
    assert_eq!(table.pids(), &vec![s("t1"), s("t2"), s("t3"), s("t4")]);
    assert_eq!(table.count(&s("t1")), 0);
    assert_eq!(table.count(&s("t2")), 0);
    assert_eq!(table.get(&s("t3")).unwrap(), &vec![0.5]);
    assert_eq!(table.get(&s("t4")).unwrap(), &vec![0.5]);
}

#[test]
fn blame_and_record_add_to_the_rows() {
    let mut table: AttributionTable<i32> = AttributionTable::new();
    table.blame(&s("t1"), 4);
    table.blame(&s("t2"), 5);
    table.blame(&s("t1"), 6);
    table.record(&Record { id: 9, value: 7 }, &set(&["t2", "t3"]));
    assert_eq!(table.pids(), &vec![s("t1"), s("t2"), s("t3")]);
    assert_eq!(table.get(&s("t1")).unwrap(), &vec![4, 6]);
    assert_eq!(table.get(&s("t2")).unwrap(), &vec![5, 7]);
    assert_eq!(table.get(&s("t3")).unwrap(), &vec![7]);
}

#[test]
fn both_records_use_a_parameter_of_the_subset() {
    let params = ParameterMap::new(vec![(s("P1"), s("a")), (s("P2"), s("b"))]);
    let searched = vec![
        (Record { id: 1, value: 0.25 }, vec![vec![vec![0, 1, 2, 3]], vec![vec![4, 5, 6, 7]]]),
        (Record { id: 2, value: 0.75 }, vec![vec![vec![9, 8, 7, 6]], vec![vec![3, 2, 1, 0]]]),
    ];
    let processed = process_records(searched, &params);
    let output = partition(processed, &set(&["P2"]));
    assert_eq!(output.in_set.len(), 2);
    assert_eq!(output.out_set.len(), 0);
    assert_eq!(output.in_set[0].0, Record { id: 1, value: 0.25 });
    assert_eq!(output.in_set[1].0, Record { id: 2, value: 0.75 });
}

#[test]
fn partition_is_total_and_disjoint() {
    let processed = vec![
        (Record { id: 1, value: 1.0 }, set(&["t1", "t2"])),
        (Record { id: 2, value: 2.0 }, set(&["t3"])),
        (Record { id: 3, value: 3.0 }, set(&[])),
        (Record { id: 4, value: 4.0 }, set(&["t4", "t2"])),
        (Record { id: 5, value: 5.0 }, set(&["t1"])),
    ];
    let output = partition(processed, &set(&["t2", "t3"]));
    let inside: Vec<usize> = output.in_set.iter().map(|(r, _)| r.id).collect();
    let outside: Vec<usize> = output.out_set.iter().map(|(r, _)| r.id).collect();
    assert_eq!(inside, vec![1, 2, 4]);
    assert_eq!(outside, vec![3, 5]);
    assert_eq!(inside.len() + outside.len(), 5);
    assert!(inside.iter().all(|id| !outside.contains(id)));
}

#[test]
fn partition_by_an_empty_subset_keeps_everything_out() {
    let processed = vec![
        (Record { id: 1, value: 1.0 }, set(&["t1"])),
        (Record { id: 2, value: 2.0 }, set(&["t2"])),
    ];
    let output = partition(processed, &StringSet::new());
    assert!(output.in_set.is_empty());
    assert_eq!(output.out_set.len(), 2);
}

#[test]
fn process_records_keeps_the_records_in_order() {
    let params = ParameterMap::new(vec![(s("t1"), s("a")), (s("t2"), s("b"))]);
    let searched = vec![
        (Record { id: 10, value: 1.5 }, vec![vec![], vec![vec![1, 0]]]),
        (Record { id: 11, value: 2.5 }, vec![vec![vec![0, 1]], vec![vec![1, 0], vec![2, 3]]]),
        (Record { id: 12, value: 3.5 }, vec![vec![], vec![]]),
    ];
    let processed = process_records(searched, &params);
    assert_eq!(processed.len(), 3);
    assert_eq!(processed[0].0, Record { id: 10, value: 1.5 });
    assert_eq!(processed[0].1.items(), &vec![s("t2")]);
    assert_eq!(processed[1].1.items(), &vec![s("t2")]);
    assert_eq!(processed[2].0, Record { id: 12, value: 3.5 });
    assert!(processed[2].1.is_empty());
}
