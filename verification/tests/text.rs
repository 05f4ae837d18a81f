use fftools::terms::{get_params, lookup};
use fftools::text::{
    ascii_space, chars_of, decimal_string, load_subset, text_of, whitespace, Cause, CsvError,
};
use fftools::{load_csv, Record};

fn s(text: &str) -> String {
    text.to_string()
}

fn record(id: usize, value: &str) -> Record<String> {
    Record { id, value: s(value) }
}

#[test]
fn load_csv_skips_the_header() {
    let records = load_csv("rec_id,dde\n36955694,-0.27\n36955701,1.5e-3\n").ok().unwrap();
    assert_eq!(records, vec![record(36955694, "-0.27"), record(36955701, "1.5e-3")]);
    let values: Vec<f64> = records.iter().map(|r| r.value.parse().unwrap()).collect();
    assert_eq!(values, vec![-0.27, 0.0015]);
}

#[test]
fn load_csv_trims_the_fields() {
    let records = load_csv("id, value\r\n  12 ,\t3.25 \r\n+7,\u{a0}8\u{3000}").ok().unwrap();
    assert_eq!(records, vec![record(12, "3.25"), record(7, "8")]);
}

#[test]
fn load_csv_takes_any_header() {
    assert_eq!(load_csv("").ok().unwrap(), Vec::new());
    assert_eq!(load_csv("no comma at all").ok().unwrap(), Vec::new());
    assert_eq!(load_csv("a,b,c\n").ok().unwrap(), Vec::new());
    assert_eq!(load_csv("\n1,2").ok().unwrap(), vec![record(1, "2")]);
}

#[test]
fn load_csv_keeps_a_value_that_is_no_number() {
    assert_eq!(load_csv("h\n3,\n4,nan\n").ok().unwrap(), vec![record(3, ""), record(4, "nan")]);
}

#[test]
fn load_csv_rejects_a_row_without_two_fields() {
    assert_eq!(
        load_csv("id,value\n1,2\n3\n4,5\n").err(),
        Some(CsvError { line: 3, cause: Cause::Fields })
    );
    assert_eq!(
        load_csv("id,value\n1,2,3\n").err(),
        Some(CsvError { line: 2, cause: Cause::Fields })
    );
    assert_eq!(
        load_csv("id,value\n1,2\n\n").err(),
        Some(CsvError { line: 3, cause: Cause::Fields })
    );
}

#[test]
fn load_csv_rejects_an_identifier_that_is_no_number() {
    assert_eq!(load_csv("h\nx,1\n").err(), Some(CsvError { line: 2, cause: Cause::Id }));
    assert_eq!(load_csv("h\n1,1\n-2,1\n").err(), Some(CsvError { line: 3, cause: Cause::Id }));
    assert_eq!(load_csv("h\n,1\n").err(), Some(CsvError { line: 2, cause: Cause::Id }));
    assert_eq!(load_csv("h\n+,1\n").err(), Some(CsvError { line: 2, cause: Cause::Id }));
    assert_eq!(load_csv("h\n1 2,1\n").err(), Some(CsvError { line: 2, cause: Cause::Id }));
    assert_eq!(load_csv("h\n1.0,1\n").err(), Some(CsvError { line: 2, cause: Cause::Id }));
}

#[test]
fn load_csv_rejects_an_identifier_that_is_too_large() {
    let largest = usize::MAX.to_string();
    let records = load_csv(&format!("h\n{largest},1\n000{largest},2")).ok().unwrap();
    assert_eq!(records, vec![record(usize::MAX, "1"), record(usize::MAX, "2")]);
    assert_eq!(
        load_csv(&format!("h\n{largest}0,1\n")).err(),
        Some(CsvError { line: 2, cause: Cause::Id })
    );
    assert_eq!(
        load_csv("h\n340282366920938463463374607431768211456,1\n").err(),
        Some(CsvError { line: 2, cause: Cause::Id })
    );
}

#[test]
fn load_csv_agrees_with_the_parser_of_the_standard_library() {
    for id in ["0", "00", "+0", "42", "+42", "４２", "4_2", " 42", "", "+", "-0", "0x10", "1e3"] {
        let ours = load_csv(&format!("h\n{id},v")).ok().map(|records| records[0].id);
        let theirs = id.trim().parse::<usize>().ok();
        assert_eq!(ours, theirs);
    }
}

#[test]
fn load_subset_splits_at_white_space() {
    assert_eq!(load_subset("t1 t2\tt3\nt4\r\n\x0ct5  "), vec!["t1", "t2", "t3", "t4", "t5"]);
    assert_eq!(load_subset("  t130j\n"), vec!["t130j"]);
    assert_eq!(load_subset(""), Vec::<String>::new());
    assert_eq!(load_subset(" \n\t"), Vec::<String>::new());
}

#[test]
fn load_subset_agrees_with_the_standard_library() {
    for text in ["a b", "a\u{b}b c", "a\u{a0}b\u{85}c d", " é  ü ", "x", "\r\rx\x0c\x0cy"] {
        let theirs: Vec<String> = text.split_ascii_whitespace().map(String::from).collect();
        assert_eq!(load_subset(text), theirs);
    }
}

#[test]
fn white_space_is_what_the_standard_library_takes_for_it() {
    for code in 0..0x3100u32 {
        if let Some(c) = char::from_u32(code) {
            assert_eq!(whitespace(c), c.is_whitespace());
            assert_eq!(ascii_space(c), c.is_ascii_whitespace());
        }
    }
}

#[test]
fn chars_and_text_are_inverse() {
    let chars = chars_of("añb→c");
    assert_eq!(chars, vec!['a', 'ñ', 'b', '→', 'c']);
    assert_eq!(text_of(&chars, 0, 5), "añb→c");
    assert_eq!(text_of(&chars, 1, 4), "ñb→");
    assert_eq!(text_of(&chars, 2, 2), "");
}

#[test]
fn decimal_string_writes_the_numeral() {
    assert_eq!(decimal_string(0), "0");
    assert_eq!(decimal_string(7), "7");
    assert_eq!(decimal_string(10), "10");
    assert_eq!(decimal_string(1234567890), "1234567890");
    assert_eq!(decimal_string(usize::MAX), usize::MAX.to_string());
}

#[test]
fn get_params_names_the_terms_of_each_parameter() {
    let terms = get_params(vec![
        (s("t1"), vec![0.5, 1.5]),
        (s("t2"), vec![]),
        (s("t3"), vec![2.5]),
    ]);
    assert_eq!(terms, vec![(s("t1.1"), 0.5), (s("t1.2"), 1.5), (s("t3.1"), 2.5)]);
}

#[test]
fn get_params_counts_the_terms_from_one() {
    let terms = get_params(vec![(s("t9"), (0..12).collect::<Vec<i32>>())]);
    assert_eq!(terms.len(), 12);
    assert_eq!(terms[0], (s("t9.1"), 0));
    assert_eq!(terms[9], (s("t9.10"), 9));
    assert_eq!(terms[11], (s("t9.12"), 11));
}

#[test]
fn lookup_finds_the_first_term_of_a_name() {
    let terms = vec![(s("t1.1"), 0.5), (s("t1.2"), 1.5), (s("t1.1"), 9.5)];
    assert_eq!(lookup(&terms, &s("t1.1")), Some(&0.5));
    assert_eq!(lookup(&terms, &s("t1.2")), Some(&1.5));
    assert_eq!(lookup(&terms, &s("t1.3")), None);
}
