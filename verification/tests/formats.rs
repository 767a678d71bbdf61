use fhe_regression::number::Decimal;
use fhe_regression::reg::accuracy::calculate_accuracy;
use fhe_regression::reg::model::{load_encoded_vector, save_encoded_vector, ModelError};
use fhe_regression::reg::utils::{
    dense_row, load_vector, parse_data_file, parse_entry, parse_index, parse_line, Entry,
    ParseError,
};
use fhe_regression::text::{parse_decimal, split_spans, word_spans};
use fhe_regression::zqz::keys::EncryptKey;

fn float(d: &Decimal) -> f64 {
    let sign = if d.negative { "-" } else { "" };
    format!("{}{}e{}", sign, d.digits, -(d.scale as i64)).parse().unwrap()
}

fn floats(row: &[Decimal]) -> Vec<f64> {
    row.iter().map(float).collect()
}

fn decimal(text: &str) -> Option<Decimal> {
    parse_decimal(text.as_bytes(), 0, text.len())
}

fn pieces(text: &str, sep: u8) -> Vec<String> {
    split_spans(text.as_bytes(), 0, text.len(), sep)
        .iter()
        .map(|span| text[span.start..span.end].to_string())
        .collect()
}

#[test]
fn split_keeps_empty_pieces() {
    assert_eq!(pieces("a b", b' '), vec!["a", "b"]);
    assert_eq!(pieces("a  b", b' '), vec!["a", "", "b"]);
    assert_eq!(pieces("", b' '), vec![""]);
    assert_eq!(pieces(" ", b' '), vec!["", ""]);
    assert_eq!(pieces("2:1.0", b':'), vec!["2", "1.0"]);
}

#[test]
fn split_of_a_stretch_stays_inside_it() {
    let text = b"xx a:b yy";
    let spans = split_spans(text, 3, 6, b':');
    assert_eq!(spans.len(), 2);
    assert_eq!((spans[0].start, spans[0].end), (3, 4));
    assert_eq!((spans[1].start, spans[1].end), (5, 6));
}

#[test]
fn decimals_are_read_exactly() {
    let d = decimal("1.0").unwrap();
    assert_eq!((d.negative, d.digits, d.scale), (false, 1, 0));
    let d = decimal("1.25").unwrap();
    assert_eq!((d.negative, d.digits, d.scale), (false, 125, 2));
    let d = decimal("-0.25").unwrap();
    assert_eq!((d.negative, d.digits, d.scale), (true, 25, 2));
    let d = decimal("+7").unwrap();
    assert_eq!((d.negative, d.digits, d.scale), (false, 7, 0));
    let d = decimal("5.").unwrap();
    assert_eq!((d.negative, d.digits, d.scale), (false, 5, 0));
    let d = decimal(".5").unwrap();
    assert_eq!((d.negative, d.digits, d.scale), (false, 5, 1));
    let d = decimal("18446744073709551615").unwrap();
    assert_eq!(d.digits, u64::MAX);
    assert_eq!(float(&decimal("12.50").unwrap()), 12.5);
    let d = decimal("0").unwrap();
    assert_eq!((d.negative, d.digits), (false, 0));
    assert_eq!(float(&d), 0.0);
    let d = decimal("-0").unwrap();
    assert_eq!((d.negative, d.digits), (true, 0));
    assert!(float(&d).is_sign_negative());
}

#[test]
fn zeros_at_the_end_are_carried_in_the_scale() {
    let d = decimal("100000000000000000000").unwrap();
    assert_eq!((d.negative, d.digits, d.scale), (false, 1, -20));
    assert_eq!(float(&d), 1e20);
    let d = decimal("1.0000000000000000000000").unwrap();
    assert_eq!((d.negative, d.digits, d.scale), (false, 1, 0));
    let d = decimal("1200").unwrap();
    assert_eq!((d.negative, d.digits, d.scale), (false, 12, -2));
    let d = decimal("0.0120").unwrap();
    assert_eq!((d.negative, d.digits, d.scale), (false, 12, 3));
    let d = decimal("184467440737095516150000").unwrap();
    assert_eq!((d.digits, d.scale), (u64::MAX, -4));
    let d = decimal("0.000000000000000000000000000001").unwrap();
    assert_eq!((d.digits, d.scale), (1, 30));
    let d = decimal("10203000").unwrap();
    assert_eq!((d.digits, d.scale), (10203, -3));
}

#[test]
fn numbers_may_have_an_exponent() {
    let d = decimal("1e5").unwrap();
    assert_eq!((d.negative, d.digits, d.scale), (false, 1, -5));
    assert_eq!(float(&d), 100000.0);
    let d = decimal("-2.5E-3").unwrap();
    assert_eq!((d.negative, d.digits, d.scale), (true, 25, 4));
    assert_eq!(float(&d), -0.0025);
    let d = decimal("1.50e+2").unwrap();
    assert_eq!((d.negative, d.digits, d.scale), (false, 15, -1));
    assert_eq!(float(&d), 150.0);
    let d = decimal("5e-324").unwrap();
    assert_eq!((d.digits, d.scale), (5, 324));
    let d = decimal("7e1000000").unwrap();
    assert_eq!((d.digits, d.scale), (7, -1000000));
    assert!(decimal("7e1000001").is_none());
    assert!(decimal("1e").is_none());
    assert!(decimal("1e+").is_none());
    assert!(decimal("e5").is_none());
    assert!(decimal("1e5.0").is_none());
    assert!(decimal("1e5e5").is_none());
    assert!(decimal("1e--5").is_none());
}

#[test]
fn a_list_of_floats_is_read_back_bit_for_bit() {
    let values = [
        1e20,
        1e300,
        5e-324,
        0.1,
        -0.0,
        0.0,
        f64::MAX,
        f64::MIN_POSITIVE,
        -123456789.125,
        0.30000000000000004,
        1.0 / 3.0,
        0.001,
    ];
    let mut text = String::new();
    for v in values.iter() {
        text.push_str(&format!("{}\n", v));
    }
    let read = load_vector(text.as_bytes()).ok().unwrap();
    assert_eq!(read.len(), values.len());
    for (d, v) in read.iter().zip(values.iter()) {
        assert_eq!(float(d).to_bits(), v.to_bits());
    }
}

#[test]
fn words_are_parted_by_white_space_of_any_length() {
    let words = |text: &str| -> Vec<String> {
        word_spans(text.as_bytes(), 0, text.len())
            .iter()
            .map(|span| text[span.start..span.end].to_string())
            .collect()
    };
    assert_eq!(words("a b"), vec!["a", "b"]);
    assert_eq!(words("a \t  b\tc"), vec!["a", "b", "c"]);
    assert_eq!(words("  a  "), vec!["a"]);
    assert_eq!(words("a\rb\x0bc\x0cd"), vec!["a", "b", "c", "d"]);
    assert!(words("").is_empty());
    assert!(words(" \t ").is_empty());
    let text = b"xx a b yy";
    let spans = word_spans(text, 3, 6);
    assert_eq!(spans.len(), 2);
    assert_eq!((spans[0].start, spans[0].end), (3, 4));
    assert_eq!((spans[1].start, spans[1].end), (5, 6));
}

#[test]
fn tabs_and_runs_of_blanks_part_the_tokens_of_a_line() {
    let (x, y) = parse_data_file(b"1\t2:1\n-1  1:3 \t 3:0.5  \n  1 1:2\n").ok().unwrap();
    assert_eq!(x.len(), 3);
    assert_eq!(floats(&x[0]), vec![0.0, 1.0, 0.0]);
    assert_eq!(floats(&x[1]), vec![3.0, 0.0, 0.5]);
    assert_eq!(floats(&x[2]), vec![2.0, 0.0, 0.0]);
    assert_eq!(floats(&y), vec![1.0, -1.0, 1.0]);
}

#[test]
fn any_label_but_one_is_the_other_class() {
    let text = b"1 1:1\n0 1:1\n2 1:1\n-1 1:1\nx 1:1\n1.0 1:1\n1e0 1:1\n+1\n1:1\n";
    let (x, y) = parse_data_file(text).ok().unwrap();
    assert_eq!(x.len(), 9);
    assert_eq!(floats(&y), vec![1.0, -1.0, -1.0, -1.0, -1.0, 1.0, 1.0, 1.0, -1.0]);
}

#[test]
fn what_is_no_decimal_is_refused() {
    assert!(decimal("").is_none());
    assert!(decimal("-").is_none());
    assert!(decimal(".").is_none());
    assert!(decimal("1.2.3").is_none());
    assert!(decimal("abc").is_none());
    assert!(decimal(" 1").is_none());
    assert!(decimal("--1").is_none());
    assert!(decimal("18446744073709551616").is_none());
    assert!(decimal("1.00000000000000000000001").is_none());
    assert!(decimal("inf").is_none());
    assert!(decimal("NaN").is_none());
    assert!(decimal("1\t").is_none());
}

#[test]
fn decimals_compare_by_value() {
    let a = decimal("1.50").unwrap();
    let b = decimal("1.5").unwrap();
    let c = decimal("+15").unwrap();
    assert!(a.same_value(&b));
    assert!(b.same_value(&a));
    assert!(!a.same_value(&c));
    assert!(decimal("0").unwrap().same_value(&decimal("-0.000").unwrap()));
    assert!(!decimal("1").unwrap().same_value(&decimal("-1").unwrap()));
    assert!(decimal("10").unwrap().same_value(&Decimal::new(false, 1000, 2)));
    assert!(!Decimal::new(false, 1, 30).same_value(&Decimal::new(false, 1, 0)));
    assert!(Decimal::new(false, 1, 0).same_value(&Decimal::new(false, 10000000000000000000, 19)));
    assert!(!Decimal::new(false, 2, 0).same_value(&Decimal::new(false, 10000000000000000000, 19)));
    assert!(Decimal::new(false, 1, -20).same_value(&decimal("1e20").unwrap()));
    assert!(Decimal::new(false, 1, -2).same_value(&Decimal::new(false, 1000, 1)));
    assert!(!Decimal::new(false, 1, -2).same_value(&Decimal::new(false, 1, 2)));
    assert!(!Decimal::new(false, 1, i32::MIN).same_value(&Decimal::new(false, 1, i32::MAX)));
    assert!(Decimal::new(true, 5, -3).same_value(&Decimal::new(true, 50, -2)));
}

#[test]
fn negation_changes_the_sign_only() {
    let d = Decimal::new(false, 25, 2).negated();
    assert_eq!((d.negative, d.digits, d.scale), (true, 25, 2));
    assert_eq!(float(&d), -0.25);
    assert_eq!(float(&Decimal::whole(true, 60)), -60.0);
}

#[test]
fn indices_count_from_one() {
    let index = |text: &str| parse_index(text.as_bytes(), 0, text.len());
    assert_eq!(index("1"), Some(1));
    assert_eq!(index("+12"), Some(12));
    assert_eq!(index("007"), Some(7));
    assert_eq!(index("2147483647"), Some(2147483647));
    assert_eq!(index("2147483648"), None);
    assert_eq!(index("0"), None);
    assert_eq!(index("-3"), None);
    assert_eq!(index(""), None);
    assert_eq!(index("+"), None);
    assert_eq!(index("1a"), None);
}

#[test]
fn entries_are_an_index_and_a_value() {
    let entry = |text: &str| parse_entry(text.as_bytes(), 0, text.len());
    let e = entry("2:1.0").unwrap();
    assert_eq!(e.index, 2);
    assert_eq!(float(&e.value), 1.0);
    assert!(entry("2").is_none());
    assert!(entry("2:1:3").is_none());
    assert!(entry(":1").is_none());
    assert!(entry("2:").is_none());
    assert!(entry("").is_none());
}

#[test]
fn lines_are_a_label_and_ascending_entries() {
    let line = |text: &str| parse_line(text.as_bytes(), 0, text.len());
    let example = line("1 2:1.0 5:1.0").unwrap();
    assert_eq!(float(&example.label), 1.0);
    assert_eq!(example.entries.len(), 2);
    assert_eq!(example.entries[1].index, 5);
    assert_eq!(float(&line("1.0").unwrap().label), 1.0);
    assert_eq!(float(&line("0 1:3").unwrap().label), -1.0);
    assert_eq!(float(&line("-1 1:3").unwrap().label), -1.0);
    assert_eq!(float(&line("2").unwrap().label), -1.0);
    assert_eq!(float(&line("x 1:1").unwrap().label), -1.0);
    assert_eq!(line("1  2:1").unwrap().entries.len(), 1);
    assert_eq!(line("1 2:1 ").unwrap().entries.len(), 1);
    assert_eq!(line("1\t2:1\t4:1").unwrap().entries.len(), 2);
    assert!(line("").is_none());
    assert!(line("  \t").is_none());
    assert!(line("1 2:1 2:3").is_none());
    assert!(line("1 3:1 2:3").is_none());
    assert!(line("1 2:x").is_none());
    assert!(line("1 2 :1").is_none());
}

#[test]
fn a_row_in_full_has_zeros_where_nothing_is_listed() {
    let entries = vec![
        Entry { index: 2, value: Decimal::whole(false, 7) },
        Entry { index: 5, value: Decimal::new(true, 15, 1) },
    ];
    assert_eq!(floats(&dense_row(&entries, 6)), vec![0.0, 7.0, 0.0, 0.0, -1.5, 0.0]);
    assert_eq!(floats(&dense_row(&entries, 5)), vec![0.0, 7.0, 0.0, 0.0, -1.5]);
    assert_eq!(floats(&dense_row(&Vec::new(), 2)), vec![0.0, 0.0]);
}

#[test]
fn sparse_row_parses_to_padded_row() {
    let (x, y) = parse_data_file(b"1 2:1.0 5:1.0").ok().unwrap();
    assert_eq!(x.len(), 1);
    assert_eq!(floats(&x[0]), vec![0.0, 1.0, 0.0, 0.0, 1.0]);
    assert_eq!(floats(&y), vec![1.0]);
}

#[test]
fn rows_are_as_wide_as_the_widest() {
    let text = b"1 1:0.5\n-1 3:2\r\n0\n1 2:4 4:8\n";
    let (x, y) = parse_data_file(text).ok().unwrap();
    assert_eq!(x.len(), 4);
    assert_eq!(floats(&x[0]), vec![0.5, 0.0, 0.0, 0.0]);
    assert_eq!(floats(&x[1]), vec![0.0, 0.0, 2.0, 0.0]);
    assert_eq!(floats(&x[2]), vec![0.0, 0.0, 0.0, 0.0]);
    assert_eq!(floats(&x[3]), vec![0.0, 4.0, 0.0, 8.0]);
    assert_eq!(floats(&y), vec![1.0, -1.0, -1.0, 1.0]);
}

#[test]
fn an_empty_text_has_no_examples() {
    let (x, y) = parse_data_file(b"").ok().unwrap();
    assert!(x.is_empty());
    assert!(y.is_empty());
}

#[test]
fn the_first_line_that_is_no_example_is_named() {
    assert_eq!(parse_data_file(b"1 1:1\n1 1\n1 x:1\n").err(), Some(ParseError { line: 1 }));
    assert_eq!(parse_data_file(b"\n1 1:1\n").err(), Some(ParseError { line: 0 }));
    assert_eq!(parse_data_file(b"1 1:1\n\n").err(), Some(ParseError { line: 1 }));
    assert_eq!(parse_data_file(b"1 1:1\n \t \n").err(), Some(ParseError { line: 1 }));
    assert!(parse_data_file(b"1 1:1\r").is_ok());
}

#[test]
fn a_list_of_numbers_has_one_on_each_line() {
    assert_eq!(floats(&load_vector(b"1\n-1\n1\n").ok().unwrap()), vec![1.0, -1.0, 1.0]);
    assert_eq!(floats(&load_vector(b"0.5\r\n2").ok().unwrap()), vec![0.5, 2.0]);
    assert!(load_vector(b"").ok().unwrap().is_empty());
    assert_eq!(load_vector(b"1\nx\n").err(), Some(ParseError { line: 1 }));
    assert_eq!(load_vector(b"1\n\n2\n").err(), Some(ParseError { line: 1 }));
}

#[test]
fn accuracy_counts_the_agreements() {
    let predictions = load_vector(b"1\n-1\n1\n").ok().unwrap();
    let (_, labels) = parse_data_file(b"1 1:1\n1 1:1\n1 1:1\n").ok().unwrap();
    assert_eq!(calculate_accuracy(&predictions, &labels), Some((2, 3)));
    let (correct, total) = calculate_accuracy(&predictions, &labels).unwrap();
    assert_eq!(correct as f64 / total as f64, 2.0 / 3.0);
}

#[test]
fn accuracy_compares_numbers_not_digits() {
    let predictions = load_vector(b"1.0\n-1.00\n+1\n0.5\n").ok().unwrap();
    let (_, labels) = parse_data_file(b"1\n-1\n1\n1\n").ok().unwrap();
    assert_eq!(calculate_accuracy(&predictions, &labels), Some((3, 4)));
}

#[test]
fn accuracy_needs_as_many_predictions_as_labels() {
    let predictions = load_vector(b"1\n-1\n").ok().unwrap();
    let (_, labels) = parse_data_file(b"1 1:1\n1 1:1\n1 1:1\n").ok().unwrap();
    assert_eq!(calculate_accuracy(&predictions, &labels), None);
    assert_eq!(calculate_accuracy(&Vec::new(), &Vec::new()), Some((0, 0)));
}

#[test]
fn a_model_is_its_length_and_its_words() {
    let words = vec![1.5f64.to_bits(), (-0.001f64).to_bits()];
    let bytes = save_encoded_vector(&words).ok().unwrap();
    assert_eq!(bytes.len(), 24);
    assert_eq!(&bytes[0..8], &[2, 0, 0, 0, 0, 0, 0, 0]);
    assert_eq!(&bytes[8..16], &1.5f64.to_le_bytes());
    assert_eq!(&bytes[16..24], &(-0.001f64).to_le_bytes());
    assert_eq!(save_encoded_vector(&Vec::new()).ok().unwrap(), vec![0u8; 8]);
}

#[test]
fn a_model_is_read_back() {
    let words = vec![0.25f64.to_bits(), 7u64, u64::MAX];
    let mut bytes = save_encoded_vector(&words).ok().unwrap();
    assert_eq!(load_encoded_vector(&bytes).ok().unwrap(), words);
    bytes.push(9);
    assert_eq!(load_encoded_vector(&bytes).ok().unwrap(), words);
}

#[test]
fn bytes_that_are_no_model_are_refused() {
    assert_eq!(load_encoded_vector(&[1, 2, 3]).err(), Some(ModelError::Malformed));
    assert_eq!(
        load_encoded_vector(&[2, 0, 0, 0, 0, 0, 0, 0, 1, 1, 1, 1, 1, 1, 1, 1]).err(),
        Some(ModelError::Malformed)
    );
}

#[test]
fn key_files_are_named_after_the_prefix() {
    let files = EncryptKey::key_files("params_6_2");
    assert_eq!(files.secret, "params_6_2_secret_key.json");
    assert_eq!(files.bootstrapping, "params_6_2_bootstrapping_key.txt");
    assert_eq!(files.keyswitching, "params_6_2_keyswitching_key.txt");
}

#[test]
fn keys_are_loaded_only_if_all_three_files_exist() {
    assert!(EncryptKey::keys_exist(true, true, true));
    assert!(!EncryptKey::keys_exist(false, true, true));
    assert!(!EncryptKey::keys_exist(true, false, true));
    assert!(!EncryptKey::keys_exist(true, true, false));
    assert!(!EncryptKey::keys_exist(false, false, false));
}
