// The dataset grammar: tokens, decimals, labels, records, whole files.

use iris_bayes::parse::{parse_dataset, parse_decimal, parse_label, parse_record, tokenize};
use iris_bayes::{ClassLabel, Error};

#[test]
fn tokenize_splits_on_blanks() {
    let toks = tokenize(b"  a bb\tc ");
    assert_eq!(toks, vec![b"a".to_vec(), b"bb".to_vec(), b"c".to_vec()]);
}

#[test]
fn tokenize_empty_and_blank_only() {
    assert_eq!(tokenize(b"").len(), 0);
    assert_eq!(tokenize(b"   \t ").len(), 0);
}

#[test]
fn decimal_plain_and_fraction() {
    assert_eq!(parse_decimal(&b"5.1".to_vec()), Some(51_000));
    assert_eq!(parse_decimal(&b"123".to_vec()), Some(1_230_000));
    assert_eq!(parse_decimal(&b"0.0001".to_vec()), Some(1));
    assert_eq!(parse_decimal(&b"0.2".to_vec()), Some(2_000));
    assert_eq!(parse_decimal(&b"7.25".to_vec()), Some(72_500));
    assert_eq!(parse_decimal(&b"9999999.9999".to_vec()), Some(99_999_999_999));
}

#[test]
fn decimal_rejects_malformed_tokens() {
    assert_eq!(parse_decimal(&b"".to_vec()), None);
    assert_eq!(parse_decimal(&b".5".to_vec()), None);
    assert_eq!(parse_decimal(&b"5.".to_vec()), None);
    assert_eq!(parse_decimal(&b"5a".to_vec()), None);
    assert_eq!(parse_decimal(&b"1.23456".to_vec()), None);
    assert_eq!(parse_decimal(&b"12345678".to_vec()), None);
    assert_eq!(parse_decimal(&b"1.2.3".to_vec()), None);
    assert_eq!(parse_decimal(&b"-1.0".to_vec()), None);
}

#[test]
fn label_names_the_three_classes() {
    assert_eq!(parse_label(&b"1".to_vec()), Some(ClassLabel::Setosa));
    assert_eq!(parse_label(&b"2".to_vec()), Some(ClassLabel::Versicolor));
    assert_eq!(parse_label(&b"003".to_vec()), Some(ClassLabel::Virginica));
}

#[test]
fn label_rejects_out_of_range_and_junk() {
    assert_eq!(parse_label(&b"0".to_vec()), None);
    assert_eq!(parse_label(&b"4".to_vec()), None);
    assert_eq!(parse_label(&b"".to_vec()), None);
    assert_eq!(parse_label(&b"x".to_vec()), None);
    assert_eq!(parse_label(&b"1.0".to_vec()), None);
}

#[test]
fn record_line_parses_features_and_label() {
    let rec = parse_record(&b"5.1 3.5 1.4 0.2 1".to_vec(), 4).unwrap();
    assert_eq!(rec.features, vec![51_000, 35_000, 14_000, 2_000]);
    assert_eq!(rec.label, ClassLabel::Setosa);
}

#[test]
fn record_line_needs_exact_token_count() {
    assert!(parse_record(&b"5.1 3.5 1.4 1".to_vec(), 4).is_none());
    assert!(parse_record(&b"5.1 3.5 1.4 0.2 0.3 1".to_vec(), 4).is_none());
    assert!(parse_record(&b"".to_vec(), 4).is_none());
}

#[test]
fn dataset_parses_in_file_order() {
    let text = b"5.1 3.5 1.4 0.2 1\n6.1 2.9 4.7 1.4 2\n";
    let recs = parse_dataset(text, 4).unwrap();
    assert_eq!(recs.len(), 2);
    assert_eq!(recs[0].label, ClassLabel::Setosa);
    assert_eq!(recs[1].label, ClassLabel::Versicolor);
    assert_eq!(recs[1].features, vec![61_000, 29_000, 47_000, 14_000]);
}

#[test]
fn dataset_accepts_crlf_and_missing_final_newline() {
    let recs = parse_dataset(b"5.1 3.5 1.4 0.2 1\r\n6.1 2.9 4.7 1.4 2", 4).unwrap();
    assert_eq!(recs.len(), 2);
}

#[test]
fn dataset_empty_input_has_no_records() {
    assert_eq!(parse_dataset(b"", 4).unwrap().len(), 0);
}

#[test]
fn dataset_rejects_non_numeric_token_with_parse_error() {
    let text = b"5.1 3.5 1.4 0.2 1\n6.1 oops 4.7 1.4 2\n";
    assert_eq!(parse_dataset(text, 4).unwrap_err(), Error::Parse { line: 1 });
}

#[test]
fn dataset_rejects_out_of_range_label_with_parse_error() {
    let text = b"5.1 3.5 1.4 0.2 9\n";
    assert_eq!(parse_dataset(text, 4).unwrap_err(), Error::Parse { line: 0 });
}

#[test]
fn dataset_rejects_blank_interior_line() {
    let text = b"5.1 3.5 1.4 0.2 1\n\n6.1 2.9 4.7 1.4 2\n";
    assert_eq!(parse_dataset(text, 4).unwrap_err(), Error::Parse { line: 1 });
}
