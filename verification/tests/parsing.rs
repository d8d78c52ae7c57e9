use typing_bias::bias::BiasError;
use typing_bias::parser::load_bias;

#[test]
fn two_records_then_blank_line() {
    let table = load_bias(b"a:5\nb:3\n\n").unwrap();
    assert_eq!(table.weight_of(b'a'), 5);
    assert_eq!(table.weight_of(b'b'), 3);
    assert_eq!(table.total_weight(), 8);
    assert!(!table.is_empty());
}

#[test]
fn malformed_line_reports_its_index() {
    match load_bias(b"a:5\nbadline\n") {
        Err(BiasError::Format { line }) => assert_eq!(line, 1),
        _ => panic!("expected a format error on line 1"),
    }
}

#[test]
fn duplicate_symbols_accumulate() {
    let table = load_bias(b"a:2\na:3\n").unwrap();
    assert_eq!(table.weight_of(b'a'), 5);
    assert_eq!(table.total_weight(), 5);
}

#[test]
fn empty_input_is_an_empty_table() {
    let table = load_bias(b"").unwrap();
    assert!(table.is_empty());
    assert_eq!(table.total_weight(), 0);
}

#[test]
fn input_without_final_newline() {
    let table = load_bias(b"a:5\nb:3").unwrap();
    assert_eq!(table.weight_of(b'a'), 5);
    assert_eq!(table.weight_of(b'b'), 3);
    assert_eq!(table.total_weight(), 8);
}

#[test]
fn whitespace_only_line_stops_parsing() {
    let table = load_bias(b"a:5\n   \nb:3\n").unwrap();
    assert_eq!(table.weight_of(b'a'), 5);
    assert_eq!(table.weight_of(b'b'), 0);
    assert_eq!(table.total_weight(), 5);
}

#[test]
fn delimiter_byte_value_is_ignored() {
    let table = load_bias(b"a 5\nb|7\n").unwrap();
    assert_eq!(table.weight_of(b'a'), 5);
    assert_eq!(table.weight_of(b'b'), 7);
}

#[test]
fn weight_field_is_trimmed() {
    let table = load_bias(b"a:  42\t \n").unwrap();
    assert_eq!(table.weight_of(b'a'), 42);
}

#[test]
fn short_line_is_a_format_error() {
    match load_bias(b"a\n") {
        Err(BiasError::Format { line }) => assert_eq!(line, 0),
        _ => panic!("expected a format error on line 0"),
    }
}

#[test]
fn empty_weight_field_is_a_format_error() {
    match load_bias(b"a:\nb:1\n") {
        Err(BiasError::Format { line }) => assert_eq!(line, 0),
        _ => panic!("expected a format error on line 0"),
    }
}

#[test]
fn negative_weight_is_a_format_error() {
    match load_bias(b"a:-3\n") {
        Err(BiasError::Format { line }) => assert_eq!(line, 0),
        _ => panic!("expected a format error on line 0"),
    }
}

#[test]
fn oversized_weight_is_a_format_error() {
    match load_bias(b"a:99999999999999999999999999\n") {
        Err(BiasError::Format { line }) => assert_eq!(line, 0),
        _ => panic!("expected a format error on line 0"),
    }
}

#[test]
fn overflowing_total_is_reported() {
    // each weight parses on its own, but their sum cannot be held
    let input = format!("a:{}\nb:1\n", usize::MAX);
    match load_bias(input.as_bytes()) {
        Err(BiasError::Overflow) => {}
        _ => panic!("expected an overflow error"),
    }
}

#[test]
fn loaded_table_feeds_the_sampler() {
    let table = load_bias(b"q:1\n").unwrap();
    let mut rng = rand::thread_rng();
    let out = table.generate(&mut rng, 6);
    assert_eq!(out, vec![b'q'; 6]);
}
