//! Tests of the record codec and of the text utilities: exact encodings,
//! decode round trips, decimal parsing, and segment file naming.

use kvs::{chars_to_string, str_chars, u64_to_string, parse_u64, parse_gen, log_path,
    sorted_gen_list, encode_command, decode_command, Command};

#[test]
fn encode_set_record_exact_text() {
    let cmd = Command::set("k1".to_owned(), "v1".to_owned());
    let enc = encode_command(&cmd);
    assert_eq!(chars_to_string(&enc), "{\"Set\":{\"key\":\"k1\",\"value\":\"v1\"}}");
}

#[test]
fn encode_remove_record_exact_text() {
    let cmd = Command::remove("k1".to_owned());
    let enc = encode_command(&cmd);
    assert_eq!(chars_to_string(&enc), "{\"Remove\":{\"key\":\"k1\"}}");
}

#[test]
fn encode_escapes_quotes_backslashes_and_controls() {
    let cmd = Command::set("a\"b".to_owned(), "c\\d\ne\u{1f}".to_owned());
    let enc = encode_command(&cmd);
    assert_eq!(
        chars_to_string(&enc),
        "{\"Set\":{\"key\":\"a\\\"b\",\"value\":\"c\\\\d\\u000ae\\u001f\"}}"
    );
}

#[test]
fn decode_recovers_encoded_record() {
    let cmd = Command::set("schlüssel".to_owned(), "wert \"x\"\\\t".to_owned());
    let enc = encode_command(&cmd);
    let (decoded, used) = decode_command(&enc, 0).expect("own encoding must decode");
    assert_eq!(decoded, cmd);
    assert_eq!(used, enc.len());
}

#[test]
fn decode_reads_records_in_sequence() {
    let data = str_chars("{\"Set\":{\"key\":\"a\",\"value\":\"1\"}}{\"Remove\":{\"key\":\"a\"}}");
    let (first, n1) = decode_command(&data, 0).unwrap();
    assert_eq!(first, Command::set("a".to_owned(), "1".to_owned()));
    let (second, n2) = decode_command(&data, n1).unwrap();
    assert_eq!(second, Command::remove("a".to_owned()));
    assert_eq!(n1 + n2, data.len());
}

#[test]
fn decode_rejects_garbage_and_partial_records() {
    assert!(decode_command(&str_chars("nonsense"), 0).is_none());
    assert!(decode_command(&str_chars("{\"Set\":{\"key\":\"a\",\"val"), 0).is_none());
    assert!(decode_command(&str_chars(""), 0).is_none());
}

#[test]
fn u64_rendering_is_canonical() {
    assert_eq!(u64_to_string(0), "0");
    assert_eq!(u64_to_string(7), "7");
    assert_eq!(u64_to_string(1234567890), "1234567890");
    assert_eq!(u64_to_string(u64::MAX), "18446744073709551615");
}

#[test]
fn parse_u64_accepts_exactly_canonical_decimals() {
    assert_eq!(parse_u64(&str_chars("0")), Some(0));
    assert_eq!(parse_u64(&str_chars("42")), Some(42));
    assert_eq!(parse_u64(&str_chars("18446744073709551615")), Some(u64::MAX));
    assert_eq!(parse_u64(&str_chars("18446744073709551616")), None);
    assert_eq!(parse_u64(&str_chars("007")), None);
    assert_eq!(parse_u64(&str_chars("")), None);
    assert_eq!(parse_u64(&str_chars("-3")), None);
    assert_eq!(parse_u64(&str_chars("1x2")), None);
}

#[test]
fn log_path_joins_directory_and_generation() {
    assert_eq!(log_path("/tmp/db", 7), "/tmp/db/7.log");
    assert_eq!(log_path(".", 12345), "./12345.log");
}

#[test]
fn parse_gen_reads_segment_file_names() {
    assert_eq!(parse_gen("42.log"), Some(42));
    assert_eq!(parse_gen("0.log"), Some(0));
    assert_eq!(parse_gen("042.log"), None);
    assert_eq!(parse_gen("engine"), None);
    assert_eq!(parse_gen("42.txt"), None);
    assert_eq!(parse_gen(".log"), None);
}

#[test]
fn sorted_gen_list_sorts_and_filters() {
    let names = vec![
        "9.log".to_owned(),
        "engine".to_owned(),
        "2.log".to_owned(),
        "notes.txt".to_owned(),
        "10.log".to_owned(),
    ];
    assert_eq!(sorted_gen_list(&names), vec![2, 9, 10]);
}
