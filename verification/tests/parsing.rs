use bcd_tables::grammar::{Expected, ParseError};
use bcd_tables::parser::BCDTableParser;
use bcd_tables::table::{filter_boot_entries, BCDTable};

fn parse(input: &str) -> Result<Vec<BCDTable>, ParseError> {
    BCDTableParser::new(input).parse()
}

#[test]
fn empty_input_yields_no_tables() {
    let tables = parse("").unwrap();
    assert_eq!(tables.len(), 0);
}

#[test]
fn blank_lines_yield_no_tables() {
    let tables = parse("\r\n\r\n\r\n").unwrap();
    assert_eq!(tables.len(), 0);
}

#[test]
fn single_table_parses() {
    let input = "Firmware Boot Manager\r\n---------------------\r\nidentifier {fwbootmgr}\r\ndescription Firmware Boot Manager\r\n";
    let tables = parse(input).unwrap();
    assert_eq!(tables.len(), 1);
    assert_eq!(tables[0].get("identifier").unwrap(), "{fwbootmgr}");
    assert_eq!(tables[0].get("description").unwrap(), "Firmware Boot Manager");
}

#[test]
fn two_tables_in_order() {
    let input = "Windows Boot Manager\r\n--------------------\r\nidentifier {bootmgr}\r\ndescription Windows Boot Manager\r\n\r\nFirmware Application\r\n--------------------\r\nidentifier {deadbeef}\r\ndescription Linux Boot Manager\r\n";
    let tables = parse(input).unwrap();
    assert_eq!(tables.len(), 2);
    assert_eq!(tables[0].get("identifier").unwrap(), "{bootmgr}");
    assert_eq!(tables[1].get("description").unwrap(), "Linux Boot Manager");
}

#[test]
fn blank_lines_around_tables_are_tolerated() {
    let input = "\r\n\r\nA\r\n-\r\nk v\r\n\r\n\r\n\r\nB\r\n-\r\nk w\r\n\r\n\r\n";
    let tables = parse(input).unwrap();
    assert_eq!(tables.len(), 2);
    assert_eq!(tables[0].get("k").unwrap(), "v");
    assert_eq!(tables[1].get("k").unwrap(), "w");
}

#[test]
fn zero_length_separator_accepted() {
    let tables = parse("Name\r\n\r\nid value\r\n").unwrap();
    assert_eq!(tables.len(), 1);
    assert_eq!(tables[0].get("id").unwrap(), "value");
}

#[test]
fn separator_length_is_irrelevant() {
    let short = parse("Name\r\n\r\nid value\r\n").unwrap();
    let long = parse("Name\r\n----\r\nid value\r\n").unwrap();
    assert_eq!(short.len(), 1);
    assert_eq!(long.len(), 1);
    assert_eq!(short[0].get("id").unwrap(), long[0].get("id").unwrap());
}

#[test]
fn duplicate_key_keeps_last_value() {
    let tables = parse("T\r\n-\r\nk first\r\nk second\r\n").unwrap();
    assert_eq!(tables.len(), 1);
    assert_eq!(tables[0].get("k").unwrap(), "second");
}

#[test]
fn multi_space_delimiter_collapses() {
    let tables = parse("T\r\n-\r\nk     v v2\r\n").unwrap();
    assert_eq!(tables.len(), 1);
    assert_eq!(tables[0].get("k").unwrap(), "v v2");
}

#[test]
fn empty_value_parses() {
    let tables = parse("T\r\n-\r\nk \r\n").unwrap();
    assert_eq!(tables[0].get("k").unwrap(), "");
}

#[test]
fn header_without_terminator_is_fatal() {
    let err = parse("Name").unwrap_err();
    assert_eq!(
        err,
        ParseError::StructuralMismatch { expected: Expected::Byte(b'\r'), actual: None, offset: 4 },
    );
}

#[test]
fn separator_without_terminator_is_fatal() {
    let err = parse("Name\r\n---").unwrap_err();
    assert_eq!(
        err,
        ParseError::StructuralMismatch { expected: Expected::Byte(b'\r'), actual: None, offset: 9 },
    );
}

#[test]
fn value_without_terminator_is_fatal() {
    let err = parse("Name\r\n--\r\nk v").unwrap_err();
    assert_eq!(
        err,
        ParseError::StructuralMismatch { expected: Expected::Byte(b'\r'), actual: None, offset: 13 },
    );
}

#[test]
fn carriage_return_without_line_feed_is_fatal() {
    let err = parse("Name\rX\r\n\r\n").unwrap_err();
    assert_eq!(
        err,
        ParseError::StructuralMismatch { expected: Expected::Byte(b'\n'), actual: Some(b'X'), offset: 5 },
    );
}

#[test]
fn entry_without_space_is_fatal() {
    let err = parse("T\r\n-\r\nkey\r\n").unwrap_err();
    assert_eq!(
        err,
        ParseError::StructuralMismatch { expected: Expected::Byte(b' '), actual: None, offset: 11 },
    );
}

#[test]
fn lone_line_feed_is_fatal() {
    // A lone LF is not a blank line: it opens a header line that then
    // never finds its CR LF terminator.
    let err = parse("\n").unwrap_err();
    assert_eq!(
        err,
        ParseError::StructuralMismatch { expected: Expected::Byte(b'\r'), actual: None, offset: 1 },
    );
}

#[test]
fn lone_carriage_return_is_fatal() {
    // A lone CR is not a blank line either: the header line it opens is
    // empty, and the byte after its CR must then be LF.
    let err = parse("\r").unwrap_err();
    assert_eq!(
        err,
        ParseError::StructuralMismatch { expected: Expected::Byte(b'\n'), actual: None, offset: 1 },
    );
}

#[test]
fn empty_key_is_fatal() {
    // A body line that opens with a space has an empty key, which the
    // grammar forbids.
    let err = parse("T\r\n-\r\n v\r\n").unwrap_err();
    assert_eq!(
        err,
        ParseError::StructuralMismatch { expected: Expected::KeyByte, actual: Some(b' '), offset: 6 },
    );
}

#[test]
fn invalid_utf8_value_is_an_encoding_error() {
    let bytes = b"T\r\n-\r\nk \xFF\xFE\r\n";
    let err = BCDTableParser::from_bytes(bytes).parse().unwrap_err();
    assert_eq!(err, ParseError::EncodingError { offset: 8 });
}

#[test]
fn invalid_utf8_header_is_an_encoding_error() {
    let bytes = b"\xFFZ\r\n-\r\nk v\r\n";
    let err = BCDTableParser::from_bytes(bytes).parse().unwrap_err();
    assert_eq!(err, ParseError::EncodingError { offset: 0 });
}

#[test]
fn no_partial_tables_on_failure() {
    // The first table is complete, but the whole parse still fails on the
    // second table's truncated value line.
    let result = parse("A\r\n-\r\nk v\r\n\r\nB\r\n-\r\nk w");
    assert!(result.is_err());
}

#[test]
fn non_ascii_text_round_trips() {
    let input = "Vorw\u{e4}rts\r\n--\r\nbeschreibung Eintr\u{e4}ge \u{fc}berall\r\n";
    let tables = parse(input).unwrap();
    assert_eq!(tables[0].get("beschreibung").unwrap(), "Eintr\u{e4}ge \u{fc}berall");
}

#[test]
fn serialized_tables_parse_back() {
    // A concrete instance of the round-trip law: serialize two tables by
    // the grammar, parse, and find the same maps in the same order.
    let mut serialized = String::new();
    serialized.push_str("First\r\n-----\r\n");
    serialized.push_str("identifier {one}\r\n");
    serialized.push_str("description erste\r\n");
    serialized.push_str("\r\n");
    serialized.push_str("Second\r\n\r\n");
    serialized.push_str("identifier {two}\r\n");
    serialized.push_str("\r\n");
    let tables = parse(&serialized).unwrap();
    assert_eq!(tables.len(), 2);
    assert_eq!(tables[0].get("identifier").unwrap(), "{one}");
    assert_eq!(tables[0].get("description").unwrap(), "erste");
    assert_eq!(tables[1].get("identifier").unwrap(), "{two}");
    assert!(tables[1].get("description").is_none());
}

#[test]
fn get_missing_key_is_none() {
    let tables = parse("T\r\n-\r\nk v\r\n").unwrap();
    assert!(tables[0].get("missing").is_none());
    assert!(!tables[0].contains_key("missing"));
    assert!(tables[0].contains_key("k"));
}

#[test]
fn insert_replaces_existing_binding() {
    let mut table = BCDTable::new();
    table.insert("k".to_string(), "a".to_string());
    table.insert("k".to_string(), "b".to_string());
    assert_eq!(table.get("k").unwrap(), "b");
}

#[test]
fn filter_keeps_only_complete_boot_entries() {
    let mut complete = BCDTable::new();
    complete.insert("description".to_string(), "Linux".to_string());
    complete.insert("identifier".to_string(), "{deadbeef}".to_string());
    let mut incomplete = BCDTable::new();
    incomplete.insert("identifier".to_string(), "{bootmgr}".to_string());
    let kept = filter_boot_entries(vec![complete, incomplete]);
    assert_eq!(kept.len(), 1);
    assert_eq!(kept[0].get("description").unwrap(), "Linux");
    assert_eq!(kept[0].get("identifier").unwrap(), "{deadbeef}");
}

#[test]
fn filter_keeps_order_of_candidates() {
    let mut a = BCDTable::new();
    a.insert("description".to_string(), "A".to_string());
    a.insert("identifier".to_string(), "{a}".to_string());
    let mut skipped = BCDTable::new();
    skipped.insert("description".to_string(), "no id".to_string());
    let mut b = BCDTable::new();
    b.insert("description".to_string(), "B".to_string());
    b.insert("identifier".to_string(), "{b}".to_string());
    let kept = filter_boot_entries(vec![a, skipped, b]);
    assert_eq!(kept.len(), 2);
    assert_eq!(kept[0].get("description").unwrap(), "A");
    assert_eq!(kept[1].get("description").unwrap(), "B");
}
