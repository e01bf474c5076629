// The metadata parser: a JSON name line, then integer metrics.

use mfekufo::metadata::{parse_metadata, MetadataError};

#[test]
fn well_formed_listing_parses() {
    let m = parse_metadata("\"My Font\"\n800\n-200\n\"(c) nobody\"\n").unwrap();
    assert_eq!(m.name, "My Font");
    assert_eq!(m.ascender, 800);
    assert_eq!(m.descender, -200);
}

#[test]
fn non_string_json_name_reads_as_empty() {
    let m = parse_metadata("123\n10\n-5").unwrap();
    assert_eq!(m.name, "");
    assert_eq!(m.ascender, 10);
    assert_eq!(m.descender, -5);
}

#[test]
fn empty_listing_misses_the_name() {
    assert_eq!(parse_metadata("").unwrap_err(), MetadataError::MissingName);
}

#[test]
fn malformed_json_name_is_rejected() {
    assert_eq!(parse_metadata("\"unterminated\n1\n2").unwrap_err(), MetadataError::InvalidName);
}

#[test]
fn missing_metrics_are_rejected_in_order() {
    assert_eq!(parse_metadata("\"F\"").unwrap_err(), MetadataError::MissingAscender);
    assert_eq!(parse_metadata("\"F\"\n800").unwrap_err(), MetadataError::MissingDescender);
}

#[test]
fn malformed_metrics_are_rejected() {
    assert_eq!(parse_metadata("\"F\"\nabc\n-1").unwrap_err(), MetadataError::InvalidAscender);
    assert_eq!(parse_metadata("\"F\"\n800\n1e3").unwrap_err(), MetadataError::InvalidDescender);
    // out of range for a 32-bit value
    assert_eq!(
        parse_metadata("\"F\"\n99999999999\n-1").unwrap_err(),
        MetadataError::InvalidAscender
    );
}

#[test]
fn signs_and_carriage_returns_are_accepted() {
    let m = parse_metadata("\"F\"\r\n+750\r\n-250\r\n").unwrap();
    assert_eq!(m.ascender, 750);
    assert_eq!(m.descender, -250);
}
