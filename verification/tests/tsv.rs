// The tab-separated row parser for the extraction service's glyph table.

use mfekufo::glyph_entries::{parse_tsv, TsvError};

const HEADER: &str = "glifname\tcodepoints\tuniname\tunicat\tfilename";

#[test]
fn rows_are_read_by_header_position() {
    let data = format!("{}\nA\t41\tA\tLu\tA_.glif\nB\t42\tB\tLu\tB_.glif\n", HEADER);
    let rows = parse_tsv(&data).unwrap();
    assert_eq!(rows.len(), 2);
    assert_eq!(rows[0].glifname, "A");
    assert_eq!(rows[0].codepoints, "41");
    assert_eq!(rows[0].uniname, "A");
    assert_eq!(rows[0].unicat, "Lu");
    assert_eq!(rows[0].filename, "A_.glif");
    assert_eq!(rows[1].filename, "B_.glif");
}

#[test]
fn column_order_does_not_matter() {
    let data = "filename\tglifname\tcodepoints\tuniname\tunicat\nf.glif\tg\t10\tn\tc\n";
    let rows = parse_tsv(data).unwrap();
    assert_eq!(rows[0].glifname, "g");
    assert_eq!(rows[0].filename, "f.glif");
}

#[test]
fn missing_column_is_rejected() {
    let e = parse_tsv("glifname\tcodepoints\tuniname\tunicat\nA\t41\tA\tLu\n").unwrap_err();
    assert_eq!(e, TsvError::MissingColumn);
    assert_eq!(parse_tsv("").unwrap_err(), TsvError::MissingColumn);
}

#[test]
fn ragged_row_is_rejected() {
    let data = format!("{}\nA\t41\tA\n", HEADER);
    assert_eq!(parse_tsv(&data).unwrap_err(), TsvError::RaggedRow);
}

#[test]
fn blank_lines_are_skipped() {
    let data = format!("{}\n\nA\t41\tA\tLu\tA_.glif\n\n", HEADER);
    assert_eq!(parse_tsv(&data).unwrap().len(), 1);
}

#[test]
fn header_alone_yields_no_rows() {
    let rows = parse_tsv(HEADER).unwrap();
    assert!(rows.is_empty());
}
