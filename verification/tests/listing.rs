// The glyph listing parser: tab-separated lines with comma-separated
// codepoint, name and category lists.

use mfekufo::glyphs::{glyphs_from_listing, parse_glyph_listing, ListingError};

#[test]
fn encoded_and_unencoded_lines_parse() {
    let listing = "A\t41\tLATIN CAPITAL LETTER A\tLu\nspace.alt\n";
    let v = parse_glyph_listing(listing).unwrap();
    assert_eq!(v.len(), 2);
    assert_eq!(v[0].name, "A");
    assert_eq!(v[0].unicode.len(), 1);
    assert_eq!(v[0].unicode[0].encoding, 'A');
    assert_eq!(v[0].unicode[0].name, "LATIN CAPITAL LETTER A");
    assert_eq!(v[0].unicode[0].category, "Lu");
    assert_eq!(v[1].name, "space.alt");
    assert!(v[1].unicode.is_empty());
}

#[test]
fn comma_lists_pair_up_to_the_shortest() {
    let listing = "fi\t66,69\tLATIN SMALL LETTER F,LATIN SMALL LETTER I\tLl\n";
    let v = parse_glyph_listing(listing).unwrap();
    assert_eq!(v[0].unicode.len(), 1);
    assert_eq!(v[0].unicode[0].encoding, 'f');
}

#[test]
fn hex_codepoints_accept_letters_both_cases() {
    let v = parse_glyph_listing("alpha\t3b1\tGREEK\tLl\nbeta\t3B2\tGREEK\tLl\n").unwrap();
    assert_eq!(v[0].unicode[0].encoding, '\u{3B1}');
    assert_eq!(v[1].unicode[0].encoding, '\u{3B2}');
}

#[test]
fn short_encoded_line_is_rejected() {
    let e = parse_glyph_listing("A\t41\tname-without-category\n").unwrap_err();
    assert_eq!(e, ListingError::MissingFields);
}

#[test]
fn bad_codepoints_are_rejected() {
    assert_eq!(parse_glyph_listing("A\txyz\tN\tLu\n").unwrap_err(), ListingError::BadCodepoint);
    // a surrogate is not a Unicode scalar value
    assert_eq!(parse_glyph_listing("A\tD800\tN\tCs\n").unwrap_err(), ListingError::BadCodepoint);
    // beyond the last codepoint
    assert_eq!(parse_glyph_listing("A\t110000\tN\tLu\n").unwrap_err(), ListingError::BadCodepoint);
}

#[test]
fn empty_fields_between_tabs_are_ignored() {
    let v = parse_glyph_listing("A\t\t41\tN\tLu\n").unwrap();
    assert_eq!(v[0].name, "A");
    assert_eq!(v[0].unicode[0].encoding, 'A');
}

#[test]
fn listing_glyphs_come_out_sorted() {
    let listing = "zed\nb\t62\tB\tLl\na\t61\tA\tLl\nalpha\n";
    let v = glyphs_from_listing(listing).unwrap();
    let names: Vec<&str> = v.iter().map(|g| g.name.as_str()).collect();
    assert_eq!(names, vec!["a", "b", "alpha", "zed"]);
}

#[test]
fn empty_listing_yields_no_glyphs() {
    assert!(parse_glyph_listing("").unwrap().is_empty());
    assert!(parse_glyph_listing("\n\n").unwrap().is_empty());
}
