// Fuzzy glyph filtering: matching, ranking, and case handling.

use mfekufo::filter::filter_glyphs;
use mfekufo::glif::Glif;
use mfekufo::glyph_entries::GlyphEntry;

fn entry(name: &str) -> GlyphEntry {
    GlyphEntry {
        glifname: name.to_string(),
        codepoints: String::new(),
        uniname: name.to_string(),
        unicat: String::new(),
        filename: format!("{}.glif", name),
        glif: Glif {
            name: name.to_string(),
            filename: format!("{}.glif", name),
            width: None,
            outline: None,
        },
    }
}

#[test]
fn non_matching_glyphs_are_dropped() {
    let entries = vec![entry("acute"), entry("grave"), entry("circumflex")];
    let kept = filter_glyphs(&entries, "gr");
    let names: Vec<&str> = kept.iter().map(|e| e.glifname.as_str()).collect();
    assert_eq!(names, vec!["grave"]);
}

#[test]
fn empty_query_keeps_everything() {
    let entries = vec![entry("a"), entry("b")];
    assert_eq!(filter_glyphs(&entries, "").len(), 2);
}

#[test]
fn closer_matches_rank_first() {
    let entries = vec![entry("x.alternate.test"), entry("test")];
    let kept = filter_glyphs(&entries, "test");
    assert_eq!(kept.len(), 2);
    assert_eq!(kept[0].glifname, "test");
}

#[test]
fn names_are_matched_case_insensitively() {
    // the names are lowercased before scoring, so an uppercase glyph name
    // still answers a lowercase query
    let entries = vec![entry("AE"), entry("oe")];
    let kept = filter_glyphs(&entries, "ae");
    assert_eq!(kept.len(), 1);
    assert_eq!(kept[0].glifname, "AE");
}

#[test]
fn scattered_query_letters_still_match() {
    let entries = vec![entry("axbycz")];
    assert_eq!(filter_glyphs(&entries, "abc").len(), 1);
    assert_eq!(filter_glyphs(&entries, "zzz").len(), 0);
}
