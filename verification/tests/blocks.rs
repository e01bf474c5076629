// The codepoint block classifier: the UCD lookup, the ordered block map,
// and the partition of a glyph collection into per-block buckets.

use mfekufo::blocks::{for_unicode_data, grouped_by};
use mfekufo::glyphs::{to_unique_codepoints, GlyphRef, UnicodeData};

fn ud(encoding: char) -> UnicodeData {
    UnicodeData { name: String::new(), category: String::new(), encoding }
}

fn glyph(name: &str, encodings: &[char]) -> GlyphRef {
    GlyphRef {
        name: name.to_string(),
        unicode: encodings.iter().map(|&e| ud(e)).collect(),
    }
}

#[test]
fn ucd_lookup_resolves_real_blocks() {
    let unique = vec![ud('A'), ud('\u{3B1}')];
    let map = for_unicode_data(&unique);
    assert_eq!(map.len(), 2);
    assert_eq!(map[0].low, '\u{0}');
    assert_eq!(map[0].high, '\u{7F}');
    assert_eq!(map[0].name, "Basic Latin");
    assert_eq!(map[1].low, '\u{370}');
    assert_eq!(map[1].high, '\u{3FF}');
    assert_eq!(map[1].name, "Greek and Coptic");
}

#[test]
fn codepoints_of_one_block_collapse_to_one_entry() {
    let unique = vec![ud('A'), ud('z'), ud('0')];
    let map = for_unicode_data(&unique);
    assert_eq!(map.len(), 1);
    assert_eq!(map[0].name, "Basic Latin");
}

#[test]
fn grouping_partitions_glyphs_with_unencoded_last() {
    let gvec = vec![
        glyph("a", &['a']),
        glyph("alpha", &['\u{3B1}']),
        glyph("unbound", &[]),
        glyph("b", &['b']),
    ];
    let unique = to_unique_codepoints(&gvec);
    let map = for_unicode_data(&unique);
    let blocks = grouped_by(&gvec, &map);
    assert_eq!(blocks.len(), map.len() + 1);
    let last = blocks.last().unwrap();
    assert_eq!(last.name, "Unencoded");
    assert!(last.range.is_none());
    let names: Vec<&str> = last.glyphs.iter().map(|g| g.name.as_str()).collect();
    assert_eq!(names, vec!["unbound"]);
    // every glyph with one codepoint appears in exactly one real block
    let mut seen = 0;
    for b in &blocks[..blocks.len() - 1] {
        for g in &b.glyphs {
            assert!(g.unicode.len() == 1);
            seen += 1;
        }
    }
    assert_eq!(seen, 3);
    let latin = blocks.iter().find(|b| b.name == "Basic Latin").unwrap();
    let latin_names: Vec<&str> = latin.glyphs.iter().map(|g| g.name.as_str()).collect();
    assert_eq!(latin_names, vec!["a", "b"]);
}

#[test]
fn glyph_spanning_blocks_appears_in_each() {
    let gvec = vec![glyph("lig", &['a', '\u{3B1}'])];
    let unique = to_unique_codepoints(&gvec);
    let map = for_unicode_data(&unique);
    let blocks = grouped_by(&gvec, &map);
    assert_eq!(blocks.len(), 3);
    assert_eq!(blocks[0].glyphs.len(), 1);
    assert_eq!(blocks[1].glyphs.len(), 1);
    assert!(blocks[2].glyphs.is_empty());
}

#[test]
fn unresolvable_codepoints_are_dropped() {
    // U+E000 is a private-use codepoint; the UCD still assigns it a block,
    // so use an unassigned plane-4 codepoint instead, which has none.
    let unique = vec![ud('\u{4E000}')];
    let map = for_unicode_data(&unique);
    assert!(map.is_empty());
    let gvec = vec![glyph("stray", &['\u{4E000}'])];
    let blocks = grouped_by(&gvec, &map);
    assert_eq!(blocks.len(), 1);
    assert_eq!(blocks[0].name, "Unencoded");
    // the glyph has an assignment, so it is not unencoded either
    assert!(blocks[0].glyphs.is_empty());
}
