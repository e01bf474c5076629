// The glyph identity model: equality, the display ordering, uniqueness of
// codepoints, and sorting.

use std::cmp::Ordering;

use mfekufo::glyphs::{sort_glyphs, to_unique_codepoints, GlyphRef, UnicodeData};

fn ud(name: &str, category: &str, encoding: char) -> UnicodeData {
    UnicodeData { name: name.to_string(), category: category.to_string(), encoding }
}

fn glyph(name: &str, encodings: &[char]) -> GlyphRef {
    GlyphRef {
        name: name.to_string(),
        unicode: encodings.iter().map(|&e| ud("N", "Lu", e)).collect(),
    }
}

#[test]
fn assignment_equality_is_by_codepoint_alone() {
    assert_eq!(ud("LATIN A", "Lu", 'A'), ud("OTHER NAME", "Ll", 'A'));
    assert_ne!(ud("X", "Lu", 'A'), ud("X", "Lu", 'B'));
    assert_eq!(ud("a", "Ll", 'q').cmp(&ud("b", "Lu", 'q')), Ordering::Equal);
    assert_eq!(ud("a", "Ll", 'a').cmp(&ud("b", "Lu", 'b')), Ordering::Less);
}

#[test]
fn encoded_glyphs_sort_by_first_codepoint() {
    let a = glyph("one", &['B', 'A']);
    let b = glyph("two", &['C']);
    assert_eq!(a.cmp(&b), Ordering::Less);
    assert_eq!(b.cmp(&a), Ordering::Greater);
    let c = glyph("other", &['B', 'Z']);
    assert_eq!(a.cmp(&c), Ordering::Equal);
}

#[test]
fn encoded_sorts_before_unencoded() {
    let enc = glyph("zzz", &['\u{10FFFF}']);
    let unenc = glyph("aaa", &[]);
    assert_eq!(enc.cmp(&unenc), Ordering::Less);
    assert_eq!(unenc.cmp(&enc), Ordering::Greater);
}

#[test]
fn unencoded_sort_by_name() {
    let a = glyph("alpha", &[]);
    let b = glyph("beta", &[]);
    assert_eq!(a.cmp(&b), Ordering::Less);
    assert_eq!(b.cmp(&a), Ordering::Greater);
    assert_eq!(a.cmp(&glyph("alpha", &[])), Ordering::Equal);
    // a proper prefix sorts before its extensions
    assert_eq!(glyph("ab", &[]).cmp(&glyph("abc", &[])), Ordering::Less);
}

#[test]
fn glyph_equality_is_structural() {
    let a = glyph("g", &['x', 'y']);
    let b = glyph("g", &['x', 'y']);
    assert_eq!(a, b);
    assert_ne!(a, glyph("h", &['x', 'y']));
    assert_ne!(a, glyph("g", &['x']));
}

#[test]
fn partial_cmp_agrees_with_cmp() {
    let a = glyph("a", &['a']);
    let b = glyph("b", &['b']);
    assert_eq!(a.partial_cmp(&b), Some(Ordering::Less));
    assert_eq!(ud("x", "c", 'x').partial_cmp(&ud("y", "c", 'x')), Some(Ordering::Equal));
}

#[test]
fn sort_glyphs_orders_display_sequence() {
    let mut v = vec![
        glyph("omega", &[]),
        glyph("b", &['B']),
        glyph("alpha", &[]),
        glyph("a", &['A']),
    ];
    sort_glyphs(&mut v);
    let names: Vec<&str> = v.iter().map(|g| g.name.as_str()).collect();
    assert_eq!(names, vec!["a", "b", "alpha", "omega"]);
}

#[test]
fn unique_codepoints_collapse_duplicates() {
    let v = vec![
        glyph("a", &['A', 'B']),
        glyph("b", &['B']),
        glyph("c", &[]),
        glyph("d", &['A']),
    ];
    let u = to_unique_codepoints(&v);
    let encs: Vec<char> = u.iter().map(|x| x.encoding).collect();
    assert_eq!(encs, vec!['A', 'B']);
}
