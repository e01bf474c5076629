// The interpolation consistency checker: identical masters pass, missing
// glyphs and structural divergences are flagged.

use mfekufo::glif::{Contour, Glif};
use mfekufo::glyph_entries::GlyphEntry;
use mfekufo::interpolation::{
    check_interpolatable, count_different_contour_counts, create_glyph_set,
    get_master_glyph_set_difference,
};
use mfekufo::metadata::Metadata;
use mfekufo::viewer::UFO;

fn contour(points: usize, is_open: bool) -> Contour {
    Contour { points, is_open }
}

fn entry(uniname: &str, contours: &[Contour]) -> GlyphEntry {
    GlyphEntry {
        glifname: uniname.to_string(),
        codepoints: String::new(),
        uniname: uniname.to_string(),
        unicat: String::new(),
        filename: format!("{}.glif", uniname),
        glif: Glif {
            name: uniname.to_string(),
            filename: format!("{}.glif", uniname),
            width: Some(500),
            outline: Some(contours.to_vec()),
        },
    }
}

fn master(path: &str, entries: Vec<GlyphEntry>) -> UFO {
    UFO {
        metadata: Metadata { name: path.to_string(), ascender: 800, descender: -200 },
        path: path.to_string(),
        glyph_entries: entries,
        unicode_blocks: Vec::new(),
    }
}

fn has(v: &[String], n: &str) -> bool {
    v.iter().any(|s| s == n)
}

#[test]
fn identical_masters_are_consistent() {
    let mk = |p: &str| {
        master(
            p,
            vec![
                entry("A", &[contour(10, false), contour(4, true)]),
                entry("B", &[contour(7, false)]),
            ],
        )
    };
    let masters = vec![mk("light"), mk("bold"), mk("black")];
    let r = check_interpolatable(&masters);
    assert!(r.succeeded);
    assert!(r.combined.is_empty());
    assert!(r.missing_combined.is_empty());
    assert!(r.contour_count_collisions.is_empty());
    assert!(r.point_count_collisions.is_empty());
    assert!(r.contour_open_collisions.is_empty());
    assert_eq!(r.glyph_set.len(), 2);
}

#[test]
fn missing_glyph_is_reported() {
    // three masters; the middle one lacks "X" entirely
    let a = master("a", vec![entry("X", &[contour(3, false), contour(5, false)])]);
    let b = master("b", vec![]);
    let c = master("c", vec![entry("X", &[contour(3, false), contour(5, false)])]);
    let r = check_interpolatable(&vec![a, b, c]);
    assert!(!r.succeeded);
    assert_eq!(r.missing_combined, vec!["X".to_string()]);
    assert!(has(&r.combined, "X"));
}

#[test]
fn point_count_divergence_is_flagged_alone() {
    // both masters hold "O" with one contour, but the point counts differ
    let a = master("a", vec![entry("O", &[contour(10, false)])]);
    let b = master("b", vec![entry("O", &[contour(11, false)])]);
    let r = check_interpolatable(&vec![a, b]);
    assert!(!r.succeeded);
    assert_eq!(r.point_count_collisions, vec!["O".to_string()]);
    assert!(r.contour_count_collisions.is_empty());
    assert!(r.missing_combined.is_empty());
    assert!(has(&r.combined, "O"));
}

#[test]
fn contour_count_divergence_is_flagged() {
    let a = master("a", vec![entry("Q", &[contour(8, false), contour(8, false)])]);
    let b = master("b", vec![entry("Q", &[contour(8, false)])]);
    let r = check_interpolatable(&vec![a, b]);
    assert!(!r.succeeded);
    assert!(has(&r.contour_count_collisions, "Q"));
    assert!(has(&r.combined, "Q"));
}

#[test]
fn absent_outline_counts_as_zero_contours() {
    let mut e = entry("W", &[]);
    e.glif.outline = None;
    let a = master("a", vec![e]);
    let b = master("b", vec![entry("W", &[contour(6, false)])]);
    let r = check_interpolatable(&vec![a, b]);
    assert!(!r.succeeded);
    assert!(has(&r.contour_count_collisions, "W"));
}

#[test]
fn open_state_divergence_is_flagged() {
    let a = master("a", vec![entry("S", &[contour(5, true)])]);
    let b = master("b", vec![entry("S", &[contour(5, false)])]);
    let r = check_interpolatable(&vec![a, b]);
    assert!(!r.succeeded);
    assert!(has(&r.contour_open_collisions, "S"));
    assert!(r.point_count_collisions.is_empty());
    assert!(r.contour_count_collisions.is_empty());
}

#[test]
fn no_masters_check_out_clean() {
    let r = check_interpolatable(&Vec::new());
    assert!(r.succeeded);
    assert!(r.glyph_set.is_empty());
    assert!(r.combined.is_empty());
}

#[test]
fn glyph_set_unions_names() {
    let a = master("a", vec![entry("A", &[]), entry("B", &[])]);
    let b = master("b", vec![entry("B", &[]), entry("C", &[])]);
    let masters = vec![a, b];
    let set = create_glyph_set(&masters);
    assert_eq!(set.len(), 3);
    assert!(has(&set, "A") && has(&set, "B") && has(&set, "C"));
    let diff = get_master_glyph_set_difference(&masters[0], &set);
    assert_eq!(diff, vec!["C".to_string()]);
}

#[test]
fn contour_collector_names_only_divergent_glyphs() {
    let a = master("a", vec![entry("P", &[contour(4, false)]), entry("R", &[contour(2, false)])]);
    let b = master(
        "b",
        vec![entry("P", &[contour(4, false)]), entry("R", &[contour(2, false), contour(9, false)])],
    );
    let flagged = count_different_contour_counts(&vec![a, b]);
    assert_eq!(flagged, vec!["R".to_string()]);
}
