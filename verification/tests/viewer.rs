// The viewer session: loading masters, deduplication, the glyph-name index,
// outline updates from the file watcher, and the exit flag.

use mfekufo::glif::{Contour, Glif};
use mfekufo::glyph_entries::GlyphEntry;
use mfekufo::viewer::{UFOViewer, UFO};
use mfekufo::metadata::Metadata;

fn entry(name: &str, points: usize) -> GlyphEntry {
    GlyphEntry {
        glifname: name.to_string(),
        codepoints: String::new(),
        uniname: name.to_string(),
        unicat: String::new(),
        filename: format!("{}.glif", name),
        glif: Glif {
            name: name.to_string(),
            filename: format!("{}.glif", name),
            width: Some(600),
            outline: Some(vec![Contour { points, is_open: false }]),
        },
    }
}

fn master(path: &str, entries: Vec<GlyphEntry>) -> UFO {
    UFO {
        metadata: Metadata { name: path.to_string(), ascender: 800, descender: -200 },
        path: path.to_string(),
        glyph_entries: entries,
        unicode_blocks: Vec::new(),
    }
}

#[test]
fn fresh_session_is_empty() {
    let v = UFOViewer::default();
    assert!(v.masters.is_empty());
    assert!(v.get_active_master().is_none());
    assert!(v.interpolation_check.is_none());
    assert!(!v.is_requesting_exit());
}

#[test]
fn set_font_loads_one_master_and_checks_it() {
    let mut v = UFOViewer::default();
    v.set_font(master("light", vec![entry("A", 10), entry("B", 4)]));
    assert_eq!(v.masters.len(), 1);
    assert_eq!(v.get_active_master().unwrap().path, "light");
    assert_eq!(v.glyph_name_map.len(), 2);
    assert_eq!(v.glyph_name_map[0], ("A".to_string(), 0));
    assert_eq!(v.glyph_name_map[1], ("B".to_string(), 1));
    let check = v.interpolation_check.as_ref().unwrap();
    assert!(check.succeeded);
}

#[test]
fn add_master_skips_duplicates_by_path() {
    let mut v = UFOViewer::default();
    v.set_font(master("light", vec![entry("A", 10)]));
    v.add_master(master("light", vec![entry("Z", 1)]));
    assert_eq!(v.masters.len(), 1);
    v.add_master(master("bold", vec![entry("A", 10)]));
    assert_eq!(v.masters.len(), 2);
    assert!(v.dirty);
    assert!(v.interpolation_check.as_ref().unwrap().succeeded);
}

#[test]
fn add_master_recomputes_the_check() {
    let mut v = UFOViewer::default();
    v.set_font(master("light", vec![entry("A", 10)]));
    v.add_master(master("bold", vec![entry("A", 12)]));
    let check = v.interpolation_check.as_ref().unwrap();
    assert!(!check.succeeded);
    assert_eq!(check.point_count_collisions, vec!["A".to_string()]);
}

#[test]
fn outline_update_replaces_matching_entries_everywhere() {
    let mut v = UFOViewer::default();
    v.set_font(master("light", vec![entry("A", 10), entry("B", 4)]));
    v.add_master(master("bold", vec![entry("A", 10), entry("B", 4)]));
    assert!(v.interpolation_check.as_ref().unwrap().succeeded);
    // the watcher reports A.glif changed: only the bold master's copy grows
    // stale if the update were applied partially; it is applied to both
    let changed = Glif {
        name: "A".to_string(),
        filename: "A.glif".to_string(),
        width: Some(600),
        outline: Some(vec![Contour { points: 11, is_open: false }]),
    };
    v.apply_glyph_update(&changed);
    assert!(v.dirty);
    for m in &v.masters {
        let a = m.glyph_entries.iter().find(|e| e.glifname == "A").unwrap();
        assert_eq!(a.glif.outline.as_ref().unwrap()[0].points, 11);
    }
    // both masters took the same new outline, so the check still passes
    assert!(v.interpolation_check.as_ref().unwrap().succeeded);
}

#[test]
fn active_master_can_be_selected() {
    let mut v = UFOViewer::default();
    v.set_font(master("light", vec![entry("A", 10)]));
    v.add_master(master("bold", vec![entry("A", 10)]));
    assert_eq!(v.get_active_master().unwrap().path, "light");
    v.set_active_master(1);
    assert_eq!(v.get_active_master().unwrap().path, "bold");
    v.set_active_master(9);
    assert!(v.get_active_master().is_none());
}

#[test]
fn exit_request_is_remembered() {
    let mut v = UFOViewer::default();
    assert!(!v.is_requesting_exit());
    v.exit();
    assert!(v.is_requesting_exit());
}
