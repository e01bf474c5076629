// The render cache: placeholder on miss, FIFO rebuild, invalidation.

use mfekufo::glif::Glif;
use mfekufo::glyph_entries::GlyphEntry;
use mfekufo::ufo_cache::{is_flagged, UFOCache};
use mfekufo::interpolation::InterpolationCheckResults;

fn entry(name: &str) -> GlyphEntry {
    GlyphEntry {
        glifname: name.to_string(),
        codepoints: String::new(),
        uniname: name.to_string(),
        unicat: String::new(),
        filename: format!("{}.glif", name),
        glif: Glif {
            name: name.to_string(),
            filename: format!("{}.glif", name),
            width: None,
            outline: None,
        },
    }
}

const PLACEHOLDER: u64 = 0;

fn fresh_cache() -> UFOCache<u64> {
    let mut c: UFOCache<u64> = UFOCache::new();
    c.create_default_texture(PLACEHOLDER);
    c
}

#[test]
fn miss_yields_placeholder_and_queues_once() {
    let mut c = fresh_cache();
    let g = entry("g");
    assert_eq!(*c.get_image_handle(&g), PLACEHOLDER);
    // repeated lookups while queued do not queue again
    assert_eq!(*c.get_image_handle(&g), PLACEHOLDER);
    assert_eq!(*c.get_image_handle(&g), PLACEHOLDER);
    let popped = c.pop_rebuild().expect("one queued entry");
    assert_eq!(popped.glifname, "g");
    assert!(c.pop_rebuild().is_none());
}

#[test]
fn drained_entry_becomes_ready() {
    let mut c = fresh_cache();
    let g = entry("g");
    assert_eq!(*c.get_image_handle(&g), PLACEHOLDER);
    // drain the queue with an unbounded budget: render and store
    let mut rendered: u64 = 40;
    while let Some(e) = c.pop_rebuild() {
        rendered += 1;
        c.set_image_handle(&e, rendered);
    }
    let h = *c.get_image_handle(&g);
    assert_eq!(h, 41);
    assert_ne!(h, PLACEHOLDER);
    assert!(c.pop_rebuild().is_none());
}

#[test]
fn invalidation_replaces_ready_entry_and_requeues_once() {
    let mut c = fresh_cache();
    let g = entry("g");
    let _ = c.get_image_handle(&g);
    let e = c.pop_rebuild().unwrap();
    c.set_image_handle(&e, 7);
    assert_eq!(*c.get_image_handle(&g), 7);
    c.invalidate(&g);
    // immediately the placeholder again, not the stale image
    assert_eq!(*c.get_image_handle(&g), PLACEHOLDER);
    // re-queued exactly once, also under repeated lookups
    let _ = c.get_image_handle(&g);
    let popped = c.pop_rebuild().expect("requeued entry");
    assert_eq!(popped.glifname, "g");
    assert!(c.pop_rebuild().is_none());
}

#[test]
fn queue_drains_oldest_first() {
    let mut c = fresh_cache();
    let a = entry("a");
    let b = entry("b");
    let d = entry("d");
    let _ = c.get_image_handle(&a);
    let _ = c.get_image_handle(&b);
    let _ = c.get_image_handle(&d);
    assert_eq!(c.pop_rebuild().unwrap().glifname, "a");
    assert_eq!(c.pop_rebuild().unwrap().glifname, "b");
    assert_eq!(c.pop_rebuild().unwrap().glifname, "d");
    assert!(c.pop_rebuild().is_none());
}

#[test]
fn force_rebuild_all_requeues_ready_entries() {
    let mut c = fresh_cache();
    let a = entry("a");
    let b = entry("b");
    let _ = c.get_image_handle(&a);
    let _ = c.get_image_handle(&b);
    while let Some(e) = c.pop_rebuild() {
        c.set_image_handle(&e, 9);
    }
    c.force_rebuild_all();
    assert_eq!(*c.get_image_handle(&a), PLACEHOLDER);
    let mut names = Vec::new();
    while let Some(e) = c.pop_rebuild() {
        names.push(e.glifname);
    }
    names.sort();
    assert_eq!(names, vec!["a".to_string(), "b".to_string()]);
}

#[test]
fn clear_rebuild_empties_the_queue() {
    let mut c = fresh_cache();
    let _ = c.get_image_handle(&entry("a"));
    let _ = c.get_image_handle(&entry("b"));
    c.clear_rebuild();
    assert!(c.pop_rebuild().is_none());
}

#[test]
fn second_placeholder_is_ignored() {
    let mut c: UFOCache<u64> = UFOCache::new();
    c.create_default_texture(3);
    c.create_default_texture(4);
    assert_eq!(*c.get_image_handle(&entry("g")), 3);
}

#[test]
fn flag_lookup_reads_combined_set() {
    assert!(!is_flagged(&None, &"A".to_string()));
    let results = InterpolationCheckResults {
        succeeded: false,
        glyph_set: vec!["A".to_string(), "B".to_string()],
        missing_combined: vec!["A".to_string()],
        contour_count_collisions: Vec::new(),
        point_count_collisions: Vec::new(),
        contour_open_collisions: Vec::new(),
        combined: vec!["A".to_string()],
    };
    let some = Some(results);
    assert!(is_flagged(&some, &"A".to_string()));
    assert!(!is_flagged(&some, &"B".to_string()));
}
