//! Interpolation consistency checker: structural diffing of the loaded
//! masters, joined by glyph name. Reports glyphs missing from some master and
//! glyphs whose contour counts, per-contour point counts, or per-contour
//! open/closed states diverge across masters.

use vstd::prelude::*;

use crate::glyph_entries::{GlyphEntry, GlyphEntryView};
use crate::strutil::str_eq;
use crate::viewer::{ufo_seq_view, wf_masters, UFO, UFOView};

verus! {

/// Whether a master lists a glyph of the given name.
pub open spec fn master_has(m: UFOView, n: Seq<char>) -> bool {
    exists|e: int| 0 <= e < m.glyph_entries.len() && (#[trigger] m.glyph_entries[e]).uniname == n
}

/// Whether any master of the collection lists the name: the name universe.
pub open spec fn universe_has(ms: Seq<UFOView>, n: Seq<char>) -> bool {
    exists|i: int| 0 <= i < ms.len() && master_has(#[trigger] ms[i], n)
}

/// Whether the name is in the universe but absent from at least one master.
pub open spec fn missing_spec(ms: Seq<UFOView>, n: Seq<char>) -> bool {
    universe_has(ms, n) && exists|j: int| 0 <= j < ms.len() && !master_has(#[trigger] ms[j], n)
}

/// Whether two masters hold the name with differing contour counts (an
/// absent outline counts as zero contours).
pub open spec fn contour_flagged(ms: Seq<UFOView>, n: Seq<char>) -> bool {
    exists|i: int, j: int, a: int, b: int|
        {
            &&& 0 <= i < ms.len() && 0 <= j < ms.len()
            &&& 0 <= a < ms[i].glyph_entries.len() && 0 <= b < ms[j].glyph_entries.len()
            &&& (#[trigger] ms[i].glyph_entries[a]).uniname == n
            &&& (#[trigger] ms[j].glyph_entries[b]).uniname == n
            &&& ms[i].glyph_entries[a].glif.outline.len() != ms[j].glyph_entries[b].glif.outline.len()
        }
}

/// Whether two masters hold the name with contours at the given index whose
/// point counts differ. A master lacking the glyph, or lacking that contour
/// index, contributes nothing.
pub open spec fn point_flagged_at(ms: Seq<UFOView>, n: Seq<char>, idx: int) -> bool {
    exists|i: int, j: int, a: int, b: int|
        #![trigger ms[i].glyph_entries[a].glif.outline[idx], ms[j].glyph_entries[b].glif.outline[idx]]
        {
            &&& 0 <= i < ms.len() && 0 <= j < ms.len()
            &&& 0 <= a < ms[i].glyph_entries.len() && 0 <= b < ms[j].glyph_entries.len()
            &&& ms[i].glyph_entries[a].uniname == n
            &&& ms[j].glyph_entries[b].uniname == n
            &&& 0 <= idx < ms[i].glyph_entries[a].glif.outline.len()
            &&& idx < ms[j].glyph_entries[b].glif.outline.len()
            &&& ms[i].glyph_entries[a].glif.outline[idx].points != ms[j].glyph_entries[b].glif.outline[idx].points
        }
}

/// Whether any contour index shows a point-count divergence for the name.
pub open spec fn point_flagged(ms: Seq<UFOView>, n: Seq<char>) -> bool {
    exists|idx: int| point_flagged_at(ms, n, idx)
}

/// As `point_flagged_at`, comparing the open/closed flag instead.
pub open spec fn open_flagged_at(ms: Seq<UFOView>, n: Seq<char>, idx: int) -> bool {
    exists|i: int, j: int, a: int, b: int|
        #![trigger ms[i].glyph_entries[a].glif.outline[idx], ms[j].glyph_entries[b].glif.outline[idx]]
        {
            &&& 0 <= i < ms.len() && 0 <= j < ms.len()
            &&& 0 <= a < ms[i].glyph_entries.len() && 0 <= b < ms[j].glyph_entries.len()
            &&& ms[i].glyph_entries[a].uniname == n
            &&& ms[j].glyph_entries[b].uniname == n
            &&& 0 <= idx < ms[i].glyph_entries[a].glif.outline.len()
            &&& idx < ms[j].glyph_entries[b].glif.outline.len()
            &&& ms[i].glyph_entries[a].glif.outline[idx].is_open != ms[j].glyph_entries[b].glif.outline[idx].is_open
        }
}

/// Whether any contour index shows an open/closed divergence for the name.
pub open spec fn open_flagged(ms: Seq<UFOView>, n: Seq<char>) -> bool {
    exists|idx: int| open_flagged_at(ms, n, idx)
}

/// Whether the name is reported at all: missing somewhere, or flagged by one
/// of the three structural comparisons.
pub open spec fn in_combined(ms: Seq<UFOView>, n: Seq<char>) -> bool {
    missing_spec(ms, n) || contour_flagged(ms, n) || point_flagged(ms, n) || open_flagged(ms, n)
}

/// The whole collection is interpolation-consistent: no name is missing
/// anywhere and no structural comparison flags any name.
pub open spec fn check_ok(ms: Seq<UFOView>) -> bool {
    forall|n: Seq<char>| !#[trigger] in_combined(ms, n)
}

/// Whether a name list holds the given text.
pub open spec fn names_contain(v: Seq<String>, n: Seq<char>) -> bool {
    exists|k: int| 0 <= k < v.len() && (#[trigger] v[k])@ == n
}

/// A name list without repeats.
pub open spec fn names_distinct(v: Seq<String>) -> bool {
    forall|a: int, b: int| 0 <= a < b < v.len() ==> (#[trigger] v[a])@ != (#[trigger] v[b])@
}

/// Whether a name list holds the given text, executably.
pub fn contains_name(v: &Vec<String>, n: &String) -> (r: bool)
    ensures
        r <==> names_contain(v@, n@),
{
    let mut k: usize = 0;
    let mut found = false;
    while k < v.len()
        invariant
            k <= v@.len(),
            found <==> exists|q: int| 0 <= q < k && (#[trigger] v@[q])@ == n@,
        decreases v@.len() - k,
    {
        if str_eq(v[k].as_str(), n.as_str()) {
            found = true;
        }
        k = k + 1;
    }
    found
}

/// Whether a master lists the name, executably.
fn master_contains(m: &UFO, n: &String) -> (r: bool)
    ensures
        r <==> master_has(m@, n@),
{
    let mut e: usize = 0;
    let mut found = false;
    while e < m.glyph_entries.len()
        invariant
            e <= m.glyph_entries@.len(),
            found <==> exists|q: int|
                0 <= q < e && (#[trigger] m@.glyph_entries[q]).uniname == n@,
        decreases m.glyph_entries@.len() - e,
    {
        if str_eq(m.glyph_entries[e].uniname.as_str(), n.as_str()) {
            found = true;
            proof {
                assert(m@.glyph_entries[e as int].uniname == n@);
            }
        }
        e = e + 1;
    }
    found
}

/// The union of the glyph names across all masters, each name once, in
/// first-appearance order.
pub fn create_glyph_set(masters: &Vec<UFO>) -> (r: Vec<String>)
    ensures
        names_distinct(r@),
        forall|n: Seq<char>|
            #![trigger names_contain(r@, n)]
            #![trigger universe_has(ufo_seq_view(masters@), n)]
            names_contain(r@, n) <==> universe_has(ufo_seq_view(masters@), n),
{
    let ghost ms = ufo_seq_view(masters@);
    let mut r: Vec<String> = Vec::new();
    let mut i: usize = 0;
    while i < masters.len()
        invariant
            i <= masters@.len(),
            ms == ufo_seq_view(masters@),
            names_distinct(r@),
            forall|k: int| 0 <= k < r@.len() ==> universe_has(ms, (#[trigger] r@[k])@),
            forall|i2: int, e: int|
                0 <= i2 < i && 0 <= e < ms[i2].glyph_entries.len() ==> names_contain(
                    r@,
                    (#[trigger] ms[i2].glyph_entries[e]).uniname,
                ),
        decreases masters@.len() - i,
    {
        let m = &masters[i];
        let mut e: usize = 0;
        while e < m.glyph_entries.len()
            invariant
                i < masters@.len(),
                m == masters@[i as int],
                ms == ufo_seq_view(masters@),
                e <= m.glyph_entries@.len(),
                names_distinct(r@),
                forall|k: int| 0 <= k < r@.len() ==> universe_has(ms, (#[trigger] r@[k])@),
                forall|i2: int, e2: int|
                    0 <= i2 < i && 0 <= e2 < ms[i2].glyph_entries.len() ==> names_contain(
                        r@,
                        (#[trigger] ms[i2].glyph_entries[e2]).uniname,
                    ),
                forall|e2: int|
                    0 <= e2 < e ==> names_contain(
                        r@,
                        (#[trigger] ms[i as int].glyph_entries[e2]).uniname,
                    ),
            decreases m.glyph_entries@.len() - e,
        {
            let name = &m.glyph_entries[e].uniname;
            let ghost r_before = r@;
            if !contains_name(&r, name) {
                r.push(name.clone());
                proof {
                    assert(ms[i as int].glyph_entries[e as int].uniname == name@);
                    assert(master_has(ms[i as int], name@));
                    assert(universe_has(ms, name@));
                    assert(r@[r@.len() - 1]@ == name@);
                    assert forall|k: int| 0 <= k < r@.len() implies universe_has(
                        ms,
                        (#[trigger] r@[k])@,
                    ) by {
                        if k < r_before.len() {
                            assert(r@[k] == r_before[k]);
                        }
                    }
                    assert forall|a: int, b: int| 0 <= a < b < r@.len() implies (
                    #[trigger] r@[a])@ != (#[trigger] r@[b])@ by {
                        if b < r_before.len() {
                            assert(r@[a] == r_before[a] && r@[b] == r_before[b]);
                        } else {
                            assert(r@[a] == r_before[a]);
                            assert(!names_contain(r_before, name@));
                        }
                    }
                }
            }
            proof {
                assert(names_contain(r@, ms[i as int].glyph_entries[e as int].uniname));
                assert forall|i2: int, e2: int|
                    0 <= i2 < i && 0 <= e2 < ms[i2].glyph_entries.len() implies names_contain(
                    r@,
                    (#[trigger] ms[i2].glyph_entries[e2]).uniname,
                ) by {
                    let nm = ms[i2].glyph_entries[e2].uniname;
                    assert(names_contain(r_before, nm));
                    let q = choose|q: int| 0 <= q < r_before.len() && (#[trigger] r_before[q])@ == nm;
                    assert(r@[q]@ == nm);
                }
                assert forall|e2: int| 0 <= e2 < e + 1 implies names_contain(
                    r@,
                    (#[trigger] ms[i as int].glyph_entries[e2]).uniname,
                ) by {
                    if e2 < e {
                        let nm = ms[i as int].glyph_entries[e2].uniname;
                        assert(names_contain(r_before, nm));
                        let q = choose|q: int|
                            0 <= q < r_before.len() && (#[trigger] r_before[q])@ == nm;
                        assert(r@[q]@ == nm);
                    }
                }
            }
            e = e + 1;
        }
        i = i + 1;
    }
    proof {
        assert forall|n: Seq<char>| names_contain(r@, n) == universe_has(ms, n) by {
            if universe_has(ms, n) {
                let i = choose|i: int| 0 <= i < ms.len() && master_has(#[trigger] ms[i], n);
                let e = choose|e: int|
                    0 <= e < ms[i].glyph_entries.len() && (#[trigger] ms[i].glyph_entries[e]).uniname
                        == n;
                assert(names_contain(r@, ms[i].glyph_entries[e].uniname));
            }
            if names_contain(r@, n) {
                let k = choose|k: int| 0 <= k < r@.len() && (#[trigger] r@[k])@ == n;
                assert(universe_has(ms, r@[k]@));
            }
        }
    }
    r
}

/// The names of the glyph set that a given master lacks: the master's
/// difference against the combined set.
pub fn get_master_glyph_set_difference(master: &UFO, glyph_set: &Vec<String>) -> (r: Vec<String>)
    requires
        names_distinct(glyph_set@),
    ensures
        names_distinct(r@),
        forall|n: Seq<char>|
            #![trigger names_contain(r@, n)]
            #![trigger names_contain(glyph_set@, n)]
            names_contain(r@, n) <==> names_contain(glyph_set@, n) && !master_has(master@, n),
{
    let mut r: Vec<String> = Vec::new();
    let mut k: usize = 0;
    while k < glyph_set.len()
        invariant
            k <= glyph_set@.len(),
            names_distinct(glyph_set@),
            forall|q: int|
                0 <= q < r@.len() ==> names_contain(glyph_set@, (#[trigger] r@[q])@)
                    && !master_has(master@, r@[q]@),
            forall|q: int|
                0 <= q < k && !master_has(master@, (#[trigger] glyph_set@[q])@) ==> names_contain(
                    r@,
                    glyph_set@[q]@,
                ),
            names_distinct(r@),
            forall|q: int| 0 <= q < r@.len() ==> exists|j: int|
                0 <= j < k && (#[trigger] r@[q])@ == glyph_set@[j]@,
        decreases glyph_set@.len() - k,
    {
        let name = &glyph_set[k];
        let ghost r_before = r@;
        if !master_contains(master, name) {
            r.push(name.clone());
            proof {
                assert(r@[r@.len() - 1]@ == glyph_set@[k as int]@);
                assert forall|a: int, b: int| 0 <= a < b < r@.len() implies (#[trigger] r@[a])@
                    != (#[trigger] r@[b])@ by {
                    if b < r_before.len() {
                        assert(r@[a] == r_before[a] && r@[b] == r_before[b]);
                    } else {
                        assert(r@[a] == r_before[a]);
                        let j = choose|j: int|
                            0 <= j < k && (#[trigger] r_before[a])@ == glyph_set@[j]@;
                        assert(glyph_set@[j]@ != glyph_set@[k as int]@);
                    }
                }
            }
        }
        proof {
            assert forall|q: int|
                0 <= q < k + 1 && !master_has(master@, (#[trigger] glyph_set@[q])@)
                implies names_contain(r@, glyph_set@[q]@) by {
                if q < k {
                    let j = choose|j: int|
                        0 <= j < r_before.len() && (#[trigger] r_before[j])@ == glyph_set@[q]@;
                    assert(r@[j]@ == glyph_set@[q]@);
                } else {
                    assert(r@[r@.len() - 1]@ == glyph_set@[q]@);
                }
            }
        }
        k = k + 1;
    }
    proof {
        assert forall|n: Seq<char>|
            names_contain(r@, n) == (names_contain(glyph_set@, n) && !master_has(
            master@,
            n,
        )) by {
            if names_contain(r@, n) {
                let q = choose|q: int| 0 <= q < r@.len() && (#[trigger] r@[q])@ == n;
                assert(names_contain(glyph_set@, r@[q]@));
            }
            if names_contain(glyph_set@, n) && !master_has(master@, n) {
                let q = choose|q: int| 0 <= q < glyph_set@.len() && (#[trigger] glyph_set@[q])@ == n;
                assert(names_contain(r@, glyph_set@[q]@));
            }
        }
    }
    r
}

/// Finds the index of the entry with the given name in a master, if any.
fn find_entry(m: &UFO, n: &String) -> (r: Option<usize>)
    ensures
        match r {
            Some(e) => e < m@.glyph_entries.len() && m@.glyph_entries[e as int].uniname == n@,
            None => !master_has(m@, n@),
        },
{
    let mut e: usize = 0;
    while e < m.glyph_entries.len()
        invariant
            e <= m.glyph_entries@.len(),
            forall|q: int| 0 <= q < e ==> (#[trigger] m@.glyph_entries[q]).uniname != n@,
        decreases m.glyph_entries@.len() - e,
    {
        if str_eq(m.glyph_entries[e].uniname.as_str(), n.as_str()) {
            proof {
                assert(m@.glyph_entries[e as int].uniname == n@);
            }
            return Some(e);
        }
        e = e + 1;
    }
    None
}

/// In a well-formed master, any entry carrying the name sits at the found
/// index.
proof fn lemma_entry_unique(m: UFOView, n: Seq<char>, e: int, a: int)
    requires
        crate::viewer::wf_master(m),
        0 <= e < m.glyph_entries.len(),
        0 <= a < m.glyph_entries.len(),
        m.glyph_entries[e].uniname == n,
        m.glyph_entries[a].uniname == n,
    ensures
        a == e,
{
}

/// The number of contours of an entry's outline.
fn outline_len(entry: &GlyphEntry) -> (r: usize)
    ensures
        r == entry@.glif.outline.len(),
{
    match &entry.glif.outline {
        Some(v) => v.len(),
        None => 0,
    }
}

/// Whether the masters disagree on the glyph's contour count: true exactly
/// when two masters both list the name with differing outline lengths.
pub fn has_contour_mismatch(masters: &Vec<UFO>, name: &String) -> (r: bool)
    requires
        wf_masters(ufo_seq_view(masters@)),
    ensures
        r <==> contour_flagged(ufo_seq_view(masters@), name@),
{
    let ghost ms = ufo_seq_view(masters@);
    let mut first: Option<usize> = None;
    let ghost mut wi: int = 0;
    let ghost mut wa: int = 0;
    let mut i: usize = 0;
    while i < masters.len()
        invariant
            i <= masters@.len(),
            ms == ufo_seq_view(masters@),
            wf_masters(ms),
            match first {
                Some(c) => {
                    &&& 0 <= wi < i && 0 <= wa < ms[wi].glyph_entries.len()
                    &&& (#[trigger] ms[wi].glyph_entries[wa]).uniname == name@
                    &&& ms[wi].glyph_entries[wa].glif.outline.len() == c
                    &&& forall|i2: int, a: int|
                        0 <= i2 < i && 0 <= a < ms[i2].glyph_entries.len() && (
                        #[trigger] ms[i2].glyph_entries[a]).uniname == name@
                            ==> ms[i2].glyph_entries[a].glif.outline.len() == c
                },
                None => forall|i2: int| 0 <= i2 < i ==> !master_has(#[trigger] ms[i2], name@),
            },
        decreases masters@.len() - i,
    {
        match find_entry(&masters[i], name) {
            Some(e) => {
                let c = outline_len(&masters[i].glyph_entries[e]);
                proof {
                    assert(ms[i as int] == masters@[i as int]@);
                    assert(ms[i as int].glyph_entries[e as int].uniname == name@);
                }
                match first {
                    None => {
                        first = Some(c);
                        proof {
                            wi = i as int;
                            wa = e as int;
                            assert forall|i2: int, a: int|
                                0 <= i2 < i + 1 && 0 <= a < ms[i2].glyph_entries.len() && (
                                #[trigger] ms[i2].glyph_entries[a]).uniname == name@
                                    implies ms[i2].glyph_entries[a].glif.outline.len() == c by {
                                if i2 == i {
                                    lemma_entry_unique(ms[i2], name@, e as int, a);
                                } else {
                                    assert(master_has(ms[i2], name@));
                                }
                            }
                        }
                    },
                    Some(c0) => {
                        if c != c0 {
                            proof {
                                assert(ms[wi].glyph_entries[wa].uniname == name@);
                                assert(ms[i as int].glyph_entries[e as int].uniname == name@);
                                assert(contour_flagged(ms, name@));
                            }
                            return true;
                        }
                        proof {
                            assert forall|i2: int, a: int|
                                0 <= i2 < i + 1 && 0 <= a < ms[i2].glyph_entries.len() && (
                                #[trigger] ms[i2].glyph_entries[a]).uniname == name@
                                    implies ms[i2].glyph_entries[a].glif.outline.len() == c0 by {
                                if i2 == i {
                                    lemma_entry_unique(ms[i2], name@, e as int, a);
                                }
                            }
                        }
                    },
                }
            },
            None => {
                proof {
                    if first is Some {
                        assert forall|i2: int, a: int|
                            0 <= i2 < i + 1 && 0 <= a < ms[i2].glyph_entries.len() && (
                            #[trigger] ms[i2].glyph_entries[a]).uniname == name@
                                implies ms[i2].glyph_entries[a].glif.outline.len()
                            == first->0 by {
                            if i2 == i {
                                assert(master_has(ms[i2], name@));
                            }
                        }
                    } else {
                        assert(!master_has(ms[i as int], name@));
                    }
                }
            },
        }
        i = i + 1;
    }
    proof {
        if contour_flagged(ms, name@) {
            let (fi, fj, fa, fb) = choose|fi: int, fj: int, fa: int, fb: int|
                {
                    &&& 0 <= fi < ms.len() && 0 <= fj < ms.len()
                    &&& 0 <= fa < ms[fi].glyph_entries.len() && 0 <= fb < ms[fj].glyph_entries.len()
                    &&& (#[trigger] ms[fi].glyph_entries[fa]).uniname == name@
                    &&& (#[trigger] ms[fj].glyph_entries[fb]).uniname == name@
                    &&& ms[fi].glyph_entries[fa].glif.outline.len() != ms[fj].glyph_entries[fb].glif.outline.len()
                };
            match first {
                Some(c) => {
                    assert(ms[fi].glyph_entries[fa].glif.outline.len() == c);
                    assert(ms[fj].glyph_entries[fb].glif.outline.len() == c);
                },
                None => {
                    assert(master_has(ms[fi], name@));
                },
            }
        }
    }
    false
}

/// Whether the masters disagree on a point count at some contour index of
/// the glyph: true exactly when two masters both have a contour at one index
/// with differing point counts.
pub fn has_point_mismatch(masters: &Vec<UFO>, name: &String) -> (r: bool)
    requires
        wf_masters(ufo_seq_view(masters@)),
    ensures
        r <==> point_flagged(ufo_seq_view(masters@), name@),
{
    let ghost ms = ufo_seq_view(masters@);
    let mut maxlen: usize = 0;
    let mut i: usize = 0;
    while i < masters.len()
        invariant
            i <= masters@.len(),
            ms == ufo_seq_view(masters@),
            wf_masters(ms),
            forall|i2: int, a: int|
                0 <= i2 < i && 0 <= a < ms[i2].glyph_entries.len() && (
                #[trigger] ms[i2].glyph_entries[a]).uniname == name@
                    ==> ms[i2].glyph_entries[a].glif.outline.len() <= maxlen,
        decreases masters@.len() - i,
    {
        match find_entry(&masters[i], name) {
            Some(e) => {
                let c = outline_len(&masters[i].glyph_entries[e]);
                if c > maxlen {
                    maxlen = c;
                }
                proof {
                    assert(ms[i as int] == masters@[i as int]@);
                    assert forall|i2: int, a: int|
                        0 <= i2 < i + 1 && 0 <= a < ms[i2].glyph_entries.len() && (
                        #[trigger] ms[i2].glyph_entries[a]).uniname == name@
                            implies ms[i2].glyph_entries[a].glif.outline.len() <= maxlen by {
                        if i2 == i {
                            lemma_entry_unique(ms[i2], name@, e as int, a);
                        }
                    }
                }
            },
            None => {
                proof {
                    assert(!master_has(ms[i as int], name@));
                    assert forall|i2: int, a: int|
                        0 <= i2 < i + 1 && 0 <= a < ms[i2].glyph_entries.len() && (
                        #[trigger] ms[i2].glyph_entries[a]).uniname == name@
                            implies ms[i2].glyph_entries[a].glif.outline.len() <= maxlen by {
                        if i2 == i {
                            assert(master_has(ms[i2], name@));
                        }
                    }
                }
            },
        }
        i = i + 1;
    }
    let mut idx: usize = 0;
    while idx < maxlen
        invariant
            ms == ufo_seq_view(masters@),
            wf_masters(ms),
            forall|i2: int, a: int|
                0 <= i2 < ms.len() && 0 <= a < ms[i2].glyph_entries.len() && (
                #[trigger] ms[i2].glyph_entries[a]).uniname == name@
                    ==> ms[i2].glyph_entries[a].glif.outline.len() <= maxlen,
            forall|q: int| 0 <= q < idx ==> !point_flagged_at(ms, name@, q),
        decreases maxlen - idx,
    {
        let mut first: Option<usize> = None;
        let ghost mut wi: int = 0;
        let ghost mut wa: int = 0;
        let mut i: usize = 0;
        while i < masters.len()
            invariant
                i <= masters@.len(),
                ms == ufo_seq_view(masters@),
                wf_masters(ms),
                match first {
                    Some(p) => {
                        &&& 0 <= wi < i && 0 <= wa < ms[wi].glyph_entries.len()
                        &&& (#[trigger] ms[wi].glyph_entries[wa]).uniname == name@
                        &&& idx < ms[wi].glyph_entries[wa].glif.outline.len()
                        &&& ms[wi].glyph_entries[wa].glif.outline[idx as int].points == p
                        &&& forall|i2: int, a: int|
                            0 <= i2 < i && 0 <= a < ms[i2].glyph_entries.len() && (
                            #[trigger] ms[i2].glyph_entries[a]).uniname == name@ && idx < ms[
                                i2
                            ].glyph_entries[a].glif.outline.len() ==> ms[i2].glyph_entries[
                            a
                        ].glif.outline[idx as int].points == p
                    },
                    None => forall|i2: int, a: int|
                        0 <= i2 < i && 0 <= a < ms[i2].glyph_entries.len() && (
                        #[trigger] ms[i2].glyph_entries[a]).uniname == name@ ==> ms[
                            i2
                        ].glyph_entries[a].glif.outline.len() <= idx,
                },
            decreases masters@.len() - i,
        {
            match find_entry(&masters[i], name) {
                Some(e) => {
                    let entry = &masters[i].glyph_entries[e];
                    let c = outline_len(entry);
                    proof {
                        assert(ms[i as int] == masters@[i as int]@);
                        assert(ms[i as int].glyph_entries[e as int].uniname == name@);
                    }
                    if idx < c {
                        let p = match &entry.glif.outline {
                            Some(v) => v[idx].points,
                            None => 0,
                        };
                        proof {
                            assert(p == ms[i as int].glyph_entries[e as int].glif.outline[
                                idx as int
                            ].points);
                        }
                        match first {
                            None => {
                                first = Some(p);
                                proof {
                                    wi = i as int;
                                    wa = e as int;
                                    assert forall|i2: int, a: int|
                                        0 <= i2 < i + 1 && 0 <= a < ms[i2].glyph_entries.len() && (
                                        #[trigger] ms[i2].glyph_entries[a]).uniname == name@ && idx
                                            < ms[i2].glyph_entries[a].glif.outline.len()
                                            implies ms[i2].glyph_entries[a].glif.outline[
                                        idx as int].points == p by {
                                        if i2 == i {
                                            lemma_entry_unique(ms[i2], name@, e as int, a);
                                        } else {
                                            assert(ms[i2].glyph_entries[a].glif.outline.len()
                                                <= idx);
                                        }
                                    }
                                }
                            },
                            Some(p0) => {
                                if p != p0 {
                                    proof {
                                        assert(point_flagged_at(ms, name@, idx as int));
                                        assert(point_flagged(ms, name@));
                                    }
                                    return true;
                                }
                                proof {
                                    assert forall|i2: int, a: int|
                                        0 <= i2 < i + 1 && 0 <= a < ms[i2].glyph_entries.len() && (
                                        #[trigger] ms[i2].glyph_entries[a]).uniname == name@ && idx
                                            < ms[i2].glyph_entries[a].glif.outline.len()
                                            implies ms[i2].glyph_entries[a].glif.outline[
                                        idx as int].points == p0 by {
                                        if i2 == i {
                                            lemma_entry_unique(ms[i2], name@, e as int, a);
                                        }
                                    }
                                }
                            },
                        }
                    } else {
                        proof {
                            assert forall|a: int|
                                0 <= a < ms[i as int].glyph_entries.len() && (#[trigger] ms[
                                    i as int
                                ].glyph_entries[a]).uniname == name@ implies ms[
                                i as int
                            ].glyph_entries[a].glif.outline.len() <= idx by {
                                lemma_entry_unique(ms[i as int], name@, e as int, a);
                            }
                        }
                    }
                },
                None => {
                    proof {
                        assert(!master_has(ms[i as int], name@));
                        assert forall|a: int|
                            0 <= a < ms[i as int].glyph_entries.len() implies (#[trigger] ms[
                                i as int
                            ].glyph_entries[a]).uniname != name@ by {
                            if ms[i as int].glyph_entries[a].uniname == name@ {
                                assert(master_has(ms[i as int], name@));
                            }
                        }
                    }
                },
            }
            i = i + 1;
        }
        proof {
            if point_flagged_at(ms, name@, idx as int) {
                let (fi, fj, fa, fb) = choose|fi: int, fj: int, fa: int, fb: int|
                    #![trigger ms[fi].glyph_entries[fa].glif.outline[idx as int], ms[fj].glyph_entries[fb].glif.outline[idx as int]]
                    {
                        &&& 0 <= fi < ms.len() && 0 <= fj < ms.len()
                        &&& 0 <= fa < ms[fi].glyph_entries.len() && 0 <= fb < ms[
                            fj
                        ].glyph_entries.len()
                        &&& ms[fi].glyph_entries[fa].uniname == name@
                        &&& ms[fj].glyph_entries[fb].uniname == name@
                        &&& 0 <= idx < ms[fi].glyph_entries[fa].glif.outline.len()
                        &&& idx < ms[fj].glyph_entries[fb].glif.outline.len()
                        &&& ms[fi].glyph_entries[fa].glif.outline[idx as int].points != ms[
                            fj
                        ].glyph_entries[fb].glif.outline[idx as int].points
                    };
                match first {
                    Some(p) => {
                        assert(ms[fi].glyph_entries[fa].glif.outline[idx as int].points == p);
                        assert(ms[fj].glyph_entries[fb].glif.outline[idx as int].points == p);
                    },
                    None => {
                        assert(ms[fi].glyph_entries[fa].glif.outline.len() <= idx);
                    },
                }
            }
        }
        idx = idx + 1;
    }
    proof {
        if point_flagged(ms, name@) {
            let q = choose|q: int| point_flagged_at(ms, name@, q);
            let (fi, fj, fa, fb) = choose|fi: int, fj: int, fa: int, fb: int|
                #![trigger ms[fi].glyph_entries[fa].glif.outline[q], ms[fj].glyph_entries[fb].glif.outline[q]]
                {
                    &&& 0 <= fi < ms.len() && 0 <= fj < ms.len()
                    &&& 0 <= fa < ms[fi].glyph_entries.len() && 0 <= fb < ms[fj].glyph_entries.len()
                    &&& ms[fi].glyph_entries[fa].uniname == name@
                    &&& ms[fj].glyph_entries[fb].uniname == name@
                    &&& 0 <= q < ms[fi].glyph_entries[fa].glif.outline.len()
                    &&& q < ms[fj].glyph_entries[fb].glif.outline.len()
                    &&& ms[fi].glyph_entries[fa].glif.outline[q].points != ms[fj].glyph_entries[fb].glif.outline[q].points
                };
            assert(ms[fi].glyph_entries[fa].glif.outline.len() <= maxlen);
            assert(0 <= q < maxlen);
            assert(!point_flagged_at(ms, name@, q));
        }
    }
    false
}
/// Whether the masters disagree on a contour's open/closed state at some
/// index of the glyph: true exactly when two masters both have a contour at
/// one index with differing open flags.
pub fn has_open_mismatch(masters: &Vec<UFO>, name: &String) -> (r: bool)
    requires
        wf_masters(ufo_seq_view(masters@)),
    ensures
        r <==> open_flagged(ufo_seq_view(masters@), name@),
{
    let ghost ms = ufo_seq_view(masters@);
    let mut maxlen: usize = 0;
    let mut i: usize = 0;
    while i < masters.len()
        invariant
            i <= masters@.len(),
            ms == ufo_seq_view(masters@),
            wf_masters(ms),
            forall|i2: int, a: int|
                0 <= i2 < i && 0 <= a < ms[i2].glyph_entries.len() && (
                #[trigger] ms[i2].glyph_entries[a]).uniname == name@
                    ==> ms[i2].glyph_entries[a].glif.outline.len() <= maxlen,
        decreases masters@.len() - i,
    {
        match find_entry(&masters[i], name) {
            Some(e) => {
                let c = outline_len(&masters[i].glyph_entries[e]);
                if c > maxlen {
                    maxlen = c;
                }
                proof {
                    assert(ms[i as int] == masters@[i as int]@);
                    assert forall|i2: int, a: int|
                        0 <= i2 < i + 1 && 0 <= a < ms[i2].glyph_entries.len() && (
                        #[trigger] ms[i2].glyph_entries[a]).uniname == name@
                            implies ms[i2].glyph_entries[a].glif.outline.len() <= maxlen by {
                        if i2 == i {
                            lemma_entry_unique(ms[i2], name@, e as int, a);
                        }
                    }
                }
            },
            None => {
                proof {
                    assert(!master_has(ms[i as int], name@));
                    assert forall|i2: int, a: int|
                        0 <= i2 < i + 1 && 0 <= a < ms[i2].glyph_entries.len() && (
                        #[trigger] ms[i2].glyph_entries[a]).uniname == name@
                            implies ms[i2].glyph_entries[a].glif.outline.len() <= maxlen by {
                        if i2 == i {
                            assert(master_has(ms[i2], name@));
                        }
                    }
                }
            },
        }
        i = i + 1;
    }
    let mut idx: usize = 0;
    while idx < maxlen
        invariant
            ms == ufo_seq_view(masters@),
            wf_masters(ms),
            forall|i2: int, a: int|
                0 <= i2 < ms.len() && 0 <= a < ms[i2].glyph_entries.len() && (
                #[trigger] ms[i2].glyph_entries[a]).uniname == name@
                    ==> ms[i2].glyph_entries[a].glif.outline.len() <= maxlen,
            forall|q: int| 0 <= q < idx ==> !open_flagged_at(ms, name@, q),
        decreases maxlen - idx,
    {
        let mut first: Option<bool> = None;
        let ghost mut wi: int = 0;
        let ghost mut wa: int = 0;
        let mut i: usize = 0;
        while i < masters.len()
            invariant
                i <= masters@.len(),
                ms == ufo_seq_view(masters@),
                wf_masters(ms),
                match first {
                    Some(p) => {
                        &&& 0 <= wi < i && 0 <= wa < ms[wi].glyph_entries.len()
                        &&& (#[trigger] ms[wi].glyph_entries[wa]).uniname == name@
                        &&& idx < ms[wi].glyph_entries[wa].glif.outline.len()
                        &&& ms[wi].glyph_entries[wa].glif.outline[idx as int].is_open == p
                        &&& forall|i2: int, a: int|
                            0 <= i2 < i && 0 <= a < ms[i2].glyph_entries.len() && (
                            #[trigger] ms[i2].glyph_entries[a]).uniname == name@ && idx < ms[
                                i2
                            ].glyph_entries[a].glif.outline.len() ==> ms[i2].glyph_entries[
                            a
                        ].glif.outline[idx as int].is_open == p
                    },
                    None => forall|i2: int, a: int|
                        0 <= i2 < i && 0 <= a < ms[i2].glyph_entries.len() && (
                        #[trigger] ms[i2].glyph_entries[a]).uniname == name@ ==> ms[
                            i2
                        ].glyph_entries[a].glif.outline.len() <= idx,
                },
            decreases masters@.len() - i,
        {
            match find_entry(&masters[i], name) {
                Some(e) => {
                    let entry = &masters[i].glyph_entries[e];
                    let c = outline_len(entry);
                    proof {
                        assert(ms[i as int] == masters@[i as int]@);
                        assert(ms[i as int].glyph_entries[e as int].uniname == name@);
                    }
                    if idx < c {
                        let p = match &entry.glif.outline {
                            Some(v) => v[idx].is_open,
                            None => false,
                        };
                        proof {
                            assert(p == ms[i as int].glyph_entries[e as int].glif.outline[
                                idx as int
                            ].is_open);
                        }
                        match first {
                            None => {
                                first = Some(p);
                                proof {
                                    wi = i as int;
                                    wa = e as int;
                                    assert forall|i2: int, a: int|
                                        0 <= i2 < i + 1 && 0 <= a < ms[i2].glyph_entries.len() && (
                                        #[trigger] ms[i2].glyph_entries[a]).uniname == name@ && idx
                                            < ms[i2].glyph_entries[a].glif.outline.len()
                                            implies ms[i2].glyph_entries[a].glif.outline[
                                        idx as int].is_open == p by {
                                        if i2 == i {
                                            lemma_entry_unique(ms[i2], name@, e as int, a);
                                        } else {
                                            assert(ms[i2].glyph_entries[a].glif.outline.len()
                                                <= idx);
                                        }
                                    }
                                }
                            },
                            Some(p0) => {
                                if p != p0 {
                                    proof {
                                        assert(open_flagged_at(ms, name@, idx as int));
                                        assert(open_flagged(ms, name@));
                                    }
                                    return true;
                                }
                                proof {
                                    assert forall|i2: int, a: int|
                                        0 <= i2 < i + 1 && 0 <= a < ms[i2].glyph_entries.len() && (
                                        #[trigger] ms[i2].glyph_entries[a]).uniname == name@ && idx
                                            < ms[i2].glyph_entries[a].glif.outline.len()
                                            implies ms[i2].glyph_entries[a].glif.outline[
                                        idx as int].is_open == p0 by {
                                        if i2 == i {
                                            lemma_entry_unique(ms[i2], name@, e as int, a);
                                        }
                                    }
                                }
                            },
                        }
                    } else {
                        proof {
                            assert forall|a: int|
                                0 <= a < ms[i as int].glyph_entries.len() && (#[trigger] ms[
                                    i as int
                                ].glyph_entries[a]).uniname == name@ implies ms[
                                i as int
                            ].glyph_entries[a].glif.outline.len() <= idx by {
                                lemma_entry_unique(ms[i as int], name@, e as int, a);
                            }
                        }
                    }
                },
                None => {
                    proof {
                        assert(!master_has(ms[i as int], name@));
                        assert forall|a: int|
                            0 <= a < ms[i as int].glyph_entries.len() implies (#[trigger] ms[
                                i as int
                            ].glyph_entries[a]).uniname != name@ by {
                            if ms[i as int].glyph_entries[a].uniname == name@ {
                                assert(master_has(ms[i as int], name@));
                            }
                        }
                    }
                },
            }
            i = i + 1;
        }
        proof {
            if open_flagged_at(ms, name@, idx as int) {
                let (fi, fj, fa, fb) = choose|fi: int, fj: int, fa: int, fb: int|
                    #![trigger ms[fi].glyph_entries[fa].glif.outline[idx as int], ms[fj].glyph_entries[fb].glif.outline[idx as int]]
                    {
                        &&& 0 <= fi < ms.len() && 0 <= fj < ms.len()
                        &&& 0 <= fa < ms[fi].glyph_entries.len() && 0 <= fb < ms[
                            fj
                        ].glyph_entries.len()
                        &&& ms[fi].glyph_entries[fa].uniname == name@
                        &&& ms[fj].glyph_entries[fb].uniname == name@
                        &&& 0 <= idx < ms[fi].glyph_entries[fa].glif.outline.len()
                        &&& idx < ms[fj].glyph_entries[fb].glif.outline.len()
                        &&& ms[fi].glyph_entries[fa].glif.outline[idx as int].is_open != ms[
                            fj
                        ].glyph_entries[fb].glif.outline[idx as int].is_open
                    };
                match first {
                    Some(p) => {
                        assert(ms[fi].glyph_entries[fa].glif.outline[idx as int].is_open == p);
                        assert(ms[fj].glyph_entries[fb].glif.outline[idx as int].is_open == p);
                    },
                    None => {
                        assert(ms[fi].glyph_entries[fa].glif.outline.len() <= idx);
                    },
                }
            }
        }
        idx = idx + 1;
    }
    proof {
        if open_flagged(ms, name@) {
            let q = choose|q: int| open_flagged_at(ms, name@, q);
            let (fi, fj, fa, fb) = choose|fi: int, fj: int, fa: int, fb: int|
                #![trigger ms[fi].glyph_entries[fa].glif.outline[q], ms[fj].glyph_entries[fb].glif.outline[q]]
                {
                    &&& 0 <= fi < ms.len() && 0 <= fj < ms.len()
                    &&& 0 <= fa < ms[fi].glyph_entries.len() && 0 <= fb < ms[fj].glyph_entries.len()
                    &&& ms[fi].glyph_entries[fa].uniname == name@
                    &&& ms[fj].glyph_entries[fb].uniname == name@
                    &&& 0 <= q < ms[fi].glyph_entries[fa].glif.outline.len()
                    &&& q < ms[fj].glyph_entries[fb].glif.outline.len()
                    &&& ms[fi].glyph_entries[fa].glif.outline[q].is_open != ms[fj].glyph_entries[fb].glif.outline[q].is_open
                };
            assert(ms[fi].glyph_entries[fa].glif.outline.len() <= maxlen);
            assert(0 <= q < maxlen);
            assert(!open_flagged_at(ms, name@, q));
        }
    }
    false
}

/// A structural flag names only glyphs that some master actually lists.
proof fn lemma_flagged_universe(ms: Seq<UFOView>, n: Seq<char>)
    ensures
        contour_flagged(ms, n) ==> universe_has(ms, n),
        point_flagged(ms, n) ==> universe_has(ms, n),
        open_flagged(ms, n) ==> universe_has(ms, n),
{
    if contour_flagged(ms, n) {
        let (fi, fj, fa, fb) = choose|fi: int, fj: int, fa: int, fb: int|
            {
                &&& 0 <= fi < ms.len() && 0 <= fj < ms.len()
                &&& 0 <= fa < ms[fi].glyph_entries.len() && 0 <= fb < ms[fj].glyph_entries.len()
                &&& (#[trigger] ms[fi].glyph_entries[fa]).uniname == n
                &&& (#[trigger] ms[fj].glyph_entries[fb]).uniname == n
                &&& ms[fi].glyph_entries[fa].glif.outline.len() != ms[fj].glyph_entries[fb].glif.outline.len()
            };
        assert(master_has(ms[fi], n));
        assert(universe_has(ms, n));
    }
    if point_flagged(ms, n) {
        let q = choose|q: int| point_flagged_at(ms, n, q);
        let (fi, fj, fa, fb) = choose|fi: int, fj: int, fa: int, fb: int|
            #![trigger ms[fi].glyph_entries[fa].glif.outline[q], ms[fj].glyph_entries[fb].glif.outline[q]]
            {
                &&& 0 <= fi < ms.len() && 0 <= fj < ms.len()
                &&& 0 <= fa < ms[fi].glyph_entries.len() && 0 <= fb < ms[fj].glyph_entries.len()
                &&& ms[fi].glyph_entries[fa].uniname == n
                &&& ms[fj].glyph_entries[fb].uniname == n
                &&& 0 <= q < ms[fi].glyph_entries[fa].glif.outline.len()
                &&& q < ms[fj].glyph_entries[fb].glif.outline.len()
                &&& ms[fi].glyph_entries[fa].glif.outline[q].points != ms[fj].glyph_entries[fb].glif.outline[q].points
            };
        assert(master_has(ms[fi], n));
        assert(universe_has(ms, n));
    }
    if open_flagged(ms, n) {
        let q = choose|q: int| open_flagged_at(ms, n, q);
        let (fi, fj, fa, fb) = choose|fi: int, fj: int, fa: int, fb: int|
            #![trigger ms[fi].glyph_entries[fa].glif.outline[q], ms[fj].glyph_entries[fb].glif.outline[q]]
            {
                &&& 0 <= fi < ms.len() && 0 <= fj < ms.len()
                &&& 0 <= fa < ms[fi].glyph_entries.len() && 0 <= fb < ms[fj].glyph_entries.len()
                &&& ms[fi].glyph_entries[fa].uniname == n
                &&& ms[fj].glyph_entries[fb].uniname == n
                &&& 0 <= q < ms[fi].glyph_entries[fa].glif.outline.len()
                &&& q < ms[fj].glyph_entries[fb].glif.outline.len()
                &&& ms[fi].glyph_entries[fa].glif.outline[q].is_open != ms[fj].glyph_entries[fb].glif.outline[q].is_open
            };
        assert(master_has(ms[fi], n));
        assert(universe_has(ms, n));
    }
}

/// Whether `n` stands among the first `bound` names at a position whose flag
/// is set.
pub open spec fn kept_name(glyph_set: Seq<String>, keep: Seq<bool>, bound: int, n: Seq<char>) -> bool {
    exists|j: int| 0 <= j < bound && (#[trigger] glyph_set[j])@ == n && keep[j]
}

/// Keeps the names whose flag is set, preserving order and distinctness.
fn select_names(glyph_set: &Vec<String>, keep: &Vec<bool>) -> (r: Vec<String>)
    requires
        glyph_set@.len() == keep@.len(),
        names_distinct(glyph_set@),
    ensures
        names_distinct(r@),
        forall|n: Seq<char>|
            #[trigger] names_contain(r@, n) <==> kept_name(
                glyph_set@,
                keep@,
                glyph_set@.len() as int,
                n,
            ),
{
    let mut r: Vec<String> = Vec::new();
    let mut k: usize = 0;
    while k < glyph_set.len()
        invariant
            k <= glyph_set@.len(),
            glyph_set@.len() == keep@.len(),
            names_distinct(glyph_set@),
            names_distinct(r@),
            forall|q: int|
                0 <= q < r@.len() ==> kept_name(glyph_set@, keep@, k as int, (#[trigger] r@[q])@),
            forall|j: int|
                0 <= j < k && keep@[j] ==> names_contain(r@, (#[trigger] glyph_set@[j])@),
        decreases glyph_set@.len() - k,
    {
        let ghost r_before = r@;
        if keep[k] {
            r.push(glyph_set[k].clone());
            proof {
                assert(keep@[k as int]);
                assert(r@[r@.len() - 1]@ == glyph_set@[k as int]@);
                assert forall|a: int, b: int| 0 <= a < b < r@.len() implies (#[trigger] r@[a])@
                    != (#[trigger] r@[b])@ by {
                    if b < r_before.len() {
                        assert(r@[a] == r_before[a] && r@[b] == r_before[b]);
                    } else {
                        assert(r@[a] == r_before[a]);
                        assert(kept_name(glyph_set@, keep@, k as int, r_before[a]@));
                        let j = choose|j: int|
                            0 <= j < k && (#[trigger] glyph_set@[j])@ == r_before[a]@ && keep@[j];
                        assert(glyph_set@[j]@ != glyph_set@[k as int]@);
                    }
                }
                assert forall|q: int| 0 <= q < r@.len() implies kept_name(
                    glyph_set@,
                    keep@,
                    k + 1,
                    (#[trigger] r@[q])@,
                ) by {
                    if q < r_before.len() {
                        assert(r@[q] == r_before[q]);
                        assert(kept_name(glyph_set@, keep@, k as int, r_before[q]@));
                        let j = choose|j: int|
                            0 <= j < k && (#[trigger] glyph_set@[j])@ == r_before[q]@ && keep@[j];
                        assert(0 <= j < k + 1 && glyph_set@[j]@ == r@[q]@ && keep@[j]);
                    } else {
                        assert(0 <= k < k + 1 && glyph_set@[k as int]@ == r@[q]@ && keep@[
                            k as int
                        ]);
                    }
                }
                assert forall|j: int|
                    0 <= j < k + 1 && keep@[j] implies names_contain(
                    r@,
                    (#[trigger] glyph_set@[j])@,
                ) by {
                    if j < k {
                        assert(names_contain(r_before, glyph_set@[j]@));
                        let q = choose|q: int|
                            0 <= q < r_before.len() && (#[trigger] r_before[q])@ == glyph_set@[j]@;
                        assert(r@[q]@ == glyph_set@[j]@);
                    } else {
                        assert(r@[r@.len() - 1]@ == glyph_set@[j]@);
                    }
                }
            }
        } else {
            proof {
                assert(!keep@[k as int]);
                assert forall|q: int| 0 <= q < r@.len() implies kept_name(
                    glyph_set@,
                    keep@,
                    k + 1,
                    (#[trigger] r@[q])@,
                ) by {
                    assert(kept_name(glyph_set@, keep@, k as int, r@[q]@));
                    let j = choose|j: int|
                        0 <= j < k && (#[trigger] glyph_set@[j])@ == r@[q]@ && keep@[j];
                    assert(0 <= j < k + 1 && glyph_set@[j]@ == r@[q]@ && keep@[j]);
                }
                assert forall|j: int|
                    0 <= j < k + 1 && keep@[j] implies names_contain(
                    r@,
                    (#[trigger] glyph_set@[j])@,
                ) by {
                    assert(j != k);
                }
            }
        }
        k = k + 1;
    }
    proof {
        assert forall|n: Seq<char>|
            names_contain(r@, n) == kept_name(
            glyph_set@,
            keep@,
            glyph_set@.len() as int,
            n,
        ) by {
            if names_contain(r@, n) {
                let q = choose|q: int| 0 <= q < r@.len() && (#[trigger] r@[q])@ == n;
                assert(kept_name(glyph_set@, keep@, glyph_set@.len() as int, r@[q]@));
            }
            if kept_name(glyph_set@, keep@, glyph_set@.len() as int, n) {
                let j = choose|j: int|
                    0 <= j < glyph_set@.len() && (#[trigger] glyph_set@[j])@ == n && keep@[j];
                assert(names_contain(r@, glyph_set@[j]@));
            }
        }
    }
    r
}

/// Whether at least one master lacks the name.
fn missing_from_some_master(masters: &Vec<UFO>, name: &String) -> (r: bool)
    ensures
        r <==> exists|j: int|
            0 <= j < ufo_seq_view(masters@).len() && !master_has(
                #[trigger] ufo_seq_view(masters@)[j],
                name@,
            ),
{
    let ghost ms = ufo_seq_view(masters@);
    let mut i: usize = 0;
    while i < masters.len()
        invariant
            i <= masters@.len(),
            ms == ufo_seq_view(masters@),
            forall|j: int| 0 <= j < i ==> master_has(#[trigger] ms[j], name@),
        decreases masters@.len() - i,
    {
        if !master_contains(&masters[i], name) {
            proof {
                assert(ms[i as int] == masters@[i as int]@);
                assert(!master_has(ms[i as int], name@));
            }
            return true;
        }
        proof {
            assert(ms[i as int] == masters@[i as int]@);
        }
        i = i + 1;
    }
    false
}

/// The names whose contour counts diverge across masters.
pub fn count_different_contour_counts(masters: &Vec<UFO>) -> (r: Vec<String>)
    requires
        wf_masters(ufo_seq_view(masters@)),
    ensures
        names_distinct(r@),
        forall|n: Seq<char>|
            #![trigger names_contain(r@, n)]
            #![trigger contour_flagged(ufo_seq_view(masters@), n)]
            names_contain(r@, n) <==> contour_flagged(ufo_seq_view(masters@), n),
{
    let ghost ms = ufo_seq_view(masters@);
    let glyph_set = create_glyph_set(masters);
    let mut keep: Vec<bool> = Vec::new();
    let mut k: usize = 0;
    while k < glyph_set.len()
        invariant
            k <= glyph_set@.len(),
            ms == ufo_seq_view(masters@),
            wf_masters(ms),
            keep@.len() == k,
            forall|q: int|
                0 <= q < k ==> (keep@[q] <==> contour_flagged(ms, (#[trigger] glyph_set@[q])@)),
        decreases glyph_set@.len() - k,
    {
        keep.push(has_contour_mismatch(masters, &glyph_set[k]));
        k = k + 1;
    }
    let r = select_names(&glyph_set, &keep);
    proof {
        assert forall|n: Seq<char>|
            names_contain(r@, n) == contour_flagged(ms, n) by {
            if names_contain(r@, n) {
                let k2 = choose|k2: int|
                    0 <= k2 < glyph_set@.len() && (#[trigger] glyph_set@[k2])@ == n && keep@[k2];
                assert(contour_flagged(ms, glyph_set@[k2]@));
            }
            if contour_flagged(ms, n) {
                lemma_flagged_universe(ms, n);
                assert(names_contain(glyph_set@, n));
                let k2 = choose|k2: int|
                    0 <= k2 < glyph_set@.len() && (#[trigger] glyph_set@[k2])@ == n;
                assert(keep@[k2]);
                assert(names_contain(r@, n));
            }
        }
    }
    r
}
/// The names whose per-contour point counts diverge across masters.
pub fn count_different_point_counts(masters: &Vec<UFO>) -> (r: Vec<String>)
    requires
        wf_masters(ufo_seq_view(masters@)),
    ensures
        names_distinct(r@),
        forall|n: Seq<char>|
            #![trigger names_contain(r@, n)]
            #![trigger point_flagged(ufo_seq_view(masters@), n)]
            names_contain(r@, n) <==> point_flagged(ufo_seq_view(masters@), n),
{
    let ghost ms = ufo_seq_view(masters@);
    let glyph_set = create_glyph_set(masters);
    let mut keep: Vec<bool> = Vec::new();
    let mut k: usize = 0;
    while k < glyph_set.len()
        invariant
            k <= glyph_set@.len(),
            ms == ufo_seq_view(masters@),
            wf_masters(ms),
            keep@.len() == k,
            forall|q: int|
                0 <= q < k ==> (keep@[q] <==> point_flagged(ms, (#[trigger] glyph_set@[q])@)),
        decreases glyph_set@.len() - k,
    {
        keep.push(has_point_mismatch(masters, &glyph_set[k]));
        k = k + 1;
    }
    let r = select_names(&glyph_set, &keep);
    proof {
        assert forall|n: Seq<char>|
            names_contain(r@, n) == point_flagged(ms, n) by {
            if names_contain(r@, n) {
                let k2 = choose|k2: int|
                    0 <= k2 < glyph_set@.len() && (#[trigger] glyph_set@[k2])@ == n && keep@[k2];
                assert(point_flagged(ms, glyph_set@[k2]@));
            }
            if point_flagged(ms, n) {
                lemma_flagged_universe(ms, n);
                assert(names_contain(glyph_set@, n));
                let k2 = choose|k2: int|
                    0 <= k2 < glyph_set@.len() && (#[trigger] glyph_set@[k2])@ == n;
                assert(keep@[k2]);
                assert(names_contain(r@, n));
            }
        }
    }
    r
}
/// The names whose per-contour open/closed states diverge across masters.
pub fn count_different_contour_open_state(masters: &Vec<UFO>) -> (r: Vec<String>)
    requires
        wf_masters(ufo_seq_view(masters@)),
    ensures
        names_distinct(r@),
        forall|n: Seq<char>|
            #![trigger names_contain(r@, n)]
            #![trigger open_flagged(ufo_seq_view(masters@), n)]
            names_contain(r@, n) <==> open_flagged(ufo_seq_view(masters@), n),
{
    let ghost ms = ufo_seq_view(masters@);
    let glyph_set = create_glyph_set(masters);
    let mut keep: Vec<bool> = Vec::new();
    let mut k: usize = 0;
    while k < glyph_set.len()
        invariant
            k <= glyph_set@.len(),
            ms == ufo_seq_view(masters@),
            wf_masters(ms),
            keep@.len() == k,
            forall|q: int|
                0 <= q < k ==> (keep@[q] <==> open_flagged(ms, (#[trigger] glyph_set@[q])@)),
        decreases glyph_set@.len() - k,
    {
        keep.push(has_open_mismatch(masters, &glyph_set[k]));
        k = k + 1;
    }
    let r = select_names(&glyph_set, &keep);
    proof {
        assert forall|n: Seq<char>|
            names_contain(r@, n) == open_flagged(ms, n) by {
            if names_contain(r@, n) {
                let k2 = choose|k2: int|
                    0 <= k2 < glyph_set@.len() && (#[trigger] glyph_set@[k2])@ == n && keep@[k2];
                assert(open_flagged(ms, glyph_set@[k2]@));
            }
            if open_flagged(ms, n) {
                lemma_flagged_universe(ms, n);
                assert(names_contain(glyph_set@, n));
                let k2 = choose|k2: int|
                    0 <= k2 < glyph_set@.len() && (#[trigger] glyph_set@[k2])@ == n;
                assert(keep@[k2]);
                assert(names_contain(r@, n));
            }
        }
    }
    r
}

/// The outcome of the interpolation check: the combined name universe, the
/// names missing from some master, the names flagged by each structural
/// comparison, their union, and whether everything was consistent.
#[derive(Debug)]
pub struct InterpolationCheckResults {
    pub succeeded: bool,
    pub glyph_set: Vec<String>,
    pub missing_combined: Vec<String>,
    pub contour_count_collisions: Vec<String>,
    pub point_count_collisions: Vec<String>,
    pub contour_open_collisions: Vec<String>,
    pub combined: Vec<String>,
}

/// What the interpolation check's outcome says of a master collection: each
/// name list is duplicate-free and lists exactly the names its predicate
/// selects, and success stands exactly for full consistency.
pub open spec fn results_match(r: InterpolationCheckResults, ms: Seq<UFOView>) -> bool {
    &&& names_distinct(r.glyph_set@)
    &&& names_distinct(r.missing_combined@)
    &&& names_distinct(r.contour_count_collisions@)
    &&& names_distinct(r.point_count_collisions@)
    &&& names_distinct(r.contour_open_collisions@)
    &&& names_distinct(r.combined@)
    &&& forall|n: Seq<char>|
        #![trigger names_contain(r.glyph_set@, n)]
        #![trigger universe_has(ms, n)]
        names_contain(r.glyph_set@, n) <==> universe_has(ms, n)
    &&& forall|n: Seq<char>|
        #![trigger names_contain(r.missing_combined@, n)]
        #![trigger missing_spec(ms, n)]
        names_contain(r.missing_combined@, n) <==> missing_spec(ms, n)
    &&& forall|n: Seq<char>|
        #![trigger names_contain(r.contour_count_collisions@, n)]
        #![trigger contour_flagged(ms, n)]
        names_contain(r.contour_count_collisions@, n) <==> contour_flagged(ms, n)
    &&& forall|n: Seq<char>|
        #![trigger names_contain(r.point_count_collisions@, n)]
        #![trigger point_flagged(ms, n)]
        names_contain(r.point_count_collisions@, n) <==> point_flagged(ms, n)
    &&& forall|n: Seq<char>|
        #![trigger names_contain(r.contour_open_collisions@, n)]
        #![trigger open_flagged(ms, n)]
        names_contain(r.contour_open_collisions@, n) <==> open_flagged(ms, n)
    &&& forall|n: Seq<char>|
        #![trigger names_contain(r.combined@, n)]
        #![trigger in_combined(ms, n)]
        names_contain(r.combined@, n) <==> in_combined(ms, n)
    &&& (r.succeeded <==> check_ok(ms))
}

/// Checks the masters for interpolation compatibility: joins glyphs by name
/// across masters and reports every name missing from some master or showing
/// a contour-count, point-count, or open-state divergence. Succeeds exactly
/// when nothing is reported.
pub fn check_interpolatable(masters: &Vec<UFO>) -> (r: InterpolationCheckResults)
    requires
        wf_masters(ufo_seq_view(masters@)),
    ensures
        results_match(r, ufo_seq_view(masters@)),
{
    let ghost ms = ufo_seq_view(masters@);
    let glyph_set = create_glyph_set(masters);
    let mut miss_b: Vec<bool> = Vec::new();
    let mut comb_b: Vec<bool> = Vec::new();
    let mut k: usize = 0;
    while k < glyph_set.len()
        invariant
            k <= glyph_set@.len(),
            ms == ufo_seq_view(masters@),
            wf_masters(ms),
            names_distinct(glyph_set@),
            forall|n: Seq<char>|
                #![trigger names_contain(glyph_set@, n)]
                #![trigger universe_has(ms, n)]
                names_contain(glyph_set@, n) <==> universe_has(ms, n),
            miss_b@.len() == k,
            comb_b@.len() == k,
            forall|q: int|
                0 <= q < k ==> (miss_b@[q] <==> missing_spec(ms, (#[trigger] glyph_set@[q])@)),
            forall|q: int|
                0 <= q < k ==> (comb_b@[q] <==> in_combined(ms, (#[trigger] glyph_set@[q])@)),
        decreases glyph_set@.len() - k,
    {
        let name = &glyph_set[k];
        proof {
            assert(names_contain(glyph_set@, name@));
            assert(universe_has(ms, name@));
        }
        let m = missing_from_some_master(masters, name);
        let c = has_contour_mismatch(masters, name);
        let p = has_point_mismatch(masters, name);
        let o = has_open_mismatch(masters, name);
        miss_b.push(m);
        comb_b.push(m || c || p || o);
        k = k + 1;
    }
    let missing_combined = select_names(&glyph_set, &miss_b);
    let combined = select_names(&glyph_set, &comb_b);
    let contour_count_collisions = count_different_contour_counts(masters);
    let point_count_collisions = count_different_point_counts(masters);
    let contour_open_collisions = count_different_contour_open_state(masters);
    proof {
        assert forall|n: Seq<char>|
            names_contain(missing_combined@, n) == missing_spec(ms, n) by {
            if names_contain(missing_combined@, n) {
                let j = choose|j: int|
                    0 <= j < glyph_set@.len() && (#[trigger] glyph_set@[j])@ == n && miss_b@[j];
                assert(missing_spec(ms, glyph_set@[j]@));
            }
            if missing_spec(ms, n) {
                assert(universe_has(ms, n));
                assert(names_contain(glyph_set@, n));
                let j = choose|j: int| 0 <= j < glyph_set@.len() && (#[trigger] glyph_set@[j])@ == n;
                assert(miss_b@[j]);
                assert(kept_name(glyph_set@, miss_b@, glyph_set@.len() as int, n));
            }
        }
        assert forall|n: Seq<char>|
            names_contain(combined@, n) == in_combined(ms, n) by {
            if names_contain(combined@, n) {
                let j = choose|j: int|
                    0 <= j < glyph_set@.len() && (#[trigger] glyph_set@[j])@ == n && comb_b@[j];
                assert(in_combined(ms, glyph_set@[j]@));
            }
            if in_combined(ms, n) {
                lemma_flagged_universe(ms, n);
                assert(universe_has(ms, n));
                assert(names_contain(glyph_set@, n));
                let j = choose|j: int| 0 <= j < glyph_set@.len() && (#[trigger] glyph_set@[j])@ == n;
                assert(comb_b@[j]);
                assert(kept_name(glyph_set@, comb_b@, glyph_set@.len() as int, n));
            }
        }
    }
    let succeeded = missing_combined.len() == 0 && contour_count_collisions.len() == 0
        && point_count_collisions.len() == 0 && contour_open_collisions.len() == 0;
    proof {
        if succeeded {
            assert forall|n: Seq<char>| !#[trigger] in_combined(ms, n) by {
                if missing_spec(ms, n) {
                    assert(names_contain(missing_combined@, n));
                    let q = choose|q: int|
                        0 <= q < missing_combined@.len() && (#[trigger] missing_combined@[q])@ == n;
                    assert(false);
                }
                if contour_flagged(ms, n) {
                    assert(names_contain(contour_count_collisions@, n));
                    let q = choose|q: int|
                        0 <= q < contour_count_collisions@.len() && (
                        #[trigger] contour_count_collisions@[q])@ == n;
                    assert(false);
                }
                if point_flagged(ms, n) {
                    assert(names_contain(point_count_collisions@, n));
                    let q = choose|q: int|
                        0 <= q < point_count_collisions@.len() && (
                        #[trigger] point_count_collisions@[q])@ == n;
                    assert(false);
                }
                if open_flagged(ms, n) {
                    assert(names_contain(contour_open_collisions@, n));
                    let q = choose|q: int|
                        0 <= q < contour_open_collisions@.len() && (
                        #[trigger] contour_open_collisions@[q])@ == n;
                    assert(false);
                }
            }
        } else {
            if missing_combined@.len() > 0 {
                assert(names_contain(missing_combined@, missing_combined@[0]@));
                assert(missing_spec(ms, missing_combined@[0]@));
                assert(in_combined(ms, missing_combined@[0]@));
            } else if contour_count_collisions@.len() > 0 {
                assert(names_contain(contour_count_collisions@, contour_count_collisions@[0]@));
                assert(in_combined(ms, contour_count_collisions@[0]@));
            } else if point_count_collisions@.len() > 0 {
                assert(names_contain(point_count_collisions@, point_count_collisions@[0]@));
                assert(in_combined(ms, point_count_collisions@[0]@));
            } else if contour_open_collisions@.len() > 0 {
                assert(names_contain(contour_open_collisions@, contour_open_collisions@[0]@));
                assert(in_combined(ms, contour_open_collisions@[0]@));
            }
        }
    }
    InterpolationCheckResults {
        succeeded,
        glyph_set,
        missing_combined,
        contour_count_collisions,
        point_count_collisions,
        contour_open_collisions,
        combined,
    }
}

/// All masters list exactly the same glyph names.
pub open spec fn same_name_sets(ms: Seq<UFOView>) -> bool {
    forall|i: int, j: int, n: Seq<char>|
        #![trigger master_has(ms[i], n), master_has(ms[j], n)]
        0 <= i < ms.len() && 0 <= j < ms.len() && master_has(ms[i], n) ==> master_has(ms[j], n)
}

/// Entries carrying the same name hold the same outline in every master:
/// equal contour counts, point counts and open flags throughout.
pub open spec fn same_outlines(ms: Seq<UFOView>) -> bool {
    forall|i: int, j: int, a: int, b: int|
        #![trigger ms[i].glyph_entries[a], ms[j].glyph_entries[b]]
        0 <= i < ms.len() && 0 <= j < ms.len() && 0 <= a < ms[i].glyph_entries.len() && 0 <= b
            < ms[j].glyph_entries.len() && ms[i].glyph_entries[a].uniname == ms[j].glyph_entries[b].uniname
            ==> ms[i].glyph_entries[a].glif.outline == ms[j].glyph_entries[b].glif.outline
}

/// Consistency idempotence: masters with identical glyph-name sets and
/// identical outlines check out clean. Nothing is missing, nothing is
/// flagged, so `check_interpolatable` reports success with an empty combined
/// set.
pub proof fn lemma_identical_masters_consistent(ms: Seq<UFOView>)
    requires
        same_name_sets(ms),
        same_outlines(ms),
    ensures
        check_ok(ms),
        forall|n: Seq<char>| !#[trigger] in_combined(ms, n),
{
    assert forall|n: Seq<char>| !#[trigger] in_combined(ms, n) by {
        if missing_spec(ms, n) {
            let i = choose|i: int| 0 <= i < ms.len() && master_has(#[trigger] ms[i], n);
            let j = choose|j: int| 0 <= j < ms.len() && !master_has(#[trigger] ms[j], n);
            assert(master_has(ms[j], n));
        }
        if contour_flagged(ms, n) {
            let (fi, fj, fa, fb) = choose|fi: int, fj: int, fa: int, fb: int|
                {
                    &&& 0 <= fi < ms.len() && 0 <= fj < ms.len()
                    &&& 0 <= fa < ms[fi].glyph_entries.len() && 0 <= fb < ms[fj].glyph_entries.len()
                    &&& (#[trigger] ms[fi].glyph_entries[fa]).uniname == n
                    &&& (#[trigger] ms[fj].glyph_entries[fb]).uniname == n
                    &&& ms[fi].glyph_entries[fa].glif.outline.len() != ms[fj].glyph_entries[fb].glif.outline.len()
                };
            assert(ms[fi].glyph_entries[fa].glif.outline == ms[fj].glyph_entries[fb].glif.outline);
        }
        if point_flagged(ms, n) {
            let q = choose|q: int| point_flagged_at(ms, n, q);
            let (fi, fj, fa, fb) = choose|fi: int, fj: int, fa: int, fb: int|
                #![trigger ms[fi].glyph_entries[fa].glif.outline[q], ms[fj].glyph_entries[fb].glif.outline[q]]
                {
                    &&& 0 <= fi < ms.len() && 0 <= fj < ms.len()
                    &&& 0 <= fa < ms[fi].glyph_entries.len() && 0 <= fb < ms[fj].glyph_entries.len()
                    &&& ms[fi].glyph_entries[fa].uniname == n
                    &&& ms[fj].glyph_entries[fb].uniname == n
                    &&& 0 <= q < ms[fi].glyph_entries[fa].glif.outline.len()
                    &&& q < ms[fj].glyph_entries[fb].glif.outline.len()
                    &&& ms[fi].glyph_entries[fa].glif.outline[q].points != ms[fj].glyph_entries[fb].glif.outline[q].points
                };
            assert(ms[fi].glyph_entries[fa].glif.outline == ms[fj].glyph_entries[fb].glif.outline);
        }
        if open_flagged(ms, n) {
            let q = choose|q: int| open_flagged_at(ms, n, q);
            let (fi, fj, fa, fb) = choose|fi: int, fj: int, fa: int, fb: int|
                #![trigger ms[fi].glyph_entries[fa].glif.outline[q], ms[fj].glyph_entries[fb].glif.outline[q]]
                {
                    &&& 0 <= fi < ms.len() && 0 <= fj < ms.len()
                    &&& 0 <= fa < ms[fi].glyph_entries.len() && 0 <= fb < ms[fj].glyph_entries.len()
                    &&& ms[fi].glyph_entries[fa].uniname == n
                    &&& ms[fj].glyph_entries[fb].uniname == n
                    &&& 0 <= q < ms[fi].glyph_entries[fa].glif.outline.len()
                    &&& q < ms[fj].glyph_entries[fb].glif.outline.len()
                    &&& ms[fi].glyph_entries[fa].glif.outline[q].is_open != ms[fj].glyph_entries[fb].glif.outline[q].is_open
                };
            assert(ms[fi].glyph_entries[fa].glif.outline == ms[fj].glyph_entries[fb].glif.outline);
        }
    }
}
} // verus!
