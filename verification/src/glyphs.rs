//! Glyph identity model: a named glyph with its ordered Unicode codepoint
//! assignments, structural equality for key use, and the display ordering
//! (encoded glyphs first, by first codepoint; unencoded glyphs last, by name).

use vstd::prelude::*;

use crate::strutil::{hex_str_val, lemma_str_lt_asymmetric, lemma_str_lt_connected,
    lemma_str_lt_transitive, split_on, split_str, str_cmp, str_eq, str_lt, str_seq_view,
    parse_hex_u32, valid_hex_str};

verus! {

/// One Unicode codepoint assignment of a glyph. `name` and `category` are
/// descriptive only: equality and ordering go solely by `encoding`.
#[derive(Debug)]
pub struct UnicodeData {
    pub name: String,
    pub category: String,
    pub encoding: char,
}

impl Clone for UnicodeData {
    fn clone(&self) -> (r: Self)
        ensures
            r == *self,
    {
        UnicodeData {
            name: self.name.clone(),
            category: self.category.clone(),
            encoding: self.encoding,
        }
    }
}

impl PartialEq for UnicodeData {
    fn eq(&self, other: &Self) -> (r: bool) {
        self.encoding == other.encoding
    }
}

impl vstd::std_specs::cmp::PartialEqSpecImpl for UnicodeData {
    open spec fn obeys_eq_spec() -> bool {
        true
    }

    open spec fn eq_spec(&self, other: &Self) -> bool {
        self.encoding == other.encoding
    }
}

impl Eq for UnicodeData {

}

impl UnicodeData {
    /// Three-way comparison by codepoint alone.
    pub fn cmp(&self, other: &Self) -> (r: core::cmp::Ordering)
        ensures
            r == core::cmp::Ordering::Less <==> self.encoding < other.encoding,
            r == core::cmp::Ordering::Greater <==> self.encoding > other.encoding,
            r == core::cmp::Ordering::Equal <==> self.encoding == other.encoding,
    {
        if self.encoding < other.encoding {
            core::cmp::Ordering::Less
        } else if self.encoding > other.encoding {
            core::cmp::Ordering::Greater
        } else {
            core::cmp::Ordering::Equal
        }
    }
}

impl PartialOrd for UnicodeData {
    fn partial_cmp(&self, other: &Self) -> (r: Option<core::cmp::Ordering>) {
        Some(self.cmp(other))
    }
}

impl vstd::std_specs::cmp::PartialOrdSpecImpl for UnicodeData {
    open spec fn obeys_partial_cmp_spec() -> bool {
        true
    }

    open spec fn partial_cmp_spec(&self, other: &Self) -> Option<core::cmp::Ordering> {
        if self.encoding < other.encoding {
            Some(core::cmp::Ordering::Less)
        } else if self.encoding > other.encoding {
            Some(core::cmp::Ordering::Greater)
        } else {
            Some(core::cmp::Ordering::Equal)
        }
    }
}

/// A glyph: its name and its (possibly empty) ordered codepoint assignments.
#[derive(Debug)]
pub struct GlyphRef {
    pub name: String,
    pub unicode: Vec<UnicodeData>,
}

/// The mathematical value of a `GlyphRef`: the name's text and the assignment
/// values. Two clones of one glyph share this value.
#[verifier::ext_equal]
pub struct GlyphId {
    pub name: Seq<char>,
    pub unicode: Seq<UnicodeData>,
}

impl View for GlyphRef {
    type V = GlyphId;

    open spec fn view(&self) -> GlyphId {
        GlyphId { name: self.name@, unicode: self.unicode@ }
    }
}

/// The views of a sequence of glyphs, element by element.
pub open spec fn glyph_seq_view(s: Seq<GlyphRef>) -> Seq<GlyphId> {
    Seq::new(s.len(), |i: int| s[i]@)
}

impl Clone for GlyphRef {
    fn clone(&self) -> (r: Self)
        ensures
            r@ == self@,
    {
        let mut unicode: Vec<UnicodeData> = Vec::new();
        let mut i: usize = 0;
        while i < self.unicode.len()
            invariant
                i <= self.unicode@.len(),
                unicode@ =~= self.unicode@.subrange(0, i as int),
            decreases self.unicode@.len() - i,
        {
            unicode.push(self.unicode[i].clone());
            i = i + 1;
        }
        proof {
            assert(unicode@ =~= self.unicode@);
        }
        let r = GlyphRef { name: self.name.clone(), unicode };
        proof {
            assert(r@ =~= self@);
        }
        r
    }
}

/// Structural equality of glyphs: same name and the same assignment list,
/// where assignments compare by codepoint alone.
pub open spec fn glyph_eq_spec(a: GlyphId, b: GlyphId) -> bool {
    &&& a.name == b.name
    &&& a.unicode.len() == b.unicode.len()
    &&& forall|i: int| 0 <= i < a.unicode.len() ==> a.unicode[i].encoding == b.unicode[i].encoding
}

impl PartialEq for GlyphRef {
    fn eq(&self, other: &Self) -> (r: bool) {
        if !str_eq(self.name.as_str(), other.name.as_str()) {
            return false;
        }
        if self.unicode.len() != other.unicode.len() {
            return false;
        }
        let n = self.unicode.len();
        let mut i: usize = 0;
        while i < n
            invariant
                n == self.unicode@.len() == other.unicode@.len(),
                i <= n,
                forall|j: int|
                    0 <= j < i ==> self.unicode@[j].encoding == other.unicode@[j].encoding,
            decreases n - i,
        {
            if self.unicode[i].encoding != other.unicode[i].encoding {
                return false;
            }
            i = i + 1;
        }
        true
    }
}

impl vstd::std_specs::cmp::PartialEqSpecImpl for GlyphRef {
    open spec fn obeys_eq_spec() -> bool {
        true
    }

    open spec fn eq_spec(&self, other: &Self) -> bool {
        glyph_eq_spec(self@, other@)
    }
}

impl Eq for GlyphRef {

}

/// Strict display order on glyphs: when both carry assignments, by the first
/// assignment's codepoint; a glyph with assignments sorts before one without;
/// two unencoded glyphs sort by name.
pub open spec fn glyph_lt(a: GlyphId, b: GlyphId) -> bool {
    if a.unicode.len() > 0 && b.unicode.len() > 0 {
        a.unicode[0].encoding < b.unicode[0].encoding
    } else if a.unicode.len() > 0 {
        true
    } else if b.unicode.len() > 0 {
        false
    } else {
        str_lt(a.name, b.name)
    }
}

/// Equivalence under the display order: same first codepoint, or both
/// unencoded with the same name.
pub open spec fn glyph_order_eqv(a: GlyphId, b: GlyphId) -> bool {
    if a.unicode.len() > 0 && b.unicode.len() > 0 {
        a.unicode[0].encoding == b.unicode[0].encoding
    } else if a.unicode.len() > 0 || b.unicode.len() > 0 {
        false
    } else {
        a.name == b.name
    }
}

/// Non-strict display order.
pub open spec fn glyph_le(a: GlyphId, b: GlyphId) -> bool {
    glyph_lt(a, b) || glyph_order_eqv(a, b)
}

impl GlyphRef {
    /// Three-way comparison realising the display order.
    pub fn cmp(&self, other: &Self) -> (r: core::cmp::Ordering)
        ensures
            r == core::cmp::Ordering::Less <==> glyph_lt(self@, other@),
            r == core::cmp::Ordering::Greater <==> glyph_lt(other@, self@),
            r == core::cmp::Ordering::Equal <==> glyph_order_eqv(self@, other@),
    {
        if self.unicode.len() > 0 && other.unicode.len() > 0 {
            self.unicode[0].cmp(&other.unicode[0])
        } else if self.unicode.len() > 0 {
            core::cmp::Ordering::Less
        } else if other.unicode.len() > 0 {
            core::cmp::Ordering::Greater
        } else {
            str_cmp(self.name.as_str(), other.name.as_str())
        }
    }
}

impl PartialOrd for GlyphRef {
    fn partial_cmp(&self, other: &Self) -> (r: Option<core::cmp::Ordering>) {
        Some(self.cmp(other))
    }
}

impl vstd::std_specs::cmp::PartialOrdSpecImpl for GlyphRef {
    open spec fn obeys_partial_cmp_spec() -> bool {
        true
    }

    open spec fn partial_cmp_spec(&self, other: &Self) -> Option<core::cmp::Ordering> {
        if glyph_lt(self@, other@) {
            Some(core::cmp::Ordering::Less)
        } else if glyph_lt(other@, self@) {
            Some(core::cmp::Ordering::Greater)
        } else {
            Some(core::cmp::Ordering::Equal)
        }
    }
}

/// The display order is asymmetric: glyphs never precede each other mutually.
pub proof fn lemma_glyph_lt_asymmetric(a: GlyphId, b: GlyphId)
    requires
        glyph_lt(a, b),
    ensures
        !glyph_lt(b, a),
{
    if a.unicode.len() == 0 && b.unicode.len() == 0 {
        lemma_str_lt_asymmetric(a.name, b.name);
    }
}

/// The display order is transitive.
pub proof fn lemma_glyph_lt_transitive(a: GlyphId, b: GlyphId, c: GlyphId)
    requires
        glyph_lt(a, b),
        glyph_lt(b, c),
    ensures
        glyph_lt(a, c),
{
    if a.unicode.len() == 0 && b.unicode.len() == 0 && c.unicode.len() == 0 {
        lemma_str_lt_transitive(a.name, b.name, c.name);
    }
}

/// The display order is total: two glyphs are mutually unordered exactly when
/// they are order-equivalent, and the three outcomes exclude one another.
pub proof fn lemma_glyph_order_trichotomy(a: GlyphId, b: GlyphId)
    ensures
        glyph_lt(a, b) || glyph_lt(b, a) || glyph_order_eqv(a, b),
        glyph_lt(a, b) ==> !glyph_lt(b, a) && !glyph_order_eqv(a, b),
        glyph_lt(b, a) ==> !glyph_lt(a, b) && !glyph_order_eqv(a, b),
        glyph_order_eqv(a, b) ==> !glyph_lt(a, b) && !glyph_lt(b, a),
{
    if a.unicode.len() == 0 && b.unicode.len() == 0 {
        if !str_lt(a.name, b.name) && !str_lt(b.name, a.name) {
            lemma_str_lt_connected(a.name, b.name);
        }
        if str_lt(a.name, b.name) {
            lemma_str_lt_asymmetric(a.name, b.name);
        }
    }
}

/// Any glyph with at least one assignment sorts strictly before any glyph
/// with none; glyphs with none are ordered by name.
pub proof fn lemma_encoded_sort_first(a: GlyphId, b: GlyphId)
    ensures
        a.unicode.len() > 0 && b.unicode.len() == 0 ==> glyph_lt(a, b),
        a.unicode.len() == 0 && b.unicode.len() == 0 && str_lt(a.name, b.name) ==> glyph_lt(a, b),
{
}

/// The non-strict display order is transitive.
pub proof fn lemma_glyph_le_transitive(a: GlyphId, b: GlyphId, c: GlyphId)
    requires
        glyph_le(a, b),
        glyph_le(b, c),
    ensures
        glyph_le(a, c),
{
    if glyph_lt(a, b) && glyph_lt(b, c) {
        lemma_glyph_lt_transitive(a, b, c);
    } else if a.unicode.len() == 0 && b.unicode.len() == 0 && c.unicode.len() == 0 {
        if str_lt(a.name, b.name) && str_lt(b.name, c.name) {
            lemma_str_lt_transitive(a.name, b.name, c.name);
        }
    }
}

/// Whether a sequence of glyph values is sorted under the display order.
pub open spec fn glyphs_sorted(s: Seq<GlyphId>) -> bool {
    forall|i: int, j: int| 0 <= i < j < s.len() ==> glyph_le(#[trigger] s[i], #[trigger] s[j])
}

/// Removing an element commutes with taking views.
proof fn lemma_view_remove(s: Seq<GlyphRef>, i: int)
    requires
        0 <= i < s.len(),
    ensures
        glyph_seq_view(s.remove(i)) =~= glyph_seq_view(s).remove(i),
{
}

/// Inserting an element commutes with taking views.
proof fn lemma_view_insert(s: Seq<GlyphRef>, i: int, x: GlyphRef)
    requires
        0 <= i <= s.len(),
    ensures
        glyph_seq_view(s.insert(i, x)) =~= glyph_seq_view(s).insert(i, x@),
{
}

/// Sorts glyphs into display order: encoded glyphs first, by first codepoint,
/// then unencoded glyphs by name. Keeps exactly the original glyphs.
pub fn sort_glyphs(v: &mut Vec<GlyphRef>)
    ensures
        glyphs_sorted(glyph_seq_view(final(v)@)),
        glyph_seq_view(final(v)@).to_multiset() == glyph_seq_view(old(v)@).to_multiset(),
        final(v)@.len() == old(v)@.len(),
{
    broadcast use vstd::seq_lib::group_to_multiset_ensures;

    if v.len() < 2 {
        return ;
    }
    let mut i: usize = 1;
    while i < v.len()
        invariant
            1 <= i <= v@.len(),
            v@.len() == old(v)@.len(),
            glyph_seq_view(v@).to_multiset() == glyph_seq_view(old(v)@).to_multiset(),
            glyphs_sorted(glyph_seq_view(v@).subrange(0, i as int)),
        decreases v@.len() - i,
    {
        let ghost pre = glyph_seq_view(v@);
        let ghost pre_raw = v@;
        let x = v.remove(i);
        proof {
            lemma_view_remove(pre_raw, i as int);
        }
        let ghost removed = glyph_seq_view(v@);
        let mut p: usize = i;
        while p > 0 && matches!(v[p - 1].cmp(&x), core::cmp::Ordering::Greater)
            invariant
                p <= i,
                i < pre.len(),
                glyph_seq_view(v@) == removed,
                removed =~= pre.remove(i as int),
                x@ == pre[i as int],
                glyphs_sorted(pre.subrange(0, i as int)),
                v@.len() == pre.len() - 1,
                forall|k: int| p <= k < i ==> glyph_lt(x@, #[trigger] removed[k]),
            decreases p,
        {
            proof {
                assert(v@[p - 1]@ == removed[p - 1]);
                lemma_glyph_lt_asymmetric(x@, v@[p - 1]@);
            }
            p = p - 1;
        }
        proof {
            if p > 0 {
                assert(v@[p - 1]@ == removed[p - 1]);
                lemma_glyph_order_trichotomy(removed[p - 1], x@);
            }
        }
        let ghost pp = p as int;
        let ghost mid_raw = v@;
        v.insert(p, x);
        proof {
            lemma_view_insert(mid_raw, pp, x);
            let now = glyph_seq_view(v@);
            assert(now =~= removed.insert(pp, x@));
            pre.to_multiset_ensures();
            removed.to_multiset_ensures();
            vstd::seq_lib::to_multiset_insert(removed, pp, x@);
            assert(removed =~= pre.remove(i as int));
            assert(pre.remove(i as int).to_multiset() =~= pre.to_multiset().remove(pre[i as int]));
            assert(removed.to_multiset() =~= pre.to_multiset().remove(x@));
            assert(pre.to_multiset().contains(x@));
            assert(pre.to_multiset().remove(x@).insert(x@) =~= pre.to_multiset());
            assert forall|a: int, b: int| 0 <= a < b < i + 1 implies glyph_le(
                #[trigger] now.subrange(0, i + 1)[a],
                #[trigger] now.subrange(0, i + 1)[b],
            ) by {
                let sa = now.subrange(0, i + 1)[a];
                let sb = now.subrange(0, i + 1)[b];
                if a < pp && b == pp {
                    assert(sa == pre.subrange(0, i as int)[a]);
                    if pp > 0 && a < pp - 1 {
                        lemma_glyph_le_transitive(sa, pre.subrange(0, i as int)[pp - 1], x@);
                    }
                } else if a == pp && b > pp {
                    assert(sb == removed[b - 1]);
                    lemma_glyph_order_trichotomy(x@, sb);
                } else if a < pp && b > pp {
                    assert(sa == removed[a]);
                    assert(sb == removed[b - 1]);
                    if a == pp - 1 {
                        lemma_glyph_order_trichotomy(x@, sb);
                        lemma_glyph_le_transitive(sa, x@, sb);
                    } else {
                        assert(glyph_le(sa, removed[pp - 1]));
                        lemma_glyph_order_trichotomy(x@, sb);
                        lemma_glyph_le_transitive(removed[pp - 1], x@, sb);
                        lemma_glyph_le_transitive(sa, removed[pp - 1], sb);
                    }
                } else if a > pp && b > pp {
                    assert(sa == removed[a - 1]);
                    assert(sb == removed[b - 1]);
                } else if a < pp && b < pp {
                    assert(sa == removed[a]);
                    assert(sb == removed[b]);
                }
            }
        }
        i = i + 1;
    }
    proof {
        if v@.len() > 0 {
            assert(glyph_seq_view(v@).subrange(0, v@.len() as int) =~= glyph_seq_view(v@));
        }
    }
}

/// Whether `ud` is one of the assignment values appearing in `gvec`.
pub open spec fn assignment_appears(gvec: Seq<GlyphRef>, ud: UnicodeData) -> bool {
    exists|g: int, u: int|
        0 <= g < gvec.len() && 0 <= u < gvec[g]@.unicode.len() && gvec[g]@.unicode[u] == ud
}

/// Whether some element of `r` carries the codepoint `c`.
pub open spec fn encoding_listed(r: Seq<UnicodeData>, c: char) -> bool {
    exists|k: int| 0 <= k < r.len() && r[k].encoding == c
}

/// The distinct codepoint assignments appearing across a glyph collection,
/// each kept once (first occurrence wins), in first-occurrence order.
pub fn to_unique_codepoints(gvec: &[GlyphRef]) -> (r: Vec<UnicodeData>)
    ensures
        forall|a: int, b: int|
            0 <= a < b < r@.len() ==> #[trigger] r@[a].encoding != #[trigger] r@[b].encoding,
        forall|k: int| 0 <= k < r@.len() ==> assignment_appears(gvec@, #[trigger] r@[k]),
        forall|g: int, u: int|
            0 <= g < gvec@.len() && 0 <= u < gvec@[g]@.unicode.len() ==> encoding_listed(
                r@,
                (#[trigger] gvec@[g]@.unicode[u]).encoding,
            ),
{
    let mut r: Vec<UnicodeData> = Vec::new();
    let mut g: usize = 0;
    while g < gvec.len()
        invariant
            g <= gvec@.len(),
            forall|a: int, b: int|
                0 <= a < b < r@.len() ==> #[trigger] r@[a].encoding != #[trigger] r@[b].encoding,
            forall|k: int| 0 <= k < r@.len() ==> assignment_appears(gvec@, #[trigger] r@[k]),
            forall|gi: int, u: int|
                0 <= gi < g && 0 <= u < gvec@[gi]@.unicode.len() ==> encoding_listed(
                    r@,
                    (#[trigger] gvec@[gi]@.unicode[u]).encoding,
                ),
        decreases gvec@.len() - g,
    {
        let mut u: usize = 0;
        while u < gvec[g].unicode.len()
            invariant
                g < gvec@.len(),
                u <= gvec@[g as int]@.unicode.len(),
                forall|a: int, b: int|
                    0 <= a < b < r@.len() ==> #[trigger] r@[a].encoding != #[trigger] r@[
                        b
                    ].encoding,
                forall|k: int| 0 <= k < r@.len() ==> assignment_appears(gvec@, #[trigger] r@[k]),
                forall|gi: int, ui: int|
                    0 <= gi < g && 0 <= ui < gvec@[gi]@.unicode.len() ==> encoding_listed(
                        r@,
                        (#[trigger] gvec@[gi]@.unicode[ui]).encoding,
                    ),
                forall|ui: int|
                    0 <= ui < u ==> encoding_listed(
                        r@,
                        (#[trigger] gvec@[g as int]@.unicode[ui]).encoding,
                    ),
            decreases gvec@[g as int]@.unicode.len() - u,
        {
            let ud = &gvec[g].unicode[u];
            let ghost r_before = r@;
            let mut seen = false;
            let mut k: usize = 0;
            while k < r.len()
                invariant
                    k <= r@.len(),
                    r@ == r_before,
                    g < gvec@.len(),
                    u < gvec@[g as int]@.unicode.len(),
                    ud == gvec@[g as int]@.unicode[u as int],
                    seen <==> exists|q: int| 0 <= q < k && #[trigger] r@[q].encoding == ud.encoding,
                decreases r@.len() - k,
            {
                if r[k].encoding == ud.encoding {
                    seen = true;
                }
                k = k + 1;
            }
            if !seen {
                r.push(ud.clone());
                proof {
                    assert(gvec@[g as int]@.unicode[u as int] == r@[r@.len() - 1]);
                    assert(assignment_appears(gvec@, r@[r@.len() - 1]));
                }
            }
            proof {
                assert(encoding_listed(r@, gvec@[g as int]@.unicode[u as int].encoding));
                assert forall|ui: int| 0 <= ui < u + 1 implies encoding_listed(
                    r@,
                    (#[trigger] gvec@[g as int]@.unicode[ui]).encoding,
                ) by {
                    if ui < u {
                        assert(encoding_listed(r_before, gvec@[g as int]@.unicode[ui].encoding));
                        let q = choose|q: int|
                            0 <= q < r_before.len() && r_before[q].encoding == gvec@[
                                g as int
                            ]@.unicode[ui].encoding;
                        assert(r@[q].encoding == gvec@[g as int]@.unicode[ui].encoding);
                    }
                }
                assert forall|k2: int| 0 <= k2 < r@.len() implies assignment_appears(
                    gvec@,
                    #[trigger] r@[k2],
                ) by {
                    if k2 < r_before.len() {
                        assert(r@[k2] == r_before[k2]);
                    }
                }
                assert forall|gi: int, ui: int|
                    0 <= gi < g && 0 <= ui < gvec@[gi]@.unicode.len() implies encoding_listed(
                    r@,
                    (#[trigger] gvec@[gi]@.unicode[ui]).encoding,
                ) by {
                    assert(encoding_listed(r_before, gvec@[gi]@.unicode[ui].encoding));
                    let q = choose|q: int|
                        0 <= q < r_before.len() && r_before[q].encoding == gvec@[gi]@.unicode[
                            ui
                        ].encoding;
                    assert(r@[q].encoding == gvec@[gi]@.unicode[ui].encoding);
                }
            }
            u = u + 1;
        }
        g = g + 1;
    }
    r
}

/// The nonempty tab-separated fields of a listing line.
pub open spec fn fields_of(line: Seq<char>) -> Seq<Seq<char>> {
    split_on(line, '\t').filter(|f: Seq<char>| f.len() > 0)
}

/// Whether a codepoint token denotes a Unicode scalar value: a hexadecimal
/// literal whose value is neither a surrogate nor beyond the last codepoint.
pub open spec fn codepoint_ok(tok: Seq<char>) -> bool {
    &&& valid_hex_str(tok)
    &&& hex_str_val(tok) <= 0x10FFFF
    &&& !(0xD800 <= hex_str_val(tok) && hex_str_val(tok) <= 0xDFFF)
}

/// How a listing line fails, if it does: a line with some fields but fewer
/// than the four expected, or one with an unusable codepoint token.
pub open spec fn line_err(line: Seq<char>) -> Option<ListingError> {
    let fs = fields_of(line);
    if fs.len() <= 1 {
        None
    } else if fs.len() < 4 {
        Some(ListingError::MissingFields)
    } else if exists|i: int|
        0 <= i < split_on(fs[1], ',').len() && !codepoint_ok(#[trigger] split_on(fs[1], ',')[i]) {
        Some(ListingError::BadCodepoint)
    } else {
        None
    }
}

/// Whether every line of the listing is acceptable.
pub open spec fn listing_ok(s: Seq<char>) -> bool {
    forall|i: int|
        0 <= i < split_on(s, '\n').len() ==> line_err(#[trigger] split_on(s, '\n')[i]) is None
}

/// The plain-value description of one glyph: its name and its assignments
/// as (unicode name, codepoint, category) triples.
#[verifier::ext_equal]
pub struct GlyphSpec {
    pub name: Seq<char>,
    pub assignments: Seq<(Seq<char>, char, Seq<char>)>,
}

/// The smaller of three lengths.
pub open spec fn min3(a: int, b: int, c: int) -> int {
    if a <= b && a <= c {
        a
    } else if b <= c {
        b
    } else {
        c
    }
}

/// The glyph described by an acceptable line with at least one field: the
/// first field names it; an encoded line pairs the comma-separated unicode
/// names, codepoints and categories index by index, up to the shortest list.
pub open spec fn line_glyph(line: Seq<char>) -> GlyphSpec {
    let fs = fields_of(line);
    if fs.len() == 1 {
        GlyphSpec { name: fs[0], assignments: Seq::empty() }
    } else {
        let encs = split_on(fs[1], ',');
        let names = split_on(fs[2], ',');
        let cats = split_on(fs[3], ',');
        let n = min3(encs.len() as int, names.len() as int, cats.len() as int);
        GlyphSpec {
            name: fs[0],
            assignments: Seq::new(
                n as nat,
                |i: int| (names[i], hex_str_val(encs[i]) as char, cats[i]),
            ),
        }
    }
}

/// The glyphs described by a listing, in listing order: one per line that
/// has any fields at all.
pub open spec fn listing_glyphs(s: Seq<char>) -> Seq<GlyphSpec> {
    split_on(s, '\n').filter(|l: Seq<char>| fields_of(l).len() > 0).map_values(
        |l: Seq<char>| line_glyph(l),
    )
}

/// The description of a glyph value.
pub open spec fn glyph_spec_of(g: GlyphId) -> GlyphSpec {
    GlyphSpec {
        name: g.name,
        assignments: Seq::new(
            g.unicode.len(),
            |i: int| (g.unicode[i].name@, g.unicode[i].encoding, g.unicode[i].category@),
        ),
    }
}

/// The descriptions of a sequence of glyph values, element by element.
pub open spec fn glyph_specs_of(s: Seq<GlyphId>) -> Seq<GlyphSpec> {
    Seq::new(s.len(), |i: int| glyph_spec_of(s[i]))
}

/// Why a glyph listing was rejected.
#[derive(Debug, PartialEq, Eq, Structural)]
pub enum ListingError {
    MissingFields,
    BadCodepoint,
}

/// Relies on `char::from_u32` (unwrapped): the scalar value in range is the
/// character with that value.
#[verifier::external_body]
fn u32_to_char(v: u32) -> (r: char)
    requires
        v <= 0xD7FF || (0xE000 <= v && v <= 0x10FFFF),
    ensures
        r as u32 == v,
{
    char::from_u32(v).unwrap()
}

/// The nonempty tab-separated fields of a line, executably.
#[verifier::loop_isolation(false)]
fn nonempty_fields(line: &str) -> (r: Vec<String>)
    ensures
        str_seq_view(r@) == fields_of(line@),
{
    let pieces = split_str(line, '\t');
    let mut r: Vec<String> = Vec::new();
    let mut k: usize = 0;
    let ghost all = split_on(line@, '\t');
    proof {
        assert(all.subrange(0, 0) =~= Seq::<Seq<char>>::empty());
        reveal(Seq::filter);
    }
    while k < pieces.len()
        invariant
            k <= pieces@.len(),
            str_seq_view(pieces@) == all,
            str_seq_view(r@) == all.subrange(0, k as int).filter(|f: Seq<char>| f.len() > 0),
        decreases pieces@.len() - k,
    {
        let ghost prefix = all.subrange(0, k as int);
        proof {
            assert(all.subrange(0, k + 1) =~= prefix.push(all[k as int]));
            crate::blocks::lemma_filter_push(prefix, |f: Seq<char>| f.len() > 0, all[k as int]);
            assert(pieces@[k as int]@ == all[k as int]);
        }
        if pieces[k].as_str().unicode_len() > 0 {
            r.push(pieces[k].clone());
            proof {
                assert(str_seq_view(r@) =~= all.subrange(0, k + 1).filter(
                    |f: Seq<char>| f.len() > 0,
                ));
            }
        } else {
            proof {
                assert(str_seq_view(r@) =~= all.subrange(0, k + 1).filter(
                    |f: Seq<char>| f.len() > 0,
                ));
            }
        }
        k = k + 1;
    }
    proof {
        assert(all.subrange(0, all.len() as int) =~= all);
    }
    r
}

/// One parsed line extends the accumulated glyph descriptions by exactly
/// that line's glyph.
proof fn lemma_specs_push(
    old_out: Seq<GlyphRef>,
    new_out: Seq<GlyphRef>,
    line: Seq<char>,
    prefix: Seq<Seq<char>>,
    extended: Seq<Seq<char>>,
)
    requires
        new_out.len() == old_out.len() + 1,
        forall|q: int| 0 <= q < old_out.len() ==> #[trigger] new_out[q] == old_out[q],
        glyph_spec_of(new_out.last()@) == line_glyph(line),
        fields_of(line).len() > 0,
        extended =~= prefix.push(line),
        glyph_specs_of(glyph_seq_view(old_out)) == prefix.filter(
            |l: Seq<char>| fields_of(l).len() > 0,
        ).map_values(|l: Seq<char>| line_glyph(l)),
    ensures
        glyph_specs_of(glyph_seq_view(new_out)) == extended.filter(
            |l: Seq<char>| fields_of(l).len() > 0,
        ).map_values(|l: Seq<char>| line_glyph(l)),
{
    crate::blocks::lemma_filter_push(prefix, |l: Seq<char>| fields_of(l).len() > 0, line);
    let pred = |l: Seq<char>| fields_of(l).len() > 0;
    let f = |l: Seq<char>| line_glyph(l);
    assert(extended.filter(pred) == prefix.push(line).filter(pred));
    assert(prefix.push(line).filter(pred) == prefix.filter(pred).push(line));
    assert(prefix.filter(pred).push(line).map_values(f) =~= prefix.filter(pred).map_values(
        f,
    ).push(line_glyph(line)));
    assert(glyph_seq_view(new_out) =~= glyph_seq_view(old_out).push(new_out.last()@));
    assert(glyph_specs_of(glyph_seq_view(new_out)) =~= glyph_specs_of(
        glyph_seq_view(old_out),
    ).push(glyph_spec_of(new_out.last()@)));
}

/// Pairs unicode names, codepoints and categories index by index into
/// assignment records.
#[verifier::loop_isolation(false)]
fn build_assignments(names: &Vec<String>, cats: &Vec<String>, encoding: &Vec<u32>, n: usize) -> (r:
    Vec<UnicodeData>)
    requires
        n <= names@.len(),
        n <= cats@.len(),
        n <= encoding@.len(),
        forall|q: int|
            0 <= q < n ==> (#[trigger] encoding@[q]) <= 0xD7FF || (0xE000 <= encoding@[q]
                && encoding@[q] <= 0x10FFFF),
    ensures
        r@.len() == n,
        forall|q: int|
            0 <= q < n ==> {
                &&& (#[trigger] r@[q]).name@ == names@[q]@
                &&& r@[q].encoding as u32 == encoding@[q]
                &&& r@[q].category@ == cats@[q]@
            },
{
    let mut unicode: Vec<UnicodeData> = Vec::new();
    let mut i: usize = 0;
    while i < n
        invariant
            i <= n,
            unicode@.len() == i,
            forall|q: int|
                0 <= q < i ==> {
                    &&& (#[trigger] unicode@[q]).name@ == names@[q]@
                    &&& unicode@[q].encoding as u32 == encoding@[q]
                    &&& unicode@[q].category@ == cats@[q]@
                },
        decreases n - i,
    {
        let v: u32 = encoding[i];
        unicode.push(
            UnicodeData { name: names[i].clone(), category: cats[i].clone(), encoding: u32_to_char(v) },
        );
        i = i + 1;
    }
    unicode
}

/// Parses the glyph listing that the metadata extraction service prints:
/// one line per glyph, its fields tab-separated, an encoded glyph carrying
/// comma-separated codepoint, unicode-name and category lists. Yields the
/// glyphs in listing order; the first unusable line names the error.
#[verifier::loop_isolation(false)]
#[verifier::rlimit(100)]
pub fn parse_glyph_listing(listing: &str) -> (r: Result<Vec<GlyphRef>, ListingError>)
    ensures
        r is Ok <==> listing_ok(listing@),
        match r {
            Ok(v) => glyph_specs_of(glyph_seq_view(v@)) == listing_glyphs(listing@),
            Err(e) => exists|i: int|
                0 <= i < split_on(listing@, '\n').len() && line_err(
                    #[trigger] split_on(listing@, '\n')[i],
                ) == Some(e) && forall|j: int|
                    0 <= j < i ==> line_err(#[trigger] split_on(listing@, '\n')[j]) is None,
        },
{
    let ghost all = split_on(listing@, '\n');
    let lines_vec = split_str(listing, '\n');
    let mut out: Vec<GlyphRef> = Vec::new();
    let mut li: usize = 0;
    proof {
        assert(all.subrange(0, 0) =~= Seq::<Seq<char>>::empty());
        reveal(Seq::filter);
        assert(glyph_specs_of(glyph_seq_view(out@)) =~= all.subrange(0, 0).filter(
            |l: Seq<char>| fields_of(l).len() > 0,
        ).map_values(|l: Seq<char>| line_glyph(l)));
    }
    while li < lines_vec.len()
        invariant
            li <= lines_vec@.len(),
            str_seq_view(lines_vec@) == all,
            all == split_on(listing@, '\n'),
            forall|j: int| 0 <= j < li ==> line_err(#[trigger] all[j]) is None,
            glyph_specs_of(glyph_seq_view(out@)) == all.subrange(0, li as int).filter(
                |l: Seq<char>| fields_of(l).len() > 0,
            ).map_values(|l: Seq<char>| line_glyph(l)),
        decreases lines_vec@.len() - li,
    {
        let ghost line = all[li as int];
        let ghost prefix = all.subrange(0, li as int);
        proof {
            assert(all.subrange(0, li + 1) =~= prefix.push(line));
            crate::blocks::lemma_filter_push(
                prefix,
                |l: Seq<char>| fields_of(l).len() > 0,
                line,
            );
            assert(lines_vec@[li as int]@ == line);
        }
        let fields = nonempty_fields(lines_vec[li].as_str());
        let ghost fs = fields_of(line);
        if fields.len() == 0 {
            proof {
                assert(line_err(line) is None);
                assert(glyph_specs_of(glyph_seq_view(out@)) =~= all.subrange(0, li + 1).filter(
                    |l: Seq<char>| fields_of(l).len() > 0,
                ).map_values(|l: Seq<char>| line_glyph(l)));
            }
        } else if fields.len() == 1 {
            let g = GlyphRef { name: fields[0].clone(), unicode: Vec::new() };
            proof {
                assert(fields@[0]@ == fs[0]);
                assert(glyph_spec_of(g@) =~= line_glyph(line));
            }
            let ghost old_out = out@;
            out.push(g);
            proof {
                assert(line_err(line) is None);
                lemma_specs_push(old_out, out@, line, prefix, all.subrange(0, li + 1));
            }
        } else if fields.len() < 4 {
            proof {
                assert(line_err(line) == Some(ListingError::MissingFields));
            }
            return Err(ListingError::MissingFields);
        } else {
            let encs = split_str(fields[1].as_str(), ',');
            let names = split_str(fields[2].as_str(), ',');
            let cats = split_str(fields[3].as_str(), ',');
            let ghost enc_toks = split_on(fs[1], ',');
            proof {
                assert(fields@[1]@ == fs[1]);
                assert(fields@[2]@ == fs[2]);
                assert(fields@[3]@ == fs[3]);
                assert(str_seq_view(encs@) == enc_toks);
            }
            let mut encoding: Vec<u32> = Vec::new();
            let mut t: usize = 0;
            while t < encs.len()
                invariant
                    t <= encs@.len(),
                    str_seq_view(encs@) == enc_toks,
                    encoding@.len() == t,
                    forall|q: int| 0 <= q < t ==> codepoint_ok(#[trigger] enc_toks[q]),
                    forall|q: int|
                        0 <= q < t ==> (#[trigger] encoding@[q]) == hex_str_val(enc_toks[q]),
                decreases encs@.len() - t,
            {
                proof {
                    assert(encs@[t as int]@ == enc_toks[t as int]);
                }
                match parse_hex_u32(encs[t].as_str()) {
                    Some(v) => {
                        if v <= 0xD7FF || (0xE000 <= v && v <= 0x10FFFF) {
                            encoding.push(v);
                        } else {
                            proof {
                                assert(!codepoint_ok(enc_toks[t as int]));
                                assert(line_err(line) == Some(ListingError::BadCodepoint));
                            }
                            return Err(ListingError::BadCodepoint);
                        }
                    },
                    None => {
                        proof {
                            assert(!codepoint_ok(enc_toks[t as int]));
                            assert(line_err(line) == Some(ListingError::BadCodepoint));
                        }
                        return Err(ListingError::BadCodepoint);
                    },
                }
                t = t + 1;
            }
            let n1 = encs.len();
            let n2 = names.len();
            let n3 = cats.len();
            let n: usize = if n1 <= n2 && n1 <= n3 {
                n1
            } else if n2 <= n3 {
                n2
            } else {
                n3
            };
            let unicode = build_assignments(&names, &cats, &encoding, n);
            let g = GlyphRef { name: fields[0].clone(), unicode };
            proof {
                assert(fields@[0]@ == fs[0]);
                assert(glyph_spec_of(g@) =~= line_glyph(line)) by {
                    let lg = line_glyph(line);
                    assert(g@.name == lg.name);
                    assert(glyph_spec_of(g@).assignments.len() == lg.assignments.len());
                    assert forall|q: int|
                        0 <= q < lg.assignments.len() implies glyph_spec_of(g@).assignments[q]
                        == lg.assignments[q] by {
                        assert(g@.unicode[q].encoding as u32 == encoding@[q]);
                        assert(g@.unicode[q].encoding as u32 == hex_str_val(enc_toks[q]));
                        assert(codepoint_ok(enc_toks[q]));
                        assert((hex_str_val(enc_toks[q]) as char) as u32 == hex_str_val(
                            enc_toks[q],
                        ));
                        assert(g@.unicode[q].encoding == hex_str_val(enc_toks[q]) as char);
                    }
                }
            }
            let ghost old_out = out@;
            out.push(g);
            proof {
                assert(line_err(line) is None);
                lemma_specs_push(old_out, out@, line, prefix, all.subrange(0, li + 1));
            }
        }
        li = li + 1;
    }
    proof {
        assert(all.subrange(0, all.len() as int) =~= all);
    }
    Ok(out)
}

/// Collections with the same glyphs have the same glyph descriptions.
proof fn lemma_specs_multiset(s1: Seq<GlyphId>, s2: Seq<GlyphId>)
    requires
        s1.to_multiset() == s2.to_multiset(),
    ensures
        glyph_specs_of(s1).to_multiset() == glyph_specs_of(s2).to_multiset(),
    decreases s1.len(),
{
    broadcast use vstd::seq_lib::group_to_multiset_ensures;

    if s1.len() == 0 {
        assert(s2.to_multiset().len() == 0);
        assert(s2.len() == 0);
        assert(glyph_specs_of(s1) =~= Seq::<GlyphSpec>::empty());
        assert(glyph_specs_of(s2) =~= Seq::<GlyphSpec>::empty());
        assert(glyph_specs_of(s1).to_multiset() =~= glyph_specs_of(s2).to_multiset());
    } else {
        let x = s1.last();
        assert(s1[s1.len() - 1] == x);
        assert(s1.contains(x));
        assert(s1.to_multiset().count(x) > 0);
        assert(s2.to_multiset().count(x) > 0);
        assert(s2.contains(x));
        let j = choose|j: int| 0 <= j < s2.len() && s2[j] == x;
        let s1p = s1.drop_last();
        let s2p = s2.remove(j);
        assert(s1.remove(s1.len() - 1) =~= s1p);
        assert(s1p.to_multiset() =~= s1.to_multiset().remove(x));
        assert(s2p.to_multiset() =~= s2.to_multiset().remove(x));
        lemma_specs_multiset(s1p, s2p);
        assert(glyph_specs_of(s1) =~= glyph_specs_of(s1p).push(glyph_spec_of(x)));
        assert(glyph_specs_of(s1).to_multiset() =~= glyph_specs_of(s1p).to_multiset().insert(
            glyph_spec_of(x),
        ));
        assert(glyph_specs_of(s2p) =~= glyph_specs_of(s2).remove(j));
        assert(glyph_specs_of(s2).remove(j).to_multiset() =~= glyph_specs_of(
            s2,
        ).to_multiset().remove(glyph_specs_of(s2)[j]));
        assert(glyph_specs_of(s2)[j] == glyph_spec_of(x));
        assert(glyph_specs_of(s2).contains(glyph_specs_of(s2)[j]));
        assert(glyph_specs_of(s2).to_multiset().count(glyph_spec_of(x)) > 0);
        assert(glyph_specs_of(s2).to_multiset().remove(glyph_spec_of(x)).insert(glyph_spec_of(x))
            =~= glyph_specs_of(s2).to_multiset());
    }
}

/// Parses a glyph listing and sorts the glyphs into display order: exactly
/// the listing's glyphs, encoded ones first by first codepoint, unencoded
/// ones last by name.
pub fn glyphs_from_listing(listing: &str) -> (r: Result<Vec<GlyphRef>, ListingError>)
    ensures
        r is Ok <==> listing_ok(listing@),
        match r {
            Ok(v) => {
                &&& glyphs_sorted(glyph_seq_view(v@))
                &&& glyph_specs_of(glyph_seq_view(v@)).to_multiset() == listing_glyphs(
                    listing@,
                ).to_multiset()
            },
            Err(e) => exists|i: int|
                0 <= i < split_on(listing@, '\n').len() && line_err(
                    #[trigger] split_on(listing@, '\n')[i],
                ) == Some(e) && forall|j: int|
                    0 <= j < i ==> line_err(#[trigger] split_on(listing@, '\n')[j]) is None,
        },
{
    match parse_glyph_listing(listing) {
        Ok(mut v) => {
            let ghost parsed = glyph_seq_view(v@);
            sort_glyphs(&mut v);
            proof {
                lemma_specs_multiset(glyph_seq_view(v@), parsed);
            }
            Ok(v)
        },
        Err(e) => Err(e),
    }
}

} // verus!
