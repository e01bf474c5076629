//! Fuzzy glyph-name filtering for the search box: scores every glyph's name
//! against the query and yields the matching glyphs, best score first.

use vstd::prelude::*;

use crate::glyph_entries::{GlyphEntry, GlyphEntryView};
use crate::viewer::entry_seq_view;

verus! {

/// What lowercasing a text yields: a function of the characters alone.
pub uninterp spec fn lower_of(s: Seq<char>) -> Seq<char>;

/// Relies on `str::to_lowercase`: the lowercased text depends on the
/// characters alone, and an empty text stays empty.
#[verifier::external_body]
fn lowercase(s: &str) -> (r: String)
    ensures
        r@ == lower_of(s@),
        s@.len() == 0 ==> r@.len() == 0,
{
    s.to_lowercase()
}

/// What the fuzzy matcher scores a choice against a pattern, under its
/// default configuration: no score when the pattern does not match, a
/// quality score when it does; a function of the two texts alone.
pub uninterp spec fn fuzzy_score(choice: Seq<char>, pattern: Seq<char>) -> Option<i64>;

/// Relies on `fuzzy_matcher::skim::SkimMatcherV2::default` and its
/// `FuzzyMatcher::fuzzy_match`: the default matcher's score for a choice
/// against a pattern, which depends on the two texts alone.
#[verifier::external_body]
fn fuzzy_match_default(choice: &str, pattern: &str) -> (r: Option<i64>)
    ensures
        r == fuzzy_score(choice@, pattern@),
{
    fuzzy_matcher::FuzzyMatcher::fuzzy_match(
        &fuzzy_matcher::skim::SkimMatcherV2::default(),
        choice,
        pattern,
    )
}

/// The score of a glyph entry against a query: its lowercased name, fuzzily
/// matched.
pub open spec fn entry_score(e: GlyphEntryView, query: Seq<char>) -> Option<i64> {
    fuzzy_score(lower_of(e.glifname), query)
}

/// The views of scored entries, element by element.
pub open spec fn scored_seq_view(s: Seq<(GlyphEntry, i64)>) -> Seq<(GlyphEntryView, i64)> {
    Seq::new(s.len(), |i: int| (s[i].0@, s[i].1))
}

/// The glyphs whose names fuzzily match the query, each paired with its
/// score, in listing order.
#[verifier::loop_isolation(false)]
fn score_glyphs(glyph_entries: &[GlyphEntry], query: &str) -> (r: Vec<(GlyphEntry, i64)>)
    ensures
        forall|k: int|
            0 <= k < r@.len() ==> entry_score((#[trigger] r@[k].0)@, query@) == Some(r@[k].1),
        scored_seq_view(r@).map_values(|p: (GlyphEntryView, i64)| p.0) == entry_seq_view(
            glyph_entries@,
        ).filter(|e: GlyphEntryView| entry_score(e, query@) is Some),
{
    let ghost all = entry_seq_view(glyph_entries@);
    let ghost pred = |e: GlyphEntryView| entry_score(e, query@) is Some;
    let ghost f = |p: (GlyphEntryView, i64)| p.0;
    let mut r: Vec<(GlyphEntry, i64)> = Vec::new();
    let mut t: usize = 0;
    proof {
        reveal(Seq::filter);
        assert(all.subrange(0, 0) =~= Seq::<GlyphEntryView>::empty());
        assert(scored_seq_view(r@).map_values(f) =~= all.subrange(0, 0).filter(pred));
    }
    while t < glyph_entries.len()
        invariant
            t <= glyph_entries@.len(),
            all == entry_seq_view(glyph_entries@),
            pred == (|e: GlyphEntryView| entry_score(e, query@) is Some),
            f == (|p: (GlyphEntryView, i64)| p.0),
            forall|k: int|
                0 <= k < r@.len() ==> entry_score((#[trigger] r@[k].0)@, query@) == Some(r@[k].1),
            scored_seq_view(r@).map_values(f) == all.subrange(0, t as int).filter(pred),
        decreases glyph_entries@.len() - t,
    {
        let ghost prefix = all.subrange(0, t as int);
        proof {
            assert(all.subrange(0, t + 1) =~= prefix.push(all[t as int]));
            crate::blocks::lemma_filter_push(prefix, pred, all[t as int]);
            assert(glyph_entries@[t as int]@ == all[t as int]);
        }
        let low = lowercase(glyph_entries[t].glifname.as_str());
        match fuzzy_match_default(low.as_str(), query) {
            Some(score) => {
                r.push((glyph_entries[t].clone(), score));
                proof {
                    assert(scored_seq_view(r@).map_values(f) =~= all.subrange(0, t + 1).filter(
                        pred,
                    ));
                }
            },
            None => {
                proof {
                    assert(scored_seq_view(r@).map_values(f) =~= all.subrange(0, t + 1).filter(
                        pred,
                    ));
                }
            },
        }
        t = t + 1;
    }
    proof {
        assert(all.subrange(0, all.len() as int) =~= all);
    }
    r
}

/// The glyphs whose names fuzzily match the query, best score first:
/// exactly the matching glyphs of the listing, ordered by non-increasing
/// score.
#[verifier::loop_isolation(false)]
pub fn filter_glyphs(glyph_entries: &[GlyphEntry], query: &str) -> (r: Vec<GlyphEntry>)
    ensures
        forall|k: int| 0 <= k < r@.len() ==> entry_score((#[trigger] r@[k])@, query@) is Some,
        forall|a: int, b: int|
            0 <= a < b < r@.len() ==> (entry_score(#[trigger] r@[a]@, query@))->0 >= (entry_score(
                #[trigger] r@[b]@,
                query@,
            ))->0,
        entry_seq_view(r@).to_multiset() == entry_seq_view(glyph_entries@).filter(
            |e: GlyphEntryView| entry_score(e, query@) is Some,
        ).to_multiset(),
{
    broadcast use vstd::seq_lib::group_to_multiset_ensures;

    let ghost f = |p: (GlyphEntryView, i64)| p.0;
    let mut scored = score_glyphs(glyph_entries, query);
    let ghost orig = scored_seq_view(scored@);
    let mut i: usize = 1;
    while i < scored.len()
        invariant
            1 <= i,
            i <= scored@.len() || scored@.len() < 2,
            scored@.len() == orig.len(),
            scored_seq_view(scored@).to_multiset() == orig.to_multiset(),
            forall|k: int|
                0 <= k < scored@.len() ==> entry_score((#[trigger] scored@[k].0)@, query@) == Some(
                    scored@[k].1,
                ),
            forall|a: int, b: int|
                0 <= a < b < i && b < scored@.len() ==> (#[trigger] scored@[a].1)
                    >= (#[trigger] scored@[b].1),
        decreases scored@.len() - i,
    {
        let ghost pre = scored_seq_view(scored@);
        let x = scored.remove(i);
        proof {
            assert(scored_seq_view(scored@) =~= pre.remove(i as int));
            pre.to_multiset_ensures();
            assert(pre.remove(i as int).to_multiset() =~= pre.to_multiset().remove(pre[i as int]));
        }
        let ghost removed = scored_seq_view(scored@);
        let mut p: usize = i;
        while p > 0 && scored[p - 1].1 < x.1
            invariant
                p <= i,
                i < pre.len(),
                scored_seq_view(scored@) == removed,
                removed == pre.remove(i as int),
                (x.0@, x.1) == pre[i as int],
                scored@.len() == pre.len() - 1,
                forall|k: int| p <= k < i ==> x.1 > (#[trigger] scored@[k].1),
            decreases p,
        {
            p = p - 1;
        }
        let ghost pp = p as int;
        let ghost mid = scored_seq_view(scored@);
        scored.insert(p, x);
        proof {
            assert(scored_seq_view(scored@) =~= mid.insert(pp, pre[i as int]));
            vstd::seq_lib::to_multiset_insert(mid, pp, pre[i as int]);
            assert(pre.to_multiset().contains(pre[i as int]));
            assert(pre.to_multiset().remove(pre[i as int]).insert(pre[i as int]) =~= pre.to_multiset());
            assert forall|a: int, b: int|
                0 <= a < b < i + 1 && b < scored@.len() implies (#[trigger] scored@[a].1) >= (
            #[trigger] scored@[b].1) by {
                if a < pp && b == pp {
                    assert(scored@[a].1 == pre[a].1);
                } else if a == pp && b > pp {
                    assert(scored@[b].1 == removed[b - 1].1);
                } else if a < pp && b > pp {
                    assert(scored@[a].1 == removed[a].1);
                    assert(scored@[b].1 == removed[b - 1].1);
                } else if a > pp {
                    assert(scored@[a].1 == removed[a - 1].1);
                    assert(scored@[b].1 == removed[b - 1].1);
                } else {
                    assert(scored@[a].1 == removed[a].1);
                    assert(scored@[b].1 == removed[b].1);
                }
            }
        }
        i = i + 1;
    }
    let mut r: Vec<GlyphEntry> = Vec::new();
    let mut k: usize = 0;
    while k < scored.len()
        invariant
            k <= scored@.len(),
            scored@.len() == orig.len(),
            scored_seq_view(scored@).to_multiset() == orig.to_multiset(),
            forall|q: int|
                0 <= q < scored@.len() ==> entry_score((#[trigger] scored@[q].0)@, query@) == Some(
                    scored@[q].1,
                ),
            forall|a: int, b: int|
                0 <= a < b < scored@.len() ==> (#[trigger] scored@[a].1) >= (
                #[trigger] scored@[b].1),
            r@.len() == k,
            forall|q: int| 0 <= q < k ==> (#[trigger] r@[q])@ == scored@[q].0@,
        decreases scored@.len() - k,
    {
        r.push(scored[k].0.clone());
        k = k + 1;
    }
    proof {
        assert(entry_seq_view(r@) =~= scored_seq_view(scored@).map_values(f));
        lemma_pair_multiset(scored_seq_view(scored@), orig);
        assert(orig.map_values(f) == entry_seq_view(glyph_entries@).filter(
            |e: GlyphEntryView| entry_score(e, query@) is Some,
        ));
    }
    r
}

/// Scored sequences with the same pairs project to the same entries.
proof fn lemma_pair_multiset(s1: Seq<(GlyphEntryView, i64)>, s2: Seq<(GlyphEntryView, i64)>)
    requires
        s1.to_multiset() == s2.to_multiset(),
    ensures
        s1.map_values(|p: (GlyphEntryView, i64)| p.0).to_multiset() == s2.map_values(
            |p: (GlyphEntryView, i64)| p.0,
        ).to_multiset(),
    decreases s1.len(),
{
    broadcast use vstd::seq_lib::group_to_multiset_ensures;

    let f = |p: (GlyphEntryView, i64)| p.0;
    if s1.len() == 0 {
        assert(s2.to_multiset().len() == 0);
        assert(s2.len() == 0);
        assert(s1.map_values(f) =~= Seq::<GlyphEntryView>::empty());
        assert(s2.map_values(f) =~= Seq::<GlyphEntryView>::empty());
        assert(s1.map_values(f).to_multiset() =~= s2.map_values(f).to_multiset());
    } else {
        let x = s1.last();
        assert(s1[s1.len() - 1] == x);
        assert(s1.contains(x));
        assert(s1.to_multiset().count(x) > 0);
        assert(s2.to_multiset().count(x) > 0);
        assert(s2.contains(x));
        let j = choose|j: int| 0 <= j < s2.len() && s2[j] == x;
        let s1p = s1.drop_last();
        let s2p = s2.remove(j);
        assert(s1.remove(s1.len() - 1) =~= s1p);
        assert(s1p.to_multiset() =~= s1.to_multiset().remove(x));
        assert(s2p.to_multiset() =~= s2.to_multiset().remove(x));
        lemma_pair_multiset(s1p, s2p);
        assert(s1.map_values(f) =~= s1p.map_values(f).push(f(x)));
        assert(s1.map_values(f).to_multiset() =~= s1p.map_values(f).to_multiset().insert(f(x)));
        assert(s2p.map_values(f) =~= s2.map_values(f).remove(j));
        assert(s2.map_values(f).remove(j).to_multiset() =~= s2.map_values(
            f,
        ).to_multiset().remove(s2.map_values(f)[j]));
        assert(s2.map_values(f)[j] == f(x));
        assert(s2.map_values(f).contains(s2.map_values(f)[j]));
        assert(s2.map_values(f).to_multiset().count(f(x)) > 0);
        assert(s2.map_values(f).to_multiset().remove(f(x)).insert(f(x)) =~= s2.map_values(
            f,
        ).to_multiset());
    }
}

} // verus!
