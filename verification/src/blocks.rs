//! Codepoint block classifier: resolves codepoints to named Unicode block
//! ranges through the UCD table and partitions a glyph collection into
//! per-block buckets, with a final synthetic bucket for unencoded glyphs.

use vstd::prelude::*;

use crate::glyphs::{glyph_seq_view, GlyphId, GlyphRef};

verus! {

/// A named Unicode block range, both endpoints inclusive.
#[derive(Debug)]
pub struct BlockRange {
    pub low: char,
    pub high: char,
    pub name: String,
}

/// The mathematical value of a `BlockRange`.
#[verifier::ext_equal]
pub struct BlockRangeView {
    pub low: char,
    pub high: char,
    pub name: Seq<char>,
}

impl View for BlockRange {
    type V = BlockRangeView;

    open spec fn view(&self) -> BlockRangeView {
        BlockRangeView { low: self.low, high: self.high, name: self.name@ }
    }
}

impl Clone for BlockRange {
    fn clone(&self) -> (r: Self)
        ensures
            r@ == self@,
    {
        BlockRange { low: self.low, high: self.high, name: self.name.clone() }
    }
}

/// What the UCD block table answers for a codepoint: the enclosing block's
/// range and name, or nothing for a codepoint outside every block.
pub uninterp spec fn block_of(c: char) -> Option<(char, char, Seq<char>)>;

/// Relies on `unic_ucd_block::Block::of`: looks a codepoint up in the UCD's
/// fixed block table; a found block's range contains the codepoint.
#[verifier::external_body]
fn ucd_block_of(c: char) -> (r: Option<BlockRange>)
    ensures
        match r {
            Some(b) => block_of(c) == Some((b.low, b.high, b.name@)) && b.low <= c && c <= b.high,
            None => block_of(c) is None,
        },
{
    unic_ucd_block::Block::of(c).map(
        |b|
            BlockRange {
                low: b.range.low,
                high: b.range.high,
                name: b.name.to_string(),
            },
    )
}

/// Strict order on block map keys: by low endpoint, then by high endpoint.
pub open spec fn key_lt(a: BlockRangeView, b: BlockRangeView) -> bool {
    a.low < b.low || (a.low == b.low && a.high < b.high)
}

/// Two ranges with the same key.
pub open spec fn same_key(a: BlockRangeView, b: BlockRangeView) -> bool {
    a.low == b.low && a.high == b.high
}

/// A block map holds its entries in strictly ascending key order.
pub open spec fn block_map_sorted(s: Seq<BlockRange>) -> bool {
    forall|i: int, j: int| 0 <= i < j < s.len() ==> key_lt(#[trigger] s[i]@, #[trigger] s[j]@)
}

/// Inserts a range into a sorted block map, replacing the entry with the same
/// key if one exists.
fn insert_block(map: &mut Vec<BlockRange>, b: BlockRange)
    requires
        block_map_sorted(old(map)@),
    ensures
        block_map_sorted(final(map)@),
        exists|k: int| 0 <= k < final(map)@.len() && #[trigger] final(map)@[k]@ == b@,
        forall|k: int|
            0 <= k < final(map)@.len() ==> #[trigger] final(map)@[k]@ == b@ || exists|j: int|
                0 <= j < old(map)@.len() && old(map)@[j]@ == final(map)@[k]@,
        forall|j: int|
            0 <= j < old(map)@.len() ==> same_key(#[trigger] old(map)@[j]@, b@) || exists|k: int|
                0 <= k < final(map)@.len() && final(map)@[k]@ == old(map)@[j]@,
    {
    let ghost orig = map@;
    let mut pos: usize = 0;
    while pos < map.len() && matches!(
        cmp_keys(&map[pos], &b),
        core::cmp::Ordering::Less,
    )
        invariant
            pos <= map@.len(),
            map@ == orig,
            forall|i: int| 0 <= i < pos ==> key_lt(#[trigger] map@[i]@, b@),
        decreases map@.len() - pos,
    {
        pos = pos + 1;
    }
    if pos < map.len() && matches!(cmp_keys(&map[pos], &b), core::cmp::Ordering::Equal) {
        map.set(pos, b);
        proof {
            assert(final(map)@[pos as int]@ == b@);
            assert forall|i: int, j: int|
                0 <= i < j < map@.len() implies key_lt(#[trigger] map@[i]@, #[trigger] map@[j]@) by {
                if i != pos && j != pos {
                    assert(map@[i]@ == orig[i]@);
                    assert(map@[j]@ == orig[j]@);
                }
            }
            assert forall|j: int|
                0 <= j < orig.len() implies same_key(#[trigger] orig[j]@, b@) || exists|k: int|
                0 <= k < map@.len() && map@[k]@ == orig[j]@ by {
                if j != pos {
                    assert(map@[j]@ == orig[j]@);
                }
            }
        }
    } else {
        let ghost p = pos as int;
        map.insert(pos, b);
        proof {
            assert(map@[p]@ == b@);
            assert forall|i: int, j: int|
                0 <= i < j < map@.len() implies key_lt(#[trigger] map@[i]@, #[trigger] map@[j]@) by {
                if i < p && j == p {
                    assert(map@[i]@ == orig[i]@);
                } else if i == p && j > p {
                    assert(map@[j]@ == orig[j - 1]@);
                } else if i < p && j > p {
                    assert(map@[i]@ == orig[i]@);
                    assert(map@[j]@ == orig[j - 1]@);
                } else if i > p && j > p {
                    assert(map@[i]@ == orig[i - 1]@);
                    assert(map@[j]@ == orig[j - 1]@);
                } else {
                    assert(map@[i]@ == orig[i]@);
                    assert(map@[j]@ == orig[j]@);
                }
            }
            assert forall|j: int|
                0 <= j < orig.len() implies same_key(#[trigger] orig[j]@, b@) || exists|k: int|
                0 <= k < map@.len() && map@[k]@ == orig[j]@ by {
                if j < p {
                    assert(map@[j]@ == orig[j]@);
                } else {
                    assert(map@[j + 1]@ == orig[j]@);
                }
            }
        }
    }
}

/// Three-way comparison of two ranges' keys.
fn cmp_keys(a: &BlockRange, b: &BlockRange) -> (r: core::cmp::Ordering)
    ensures
        r == core::cmp::Ordering::Less <==> key_lt(a@, b@),
        r == core::cmp::Ordering::Greater <==> key_lt(b@, a@),
        r == core::cmp::Ordering::Equal <==> same_key(a@, b@),
{
    if a.low < b.low {
        core::cmp::Ordering::Less
    } else if a.low > b.low {
        core::cmp::Ordering::Greater
    } else if a.high < b.high {
        core::cmp::Ordering::Less
    } else if a.high > b.high {
        core::cmp::Ordering::Greater
    } else {
        core::cmp::Ordering::Equal
    }
}

/// Whether a map entry's value was answered by the block table for some
/// codepoint of the given collection.
pub open spec fn entry_from(unique: Seq<crate::glyphs::UnicodeData>, e: BlockRangeView) -> bool {
    exists|j: int|
        0 <= j < unique.len() && block_of(unique[j].encoding) == Some((e.low, e.high, e.name))
}

/// Whether the map lists an entry with the given key.
pub open spec fn key_listed(map: Seq<BlockRange>, l: char, h: char) -> bool {
    exists|k: int| 0 <= k < map.len() && (#[trigger] map[k])@.low == l && map[k]@.high == h
}

/// Resolves each unique codepoint to its enclosing Unicode block and collects
/// the found blocks into a map ordered by `(low, high)`. Codepoints outside
/// every block are silently dropped; blocks found twice are kept once.
pub fn for_unicode_data(unique_encodings: &Vec<crate::glyphs::UnicodeData>) -> (r: Vec<BlockRange>)
    ensures
        block_map_sorted(r@),
        forall|k: int| 0 <= k < r@.len() ==> entry_from(unique_encodings@, (#[trigger] r@[k])@),
        forall|j: int|
            0 <= j < unique_encodings@.len() ==> match block_of(
                (#[trigger] unique_encodings@[j]).encoding,
            ) {
                Some(t) => key_listed(r@, t.0, t.1),
                None => true,
            },
        forall|k: int| 0 <= k < r@.len() ==> (#[trigger] r@[k])@.low <= r@[k]@.high,
{
    let mut map: Vec<BlockRange> = Vec::new();
    let mut j: usize = 0;
    while j < unique_encodings.len()
        invariant
            j <= unique_encodings@.len(),
            block_map_sorted(map@),
            forall|k: int| 0 <= k < map@.len() ==> entry_from(unique_encodings@, (#[trigger] map@[k])@),
            forall|j2: int|
                0 <= j2 < j ==> match block_of((#[trigger] unique_encodings@[j2]).encoding) {
                    Some(t) => key_listed(map@, t.0, t.1),
                    None => true,
                },
            forall|k: int| 0 <= k < map@.len() ==> (#[trigger] map@[k])@.low <= map@[k]@.high,
        decreases unique_encodings@.len() - j,
    {
        let enc = unique_encodings[j].encoding;
        match ucd_block_of(enc) {
            Some(b) => {
                let ghost bv = b@;
                let ghost before = map@;
                insert_block(&mut map, b);
                proof {
                    assert forall|k: int| 0 <= k < map@.len() implies entry_from(
                        unique_encodings@,
                        (#[trigger] map@[k])@,
                    ) && map@[k]@.low <= map@[k]@.high by {
                        if map@[k]@ == bv {
                            assert(block_of(unique_encodings@[j as int].encoding) == Some((
                                bv.low,
                                bv.high,
                                bv.name,
                            )));
                            assert(entry_from(unique_encodings@, bv));
                        } else {
                            let j0 = choose|j0: int|
                                0 <= j0 < before.len() && (#[trigger] before[j0])@ == map@[k]@;
                            assert(entry_from(unique_encodings@, before[j0]@));
                        }
                    }
                    assert forall|j2: int| 0 <= j2 < j + 1 implies match block_of(
                        (#[trigger] unique_encodings@[j2]).encoding,
                    ) {
                        Some(t) => key_listed(map@, t.0, t.1),
                        None => true,
                    } by {
                        let kb = choose|k: int| 0 <= k < map@.len() && (#[trigger] map@[k])@ == bv;
                        if j2 == j {
                            assert(map@[kb]@.low == bv.low && map@[kb]@.high == bv.high);
                            assert(key_listed(map@, bv.low, bv.high));
                        } else {
                            match block_of(unique_encodings@[j2].encoding) {
                                Some(t) => {
                                    assert(key_listed(before, t.0, t.1));
                                    let k0 = choose|k: int|
                                        0 <= k < before.len() && (#[trigger] before[k])@.low == t.0
                                            && before[k]@.high == t.1;
                                    if same_key(before[k0]@, bv) {
                                        assert(map@[kb]@.low == t.0 && map@[kb]@.high == t.1);
                                        assert(key_listed(map@, t.0, t.1));
                                    } else {
                                        let k = choose|k: int|
                                            0 <= k < map@.len() && (#[trigger] map@[k])@ == before[k0]@;
                                        assert(map@[k]@.low == t.0 && map@[k]@.high == t.1);
                                        assert(key_listed(map@, t.0, t.1));
                                    }
                                },
                                None => {},
                            }
                        }
                    }
                }
            },
            None => {},
        }
        j = j + 1;
    }
    map
}

/// A bucket of the classification: a block's range and name (or the
/// synthetic unencoded bucket, whose range is absent) and its glyphs.
#[derive(Debug)]
pub struct Block {
    pub range: Option<(char, char)>,
    pub name: String,
    pub glyphs: Vec<GlyphRef>,
}

/// The mathematical value of a `Block`.
#[verifier::ext_equal]
pub struct BlockView {
    pub range: Option<(char, char)>,
    pub name: Seq<char>,
    pub glyphs: Seq<GlyphId>,
}

impl View for Block {
    type V = BlockView;

    open spec fn view(&self) -> BlockView {
        BlockView { range: self.range, name: self.name@, glyphs: glyph_seq_view(self.glyphs@) }
    }
}

impl Clone for Block {
    fn clone(&self) -> (r: Self)
        ensures
            r@ == self@,
    {
        let mut glyphs: Vec<GlyphRef> = Vec::new();
        let mut i: usize = 0;
        while i < self.glyphs.len()
            invariant
                i <= self.glyphs@.len(),
                glyphs@.len() == i,
                forall|k: int| 0 <= k < i ==> (#[trigger] glyphs@[k])@ == self.glyphs@[k]@,
            decreases self.glyphs@.len() - i,
        {
            glyphs.push(self.glyphs[i].clone());
            i = i + 1;
        }
        proof {
            assert(glyph_seq_view(glyphs@) =~= glyph_seq_view(self.glyphs@));
        }
        let r = Block { range: self.range, name: self.name.clone(), glyphs };
        proof {
            assert(r@ =~= self@);
        }
        r
    }
}

/// Whether a glyph has at least one assignment within `[low, high]`.
pub open spec fn glyph_in_range(g: GlyphId, low: char, high: char) -> bool {
    exists|u: int|
        0 <= u < g.unicode.len() && low <= (#[trigger] g.unicode[u]).encoding && g.unicode[
            u
        ].encoding <= high
}

/// The glyphs of a collection having an assignment within `[low, high]`, in
/// collection order.
pub open spec fn block_glyphs(gs: Seq<GlyphId>, low: char, high: char) -> Seq<GlyphId> {
    gs.filter(|g: GlyphId| glyph_in_range(g, low, high))
}

/// The glyphs of a collection having no assignment at all, in collection
/// order.
pub open spec fn unencoded_glyphs(gs: Seq<GlyphId>) -> Seq<GlyphId> {
    gs.filter(|g: GlyphId| g.unicode.len() == 0)
}

/// Appending one element to a sequence extends its filtered image by that
/// element exactly when the element satisfies the predicate.
pub proof fn lemma_filter_push<A>(s: Seq<A>, pred: spec_fn(A) -> bool, x: A)
    ensures
        s.push(x).filter(pred) == if pred(x) {
            s.filter(pred).push(x)
        } else {
            s.filter(pred)
        },
{
    reveal(Seq::filter);
    assert(s.push(x).drop_last() =~= s);
    assert(s.push(x).last() == x);
}

/// Appending one glyph extends the unencoded bucket by it exactly when it
/// has no assignment.
proof fn lemma_unencoded_push(s: Seq<GlyphId>, x: GlyphId)
    ensures
        unencoded_glyphs(s.push(x)) == if x.unicode.len() == 0 {
            unencoded_glyphs(s).push(x)
        } else {
            unencoded_glyphs(s)
        },
{
    reveal(Seq::filter);
    assert(s.push(x).drop_last() =~= s);
    assert(s.push(x).last() == x);
}

/// Whether a glyph has an assignment within `[low, high]`, executably.
fn has_in_range(g: &GlyphRef, low: char, high: char) -> (r: bool)
    ensures
        r <==> glyph_in_range(g@, low, high),
{
    let mut u: usize = 0;
    let mut found = false;
    while u < g.unicode.len()
        invariant
            u <= g.unicode@.len(),
            found <==> exists|q: int|
                0 <= q < u && low <= (#[trigger] g@.unicode[q]).encoding && g@.unicode[q].encoding
                    <= high,
        decreases g.unicode@.len() - u,
    {
        let e = g.unicode[u].encoding;
        if low <= e && e <= high {
            found = true;
            proof {
                assert(low <= g@.unicode[u as int].encoding && g@.unicode[u as int].encoding
                    <= high);
            }
        }
        u = u + 1;
    }
    found
}

/// Collects the glyphs having an assignment within `[low, high]`.
fn collect_in_range(gvec: &[GlyphRef], low: char, high: char) -> (r: Vec<GlyphRef>)
    ensures
        glyph_seq_view(r@) == block_glyphs(glyph_seq_view(gvec@), low, high),
{
    let ghost all = glyph_seq_view(gvec@);
    let mut r: Vec<GlyphRef> = Vec::new();
    let mut t: usize = 0;
    proof {
        assert(all.subrange(0, 0) =~= Seq::<GlyphId>::empty());
        reveal(Seq::filter);
    }
    while t < gvec.len()
        invariant
            t <= gvec@.len(),
            all == glyph_seq_view(gvec@),
            glyph_seq_view(r@) == block_glyphs(all.subrange(0, t as int), low, high),
        decreases gvec@.len() - t,
    {
        let ghost prefix = all.subrange(0, t as int);
        proof {
            assert(all.subrange(0, t + 1) =~= prefix.push(all[t as int]));
            lemma_filter_push(prefix, |g: GlyphId| glyph_in_range(g, low, high), all[t as int]);
        }
        if has_in_range(&gvec[t], low, high) {
            r.push(gvec[t].clone());
            proof {
                assert(glyph_seq_view(r@) =~= block_glyphs(all.subrange(0, t + 1), low, high));
            }
        } else {
            proof {
                assert(glyph_seq_view(r@) =~= block_glyphs(all.subrange(0, t + 1), low, high));
            }
        }
        t = t + 1;
    }
    proof {
        assert(all.subrange(0, gvec@.len() as int) =~= all);
    }
    r
}

/// Collects the glyphs with no assignment.
fn collect_unencoded(gvec: &[GlyphRef]) -> (r: Vec<GlyphRef>)
    ensures
        glyph_seq_view(r@) == unencoded_glyphs(glyph_seq_view(gvec@)),
{
    let ghost all = glyph_seq_view(gvec@);
    let mut r: Vec<GlyphRef> = Vec::new();
    let mut t: usize = 0;
    proof {
        assert(all.subrange(0, 0) =~= Seq::<GlyphId>::empty());
        reveal(Seq::filter);
    }
    while t < gvec.len()
        invariant
            t <= gvec@.len(),
            all == glyph_seq_view(gvec@),
            glyph_seq_view(r@) == unencoded_glyphs(all.subrange(0, t as int)),
        decreases gvec@.len() - t,
    {
        let ghost prefix = all.subrange(0, t as int);
        proof {
            assert(all.subrange(0, t + 1) =~= prefix.push(all[t as int]));
            lemma_filter_push(prefix, |g: GlyphId| g.unicode.len() == 0, all[t as int]);
        }
        if gvec[t].unicode.len() == 0 {
            r.push(gvec[t].clone());
            proof {
                assert(glyph_seq_view(r@) =~= unencoded_glyphs(all.subrange(0, t + 1)));
            }
        } else {
            proof {
                assert(glyph_seq_view(r@) =~= unencoded_glyphs(all.subrange(0, t + 1)));
            }
        }
        t = t + 1;
    }
    proof {
        assert(all.subrange(0, gvec@.len() as int) =~= all);
    }
    r
}

/// Groups a glyph collection by the blocks of an ordered block map: one
/// bucket per block, in map order, holding every glyph with at least one
/// assignment in that block's range (a glyph spanning several blocks appears
/// in each), then one final synthetic bucket, named Unencoded, holding every
/// glyph with no assignment.
pub fn grouped_by(gvec: &[GlyphRef], blocks: &Vec<BlockRange>) -> (r: Vec<Block>)
    ensures
        r@.len() == blocks@.len() + 1,
        forall|i: int|
            0 <= i < blocks@.len() ==> {
                &&& (#[trigger] r@[i])@.range == Some((blocks@[i]@.low, blocks@[i]@.high))
                &&& r@[i]@.name == blocks@[i]@.name
                &&& r@[i]@.glyphs == block_glyphs(
                    glyph_seq_view(gvec@),
                    blocks@[i]@.low,
                    blocks@[i]@.high,
                )
            },
        r@[blocks@.len() as int]@.range is None,
        r@[blocks@.len() as int]@.name == "Unencoded"@,
        r@[blocks@.len() as int]@.glyphs == unencoded_glyphs(glyph_seq_view(gvec@)),
{
    let mut r: Vec<Block> = Vec::new();
    let mut i: usize = 0;
    while i < blocks.len()
        invariant
            i <= blocks@.len(),
            r@.len() == i,
            forall|q: int|
                0 <= q < i ==> {
                    &&& (#[trigger] r@[q])@.range == Some((blocks@[q]@.low, blocks@[q]@.high))
                    &&& r@[q]@.name == blocks@[q]@.name
                    &&& r@[q]@.glyphs == block_glyphs(
                        glyph_seq_view(gvec@),
                        blocks@[q]@.low,
                        blocks@[q]@.high,
                    )
                },
        decreases blocks@.len() - i,
    {
        let b = &blocks[i];
        let glyphs = collect_in_range(gvec, b.low, b.high);
        r.push(Block { range: Some((b.low, b.high)), name: b.name.clone(), glyphs });
        i = i + 1;
    }
    let glyphs = collect_unencoded(gvec);
    let name = String::from_str("Unencoded");
    r.push(Block { range: None, name, glyphs });
    r
}

/// Every element of a filtered sequence comes from the source and satisfies
/// the predicate, and every source element satisfying the predicate is kept:
/// membership form of the partition property.
pub proof fn lemma_filter_membership<A>(s: Seq<A>, pred: spec_fn(A) -> bool, x: A)
    ensures
        s.filter(pred).contains(x) <==> s.contains(x) && pred(x),
    decreases s.len(),
{
    reveal(Seq::filter);
    if s.len() > 0 {
        lemma_filter_membership(s.drop_last(), pred, x);
        if s.contains(x) {
            let i = choose|i: int| 0 <= i < s.len() && s[i] == x;
            if i < s.len() - 1 {
                assert(s.drop_last()[i] == x);
            }
        }
        if s.drop_last().contains(x) {
            let i = choose|i: int| 0 <= i < s.drop_last().len() && s.drop_last()[i] == x;
            assert(s[i] == x);
        }
        if s.last() == x {
            assert(s[s.len() - 1] == x);
        }
    }
}

/// Each bucket of the classification holds exactly the collection's glyphs
/// meeting its criterion: a glyph value lies in a block's bucket exactly when
/// it lies in the collection and has an assignment in that block's range, and
/// in the unencoded bucket exactly when it lies in the collection and has no
/// assignment at all. With `grouped_by`'s contract this says the union of all
/// buckets is exactly the collection's glyphs.
pub proof fn lemma_partition_membership(gs: Seq<GlyphId>, low: char, high: char, g: GlyphId)
    ensures
        block_glyphs(gs, low, high).contains(g) <==> gs.contains(g) && glyph_in_range(
            g,
            low,
            high,
        ),
        unencoded_glyphs(gs).contains(g) <==> gs.contains(g) && g.unicode.len() == 0,
        !(block_glyphs(gs, low, high).contains(g) && unencoded_glyphs(gs).contains(g)),
{
    lemma_filter_membership(gs, |x: GlyphId| glyph_in_range(x, low, high), g);
    lemma_filter_membership(gs, |x: GlyphId| x.unicode.len() == 0, g);
}

/// The ranges of a block map, pairwise non-overlapping.
pub open spec fn ranges_disjoint(blocks: Seq<BlockRange>) -> bool {
    forall|i: int, j: int|
        0 <= i < j < blocks.len() ==> (#[trigger] blocks[i])@.high < (#[trigger] blocks[j])@.low
            || blocks[j]@.high < blocks[i]@.low
}

/// The number of blocks of the map whose range holds an assignment of `x`.
pub open spec fn blocks_containing(x: GlyphId, blocks: Seq<BlockRange>) -> int
    decreases blocks.len(),
{
    if blocks.len() == 0 {
        0
    } else {
        (if glyph_in_range(x, blocks[0]@.low, blocks[0]@.high) {
            1int
        } else {
            0int
        }) + blocks_containing(x, blocks.drop_first())
    }
}

/// The total size of the per-block buckets of a collection.
pub open spec fn bucket_sizes_sum(gs: Seq<GlyphId>, blocks: Seq<BlockRange>) -> int
    decreases blocks.len(),
{
    if blocks.len() == 0 {
        0
    } else {
        block_glyphs(gs, blocks[0]@.low, blocks[0]@.high).len() + bucket_sizes_sum(
            gs,
            blocks.drop_first(),
        )
    }
}

/// Appending one glyph to the collection grows the bucket total by the
/// number of blocks that contain one of its assignments.
proof fn lemma_sum_push(gs: Seq<GlyphId>, blocks: Seq<BlockRange>, x: GlyphId)
    ensures
        bucket_sizes_sum(gs.push(x), blocks) == bucket_sizes_sum(gs, blocks) + blocks_containing(
            x,
            blocks,
        ),
    decreases blocks.len(),
{
    if blocks.len() > 0 {
        lemma_filter_push(gs, |g: GlyphId| glyph_in_range(g, blocks[0]@.low, blocks[0]@.high), x);
        lemma_sum_push(gs, blocks.drop_first(), x);
    }
}

/// A glyph with no assignment lies in no block.
proof fn lemma_containing_unencoded(x: GlyphId, blocks: Seq<BlockRange>)
    requires
        x.unicode.len() == 0,
    ensures
        blocks_containing(x, blocks) == 0,
    decreases blocks.len(),
{
    if blocks.len() > 0 {
        lemma_containing_unencoded(x, blocks.drop_first());
    }
}

/// Containment counts are never negative.
proof fn lemma_containing_nonneg(x: GlyphId, blocks: Seq<BlockRange>)
    ensures
        blocks_containing(x, blocks) >= 0,
    decreases blocks.len(),
{
    if blocks.len() > 0 {
        lemma_containing_nonneg(x, blocks.drop_first());
    }
}

/// A glyph with a single assignment inside the first block of a disjoint map
/// lies in no later block.
proof fn lemma_containing_rest_zero(x: GlyphId, blocks: Seq<BlockRange>)
    requires
        x.unicode.len() == 1,
        blocks.len() > 0,
        ranges_disjoint(blocks),
        glyph_in_range(x, blocks[0]@.low, blocks[0]@.high),
    ensures
        blocks_containing(x, blocks.drop_first()) == 0,
    decreases blocks.len(),
{
    let rest = blocks.drop_first();
    if rest.len() > 0 {
        assert(blocks[1]@ == rest[0]@);
        assert(!glyph_in_range(x, rest[0]@.low, rest[0]@.high));
        let shorter = blocks.remove(1);
        assert(shorter[0]@ == blocks[0]@);
        assert(ranges_disjoint(shorter)) by {
            assert forall|i: int, j: int|
                0 <= i < j < shorter.len() implies (#[trigger] shorter[i])@.high < (
            #[trigger] shorter[j])@.low || shorter[j]@.high < shorter[i]@.low by {
                let i2: int = if i >= 1 {
                    i + 1
                } else {
                    i
                };
                let j2: int = j + 1;
                assert(shorter[i]@ == blocks[i2]@);
                assert(shorter[j]@ == blocks[j2]@);
            }
        }
        lemma_containing_rest_zero(x, shorter);
        assert(shorter.drop_first() =~= rest.drop_first());
    }
}

/// With pairwise disjoint block ranges, a glyph with exactly one assignment
/// lies in exactly one block when some block's range holds it, else in none.
proof fn lemma_containing_single(x: GlyphId, blocks: Seq<BlockRange>)
    requires
        x.unicode.len() == 1,
        ranges_disjoint(blocks),
    ensures
        blocks_containing(x, blocks) == if exists|i: int|
            0 <= i < blocks.len() && glyph_in_range(
                x,
                (#[trigger] blocks[i])@.low,
                blocks[i]@.high,
            ) {
            1int
        } else {
            0int
        },
    decreases blocks.len(),
{
    if blocks.len() > 0 {
        let rest = blocks.drop_first();
        assert(forall|i: int| 0 <= i < rest.len() ==> (#[trigger] rest[i])@ == blocks[i + 1]@);
        if glyph_in_range(x, blocks[0]@.low, blocks[0]@.high) {
            lemma_containing_rest_zero(x, blocks);
        } else {
            lemma_containing_single(x, rest);
            if exists|i: int|
                0 <= i < blocks.len() && glyph_in_range(
                    x,
                    (#[trigger] blocks[i])@.low,
                    blocks[i]@.high,
                ) {
                let i = choose|i: int|
                    0 <= i < blocks.len() && glyph_in_range(
                        x,
                        (#[trigger] blocks[i])@.low,
                        blocks[i]@.high,
                    );
                assert(i >= 1);
                assert(rest[i - 1]@ == blocks[i]@);
            }
        }
    }
}

/// Partition sizes: when every glyph carries at most one assignment, the
/// block ranges are pairwise disjoint, and every encoded glyph's assignment
/// falls in some block of the map, the per-block bucket sizes together with
/// the unencoded bucket add up to exactly the collection's size: each glyph
/// is bucketed exactly once.
pub proof fn lemma_partition_sizes(gs: Seq<GlyphId>, blocks: Seq<BlockRange>)
    requires
        forall|k: int| 0 <= k < gs.len() ==> (#[trigger] gs[k]).unicode.len() <= 1,
        ranges_disjoint(blocks),
        forall|k: int|
            0 <= k < gs.len() && (#[trigger] gs[k]).unicode.len() == 1 ==> exists|i: int|
                0 <= i < blocks.len() && glyph_in_range(
                    gs[k],
                    (#[trigger] blocks[i])@.low,
                    blocks[i]@.high,
                ),
    ensures
        bucket_sizes_sum(gs, blocks) + unencoded_glyphs(gs).len() == gs.len(),
    decreases gs.len(),
{
    reveal(Seq::filter);
    if gs.len() == 0 {
        assert(gs =~= Seq::<GlyphId>::empty());
        lemma_sum_empty(blocks);
        assert(unencoded_glyphs(gs).len() == 0);
    } else {
        let s = gs.drop_last();
        let x = gs.last();
        assert(gs =~= s.push(x));
        assert(forall|k: int| 0 <= k < s.len() ==> s[k] == gs[k]);
        lemma_partition_sizes(s, blocks);
        lemma_sum_push(s, blocks, x);
        lemma_unencoded_push(s, x);
        assert(bucket_sizes_sum(s, blocks) + unencoded_glyphs(s).len() == s.len());
        assert(gs == s.push(x));
        assert(bucket_sizes_sum(gs, blocks) == bucket_sizes_sum(s.push(x), blocks));
        assert(bucket_sizes_sum(s.push(x), blocks) == bucket_sizes_sum(s, blocks)
            + blocks_containing(x, blocks));
        assert(unencoded_glyphs(gs) == unencoded_glyphs(s.push(x)));
        if x.unicode.len() == 0 {
            lemma_containing_unencoded(x, blocks);
        } else {
            assert(x == gs[gs.len() - 1]);
            assert(x.unicode.len() == 1);
            let i = choose|i: int|
                0 <= i < blocks.len() && glyph_in_range(
                    gs[gs.len() - 1],
                    (#[trigger] blocks[i])@.low,
                    blocks[i]@.high,
                );
            assert(glyph_in_range(x, blocks[i]@.low, blocks[i]@.high));
            lemma_containing_single(x, blocks);
            assert(blocks_containing(x, blocks) == 1);
        }
    }
}

/// An empty collection has empty buckets.
proof fn lemma_sum_empty(blocks: Seq<BlockRange>)
    ensures
        bucket_sizes_sum(Seq::<GlyphId>::empty(), blocks) == 0,
    decreases blocks.len(),
{
    reveal(Seq::filter);
    if blocks.len() > 0 {
        lemma_sum_empty(blocks.drop_first());
    }
}

} // verus!
