//! The viewer session model: loaded masters, the active master, the glyph
//! name index, and the interpolation check that is recomputed whenever the
//! master set or an outline changes.

use vstd::prelude::*;

use crate::blocks::{Block, BlockView};
use crate::glif::{Glif, GlifView};
use crate::glyph_entries::{GlyphEntry, GlyphEntryView};
use crate::metadata::{Metadata, MetadataView};

verus! {

/// One loaded master: its metadata, its directory path, its glyphs in
/// listing order, and its cached block classification.
#[derive(Debug)]
pub struct UFO {
    pub metadata: Metadata,
    pub path: String,
    pub glyph_entries: Vec<GlyphEntry>,
    pub unicode_blocks: Vec<Block>,
}

/// The mathematical value of a `UFO`.
#[verifier::ext_equal]
pub struct UFOView {
    pub metadata: MetadataView,
    pub path: Seq<char>,
    pub glyph_entries: Seq<GlyphEntryView>,
    pub unicode_blocks: Seq<BlockView>,
}

/// The views of a sequence of glyph entries, element by element.
pub open spec fn entry_seq_view(s: Seq<GlyphEntry>) -> Seq<GlyphEntryView> {
    Seq::new(s.len(), |i: int| s[i]@)
}

/// The views of a sequence of blocks, element by element.
pub open spec fn block_seq_view(s: Seq<Block>) -> Seq<BlockView> {
    Seq::new(s.len(), |i: int| s[i]@)
}

impl View for UFO {
    type V = UFOView;

    open spec fn view(&self) -> UFOView {
        UFOView {
            metadata: self.metadata@,
            path: self.path@,
            glyph_entries: entry_seq_view(self.glyph_entries@),
            unicode_blocks: block_seq_view(self.unicode_blocks@),
        }
    }
}

/// The views of a sequence of masters, element by element.
pub open spec fn ufo_seq_view(s: Seq<UFO>) -> Seq<UFOView> {
    Seq::new(s.len(), |i: int| s[i]@)
}

/// A master is well formed when its entries carry pairwise distinct glyph
/// names: each name keys at most one entry.
pub open spec fn wf_master(m: UFOView) -> bool {
    forall|a: int, b: int|
        0 <= a < b < m.glyph_entries.len() ==> (#[trigger] m.glyph_entries[a]).uniname != (
        #[trigger] m.glyph_entries[b]).uniname
}

/// All masters of a collection are well formed.
pub open spec fn wf_masters(ms: Seq<UFOView>) -> bool {
    forall|i: int| 0 <= i < ms.len() ==> wf_master(#[trigger] ms[i])
}

/// An entry after an outline file changed: the entry whose outline came
/// from that file takes the new outline; any other entry stands unchanged.
pub open spec fn updated_entry(e: GlyphEntryView, g: GlifView) -> GlyphEntryView {
    if e.glif.filename == g.filename {
        GlyphEntryView {
            glifname: e.glifname,
            codepoints: e.codepoints,
            uniname: e.uniname,
            unicat: e.unicat,
            filename: e.filename,
            glif: g,
        }
    } else {
        e
    }
}

/// The viewer session: the loaded masters, which one is active, the search
/// and block filters, the glyph-name index of the primary master, and the
/// current interpolation check.
#[derive(Debug)]
pub struct UFOViewer {
    pub active_master_idx: Option<usize>,
    pub masters: Vec<UFO>,
    pub filter_string: String,
    pub filter_block: Option<String>,
    pub sort_by_blocks: bool,
    pub glyph_name_map: Vec<(String, usize)>,
    pub interpolation_check: Option<crate::interpolation::InterpolationCheckResults>,
    pub should_exit: bool,
    pub dirty: bool,
}

/// The views of a sequence of masters as the viewer holds them.
pub open spec fn masters_view(v: Seq<UFO>) -> Seq<UFOView> {
    ufo_seq_view(v)
}

/// A fresh session: nothing loaded, nothing filtered, no check yet.
pub open spec fn fresh_session(v: UFOViewer) -> bool {
    &&& v.active_master_idx is None
    &&& v.masters@.len() == 0
    &&& v.filter_string@.len() == 0
    &&& v.filter_block is None
    &&& !v.sort_by_blocks
    &&& v.glyph_name_map@.len() == 0
    &&& v.interpolation_check is None
    &&& !v.is_exit_requested()
    &&& !v.dirty
}

impl Default for UFOViewer {
    /// A fresh session: nothing loaded, nothing filtered, no check yet.
    fn default() -> (r: Self)
        ensures
            fresh_session(r),
    {
        UFOViewer {
            active_master_idx: None,
            masters: Vec::new(),
            filter_string: String::new(),
            filter_block: None,
            sort_by_blocks: false,
            glyph_name_map: Vec::new(),
            interpolation_check: None,
            should_exit: false,
            dirty: false,
        }
    }
}

impl UFOViewer {
    /// Whether the session has been asked to end.
    pub open spec fn is_exit_requested(&self) -> bool {
        self.should_exit
    }

    /// The master currently shown: the selected one, or the first when none
    /// was ever selected.
    pub fn get_active_master(&self) -> (r: Option<&UFO>)
        ensures
            ({
                let idx = match self.active_master_idx {
                    Some(i) => i as int,
                    None => 0,
                };
                match r {
                    Some(m) => idx < self.masters@.len() && m == &self.masters@[idx],
                    None => idx >= self.masters@.len(),
                }
            }),
    {
        let idx = match self.active_master_idx {
            Some(i) => i,
            None => 0,
        };
        self.masters.get(idx)
    }

    /// Selects the master to show.
    pub fn set_active_master(&mut self, idx: usize)
        ensures
            final(self).active_master_idx == Some(idx),
            final(self).masters == old(self).masters,
            final(self).glyph_name_map == old(self).glyph_name_map,
            final(self).interpolation_check == old(self).interpolation_check,
            final(self).is_exit_requested() == old(self).is_exit_requested(),
            final(self).dirty == old(self).dirty,
    {
        self.active_master_idx = Some(idx);
    }

    /// Rebuilds the glyph-name index from a master: each entry's glyph name
    /// mapped to its position in the listing.
    pub fn populate_glyph_name_map(&mut self, ufo: &UFO)
        ensures
            final(self).glyph_name_map@.len() == ufo@.glyph_entries.len(),
            forall|k: int|
                0 <= k < ufo@.glyph_entries.len() ==> {
                    &&& (#[trigger] final(self).glyph_name_map@[k]).0@ == ufo@.glyph_entries[
                        k
                    ].glifname
                    &&& final(self).glyph_name_map@[k].1 == k
                },
            final(self).masters == old(self).masters,
            final(self).active_master_idx == old(self).active_master_idx,
            final(self).interpolation_check == old(self).interpolation_check,
            final(self).is_exit_requested() == old(self).is_exit_requested(),
            final(self).dirty == old(self).dirty,
    {
        let mut map: Vec<(String, usize)> = Vec::new();
        let mut k: usize = 0;
        while k < ufo.glyph_entries.len()
            invariant
                k <= ufo.glyph_entries@.len(),
                map@.len() == k,
                forall|q: int|
                    0 <= q < k ==> {
                        &&& (#[trigger] map@[q]).0@ == ufo@.glyph_entries[q].glifname
                        &&& map@[q].1 == q
                    },
            decreases ufo.glyph_entries@.len() - k,
        {
            map.push((ufo.glyph_entries[k].glifname.clone(), k));
            k = k + 1;
        }
        self.glyph_name_map = map;
    }

    /// Replaces the loaded font with one master: the session shows it, the
    /// name index follows it, and the interpolation check is recomputed for
    /// the new master set.
    pub fn set_font(&mut self, ufo: UFO)
        requires
            wf_master(ufo@),
        ensures
            final(self).masters@.len() == 1,
            final(self).masters@[0]@ == ufo@,
            final(self).active_master_idx == Some(0usize),
            match final(self).interpolation_check {
                Some(res) => crate::interpolation::results_match(
                    res,
                    masters_view(final(self).masters@),
                ),
                None => false,
            },
            final(self).is_exit_requested() == old(self).is_exit_requested(),
    {
        self.masters = Vec::new();
        self.set_active_master(0);
        self.populate_glyph_name_map(&ufo);
        self.masters.push(ufo);
        proof {
            assert(ufo_seq_view(self.masters@) =~= seq![self.masters@[0]@]);
            assert forall|i: int|
                0 <= i < ufo_seq_view(self.masters@).len() implies wf_master(
                #[trigger] ufo_seq_view(self.masters@)[i],
            ) by {
                assert(ufo_seq_view(self.masters@)[i] == self.masters@[0]@);
            }
            assert(wf_masters(ufo_seq_view(self.masters@)));
        }
        let results = crate::interpolation::check_interpolatable(&self.masters);
        self.interpolation_check = Some(results);
    }

    /// Adds a master unless one with the same path is already loaded; a new
    /// master marks the session dirty and recomputes the interpolation check
    /// over the grown master set.
    pub fn add_master(&mut self, ufo: UFO)
        requires
            wf_masters(masters_view(old(self).masters@)),
            wf_master(ufo@),
        ensures
            ({
                let had = exists|i: int|
                    0 <= i < old(self).masters@.len() && (#[trigger] old(self).masters@[i])@.path
                        == ufo@.path;
                if had {
                    *final(self) == *old(self)
                } else {
                    &&& final(self).masters@.len() == old(self).masters@.len() + 1
                    &&& forall|i: int|
                        0 <= i < old(self).masters@.len() ==> #[trigger] final(self).masters@[i]
                            == old(self).masters@[i]
                    &&& final(self).masters@.last()@ == ufo@
                    &&& final(self).dirty
                    &&& match final(self).interpolation_check {
                        Some(res) => crate::interpolation::results_match(
                            res,
                            masters_view(final(self).masters@),
                        ),
                        None => false,
                    }
                }
            }),
    {
        let ghost pre = *self;
        let mut i: usize = 0;
        while i < self.masters.len()
            invariant
                *self == pre,
                i <= self.masters@.len(),
                forall|q: int|
                    0 <= q < i ==> (#[trigger] self.masters@[q])@.path != ufo@.path,
            decreases self.masters@.len() - i,
        {
            if crate::strutil::str_eq(self.masters[i].path.as_str(), ufo.path.as_str()) {
                proof {
                    assert(self.masters@[i as int]@.path == ufo@.path);
                }
                return ;
            }
            i = i + 1;
        }
        let ghost old_masters = self.masters@;
        self.masters.push(ufo);
        self.dirty = true;
        proof {
            assert(self.masters@.last()@ == self.masters@[self.masters@.len() - 1]@);
            assert forall|q: int|
                0 <= q < ufo_seq_view(self.masters@).len() implies wf_master(
                #[trigger] ufo_seq_view(self.masters@)[q],
            ) by {
                if q < old_masters.len() {
                    assert(ufo_seq_view(self.masters@)[q] == old_masters[q]@);
                    assert(old_masters == old(self).masters@);
                    assert(masters_view(old(self).masters@)[q] == old_masters[q]@);
                    assert(wf_master(masters_view(old(self).masters@)[q]));
                } else {
                    assert(ufo_seq_view(self.masters@)[q] == self.masters@.last()@);
                }
            }
            assert(wf_masters(ufo_seq_view(self.masters@)));
        }
        let results = crate::interpolation::check_interpolatable(&self.masters);
        self.interpolation_check = Some(results);
    }

    /// Applies a changed outline, as the file watcher reports one: every
    /// entry of every master whose outline came from the same file takes the
    /// new outline, the session is marked dirty, and the interpolation check
    /// is recomputed.
    #[verifier::loop_isolation(false)]
    pub fn apply_glyph_update(&mut self, glif: &Glif)
        requires
            wf_masters(ufo_seq_view(old(self).masters@)),
        ensures
            final(self).masters@.len() == old(self).masters@.len(),
            forall|i: int|
                0 <= i < old(self).masters@.len() ==> {
                    &&& (#[trigger] final(self).masters@[i])@.metadata == old(self).masters@[
                        i
                    ]@.metadata
                    &&& final(self).masters@[i]@.path == old(self).masters@[i]@.path
                    &&& final(self).masters@[i]@.unicode_blocks == old(self).masters@[
                        i
                    ]@.unicode_blocks
                    &&& final(self).masters@[i]@.glyph_entries.len() == old(self).masters@[
                        i
                    ]@.glyph_entries.len()
                    &&& forall|e: int|
                        0 <= e < old(self).masters@[i]@.glyph_entries.len()
                            ==> (#[trigger] final(self).masters@[i]@.glyph_entries[e]) == updated_entry(
                            old(self).masters@[i]@.glyph_entries[e],
                            glif@,
                        )
                },
            final(self).dirty,
            match final(self).interpolation_check {
                Some(res) => crate::interpolation::results_match(
                    res,
                    ufo_seq_view(final(self).masters@),
                ),
                None => false,
            },
            final(self).is_exit_requested() == old(self).is_exit_requested(),
    {
        let ghost old_ms = ufo_seq_view(self.masters@);
        let mut new_masters: Vec<UFO> = Vec::new();
        let mut i: usize = 0;
        while i < self.masters.len()
            invariant
                i <= self.masters@.len(),
                *self == *old(self),
                new_masters@.len() == i,
                forall|q: int|
                    0 <= q < i ==> {
                        &&& (#[trigger] new_masters@[q])@.metadata == old(self).masters@[
                            q
                        ]@.metadata
                        &&& new_masters@[q]@.path == old(self).masters@[q]@.path
                        &&& new_masters@[q]@.unicode_blocks == old(self).masters@[
                            q
                        ]@.unicode_blocks
                        &&& new_masters@[q]@.glyph_entries.len() == old(self).masters@[
                            q
                        ]@.glyph_entries.len()
                        &&& forall|e: int|
                            0 <= e < old(self).masters@[q]@.glyph_entries.len()
                                ==> #[trigger] new_masters@[q]@.glyph_entries[e] == updated_entry(
                                old(self).masters@[q]@.glyph_entries[e],
                                glif@,
                            )
                    },
            decreases self.masters@.len() - i,
        {
            let m = &self.masters[i];
            let mut new_entries: Vec<GlyphEntry> = Vec::new();
            let mut e: usize = 0;
            while e < m.glyph_entries.len()
                invariant
                    i < self.masters@.len(),
                    m == &self.masters@[i as int],
                    e <= m.glyph_entries@.len(),
                    new_entries@.len() == e,
                    forall|q: int|
                        0 <= q < e ==> #[trigger] new_entries@[q]@ == updated_entry(
                            m@.glyph_entries[q],
                            glif@,
                        ),
                decreases m.glyph_entries@.len() - e,
            {
                let entry = &m.glyph_entries[e];
                if crate::strutil::str_eq(
                    entry.glif.filename.as_str(),
                    glif.filename.as_str(),
                ) {
                    let g = GlyphEntry {
                        glifname: entry.glifname.clone(),
                        codepoints: entry.codepoints.clone(),
                        uniname: entry.uniname.clone(),
                        unicat: entry.unicat.clone(),
                        filename: entry.filename.clone(),
                        glif: glif.clone(),
                    };
                    proof {
                        assert(entry@ == m@.glyph_entries[e as int]);
                        assert(g@ =~= updated_entry(m@.glyph_entries[e as int], glif@));
                    }
                    new_entries.push(g);
                } else {
                    let g = entry.clone();
                    proof {
                        assert(entry@ == m@.glyph_entries[e as int]);
                        assert(g@ =~= updated_entry(m@.glyph_entries[e as int], glif@));
                    }
                    new_entries.push(g);
                }
                e = e + 1;
            }
            let mut new_blocks: Vec<crate::blocks::Block> = Vec::new();
            let mut b: usize = 0;
            while b < m.unicode_blocks.len()
                invariant
                    i < self.masters@.len(),
                    m == &self.masters@[i as int],
                    b <= m.unicode_blocks@.len(),
                    new_blocks@.len() == b,
                    forall|q: int|
                        0 <= q < b ==> (#[trigger] new_blocks@[q])@ == m@.unicode_blocks[q],
                decreases m.unicode_blocks@.len() - b,
            {
                new_blocks.push(m.unicode_blocks[b].clone());
                b = b + 1;
            }
            let nm = UFO {
                metadata: m.metadata.clone(),
                path: m.path.clone(),
                glyph_entries: new_entries,
                unicode_blocks: new_blocks,
            };
            proof {
                assert(entry_seq_view(nm.glyph_entries@) =~= Seq::new(
                    m@.glyph_entries.len(),
                    |q: int| updated_entry(m@.glyph_entries[q], glif@),
                ));
                assert(block_seq_view(nm.unicode_blocks@) =~= m@.unicode_blocks);
            }
            new_masters.push(nm);
            i = i + 1;
        }
        self.masters = new_masters;
        self.dirty = true;
        proof {
            assert forall|q: int|
                0 <= q < ufo_seq_view(self.masters@).len() implies wf_master(
                #[trigger] ufo_seq_view(self.masters@)[q],
            ) by {
                assert(wf_master(old_ms[q]));
                let mv = ufo_seq_view(self.masters@)[q];
                assert(mv == self.masters@[q]@);
                assert forall|a: int, b2: int|
                    0 <= a < b2 < mv.glyph_entries.len() implies (
                #[trigger] mv.glyph_entries[a]).uniname != (#[trigger] mv.glyph_entries[
                    b2
                ]).uniname by {
                    assert(mv.glyph_entries[a] == updated_entry(
                        old(self).masters@[q]@.glyph_entries[a],
                        glif@,
                    ));
                    assert(mv.glyph_entries[b2] == updated_entry(
                        old(self).masters@[q]@.glyph_entries[b2],
                        glif@,
                    ));
                    assert(old_ms[q] == old(self).masters@[q]@);
                    assert(old_ms[q].glyph_entries[a].uniname != old_ms[q].glyph_entries[
                        b2
                    ].uniname);
                }
            }
            assert(wf_masters(ufo_seq_view(self.masters@)));
        }
        let results = crate::interpolation::check_interpolatable(&self.masters);
        self.interpolation_check = Some(results);
    }

    /// Asks the session to end.
    pub fn exit(&mut self)
        ensures
            final(self).is_exit_requested(),
            final(self).masters == old(self).masters,
            final(self).interpolation_check == old(self).interpolation_check,
    {
        self.should_exit = true;
    }

    /// Whether the session has been asked to end.
    pub fn is_requesting_exit(&self) -> (r: bool)
        ensures
            r == self.is_exit_requested(),
    {
        self.should_exit
    }
}

} // verus!
