//! Render cache: an identity-keyed store of rendered glyph thumbnails with a
//! FIFO rebuild queue. Lookups never block: a miss enqueues the glyph (once)
//! and yields the shared placeholder; the frame loop later pops the oldest
//! queued glyph, renders it, and stores the handle. Entries persist until
//! explicitly invalidated.

use std::collections::VecDeque;

use vstd::prelude::*;

use crate::glyph_entries::{same_identity, GlyphEntry, GlyphEntryView};
use crate::interpolation::{names_contain, InterpolationCheckResults};

verus! {

/// The cache: the session placeholder, the rendered handles keyed by glyph
/// identity, and the queue of glyphs waiting to be rendered (newest at the
/// front, drained from the back).
#[derive(Debug)]
pub struct UFOCache<H> {
    default_texture: Option<H>,
    texture_handles: Vec<(GlyphEntry, H)>,
    needs_rebuild: VecDeque<GlyphEntry>,
}

impl<H> UFOCache<H> {
    /// The shared placeholder handle, once created.
    pub closed spec fn placeholder(&self) -> Option<H> {
        self.default_texture
    }

    /// The identities that own a rendered handle, in storage order.
    pub closed spec fn ready_keys(&self) -> Seq<GlyphEntryView> {
        Seq::new(self.texture_handles@.len(), |i: int| self.texture_handles@[i].0@)
    }

    /// The rendered handles, parallel to `ready_keys`.
    pub closed spec fn ready_vals(&self) -> Seq<H> {
        Seq::new(self.texture_handles@.len(), |i: int| self.texture_handles@[i].1)
    }

    /// The identities queued for (re)rendering, newest first.
    pub closed spec fn queue_view(&self) -> Seq<GlyphEntryView> {
        Seq::new(self.needs_rebuild@.len(), |i: int| self.needs_rebuild@[i]@)
    }

    /// Whether a rendered handle exists for the identity.
    pub open spec fn ready_for(&self, id: GlyphEntryView) -> bool {
        exists|k: int|
            0 <= k < self.ready_keys().len() && same_identity(#[trigger] self.ready_keys()[k], id)
    }

    /// Whether the identity is queued for rendering.
    pub open spec fn queued(&self, id: GlyphEntryView) -> bool {
        exists|k: int|
            0 <= k < self.queue_view().len() && same_identity(#[trigger] self.queue_view()[k], id)
    }

    /// Well-formedness: each identity owns at most one handle and stands in
    /// the queue at most once.
    pub closed spec fn wf(&self) -> bool {
        &&& forall|a: int, b: int|
            0 <= a < b < self.ready_keys().len() ==> !same_identity(
                #[trigger] self.ready_keys()[a],
                #[trigger] self.ready_keys()[b],
            )
        &&& forall|a: int, b: int|
            0 <= a < b < self.queue_view().len() ==> !same_identity(
                #[trigger] self.queue_view()[a],
                #[trigger] self.queue_view()[b],
            )
    }

    /// Establishes well-formedness from its two parts.
    proof fn lemma_wf_intro(c: Self)
        requires
            forall|a: int, b: int|
                0 <= a < b < c.ready_keys().len() ==> !same_identity(
                    #[trigger] c.ready_keys()[a],
                    #[trigger] c.ready_keys()[b],
                ),
            forall|a: int, b: int|
                0 <= a < b < c.queue_view().len() ==> !same_identity(
                    #[trigger] c.queue_view()[a],
                    #[trigger] c.queue_view()[b],
                ),
        ensures
            c.wf(),
    {
    }

    /// Opens well-formedness into its two parts.
    proof fn lemma_wf_elim(c: Self)
        requires
            c.wf(),
        ensures
            forall|a: int, b: int|
                0 <= a < b < c.ready_keys().len() ==> !same_identity(
                    #[trigger] c.ready_keys()[a],
                    #[trigger] c.ready_keys()[b],
                ),
            forall|a: int, b: int|
                0 <= a < b < c.queue_view().len() ==> !same_identity(
                    #[trigger] c.queue_view()[a],
                    #[trigger] c.queue_view()[b],
                ),
    {
    }

    /// An empty cache with no placeholder yet.
    pub fn new() -> (r: Self)
        ensures
            r.wf(),
            r.placeholder() is None,
            r.ready_keys().len() == 0,
            r.queue_view().len() == 0,
    {
        UFOCache {
            default_texture: None,
            texture_handles: Vec::new(),
            needs_rebuild: VecDeque::new(),
        }
    }

    /// Stores the session placeholder if none exists yet; a second call
    /// leaves the first placeholder in place.
    pub fn create_default_texture(&mut self, texture: H)
        ensures
            final(self).placeholder() == if old(self).placeholder() is Some {
                old(self).placeholder()
            } else {
                Some(texture)
            },
            final(self).ready_keys() == old(self).ready_keys(),
            final(self).ready_vals() == old(self).ready_vals(),
            final(self).queue_view() == old(self).queue_view(),
            old(self).wf() ==> final(self).wf(),
    {
        if self.default_texture.is_none() {
            self.default_texture = Some(texture);
        }
    }

    /// The displayable handle for a glyph, never blocking: a glyph with a
    /// rendered handle yields it; any other glyph yields the placeholder and
    /// is queued for rendering unless it already is.
    #[verifier::loop_isolation(false)]
    pub fn get_image_handle(&mut self, glyph_entry: &GlyphEntry) -> (r: &H)
        requires
            old(self).wf(),
            old(self).placeholder() is Some,
        ensures
            final(self).wf(),
            final(self).placeholder() == old(self).placeholder(),
            final(self).ready_keys() == old(self).ready_keys(),
            final(self).ready_vals() == old(self).ready_vals(),
            old(self).ready_for(glyph_entry@) ==> {
                &&& final(self).queue_view() == old(self).queue_view()
                &&& exists|k: int|
                    0 <= k < old(self).ready_keys().len() && same_identity(
                        #[trigger] old(self).ready_keys()[k],
                        glyph_entry@,
                    ) && *r == old(self).ready_vals()[k]
            },
            !old(self).ready_for(glyph_entry@) ==> {
                &&& old(self).placeholder() == Some(*r)
                &&& final(self).queue_view() == if old(self).queued(glyph_entry@) {
                    old(self).queue_view()
                } else {
                    seq![glyph_entry@] + old(self).queue_view()
                }
            },
    {
        let ghost pre = *self;
        let n = self.texture_handles.len();
        let mut k: usize = 0;
        while k < n
            invariant
                *self == pre,
                n == self.texture_handles@.len(),
                k <= n,
                forall|q: int|
                    0 <= q < k ==> !same_identity(#[trigger] self.ready_keys()[q], glyph_entry@),
            decreases n - k,
        {
            if self.texture_handles[k].0.identity_eq(glyph_entry) {
                proof {
                    assert(same_identity(self.ready_keys()[k as int], glyph_entry@));
                }
                return &self.texture_handles[k].1;
            }
            k = k + 1;
        }
        proof {
            assert(!self.ready_for(glyph_entry@));
        }
        let mut queued_already = false;
        let qn = self.needs_rebuild.len();
        let mut q: usize = 0;
        while q < qn
            invariant
                *self == pre,
                qn == self.needs_rebuild@.len(),
                q <= qn,
                queued_already <==> exists|t: int|
                    0 <= t < q && same_identity(#[trigger] self.queue_view()[t], glyph_entry@),
            decreases qn - q,
        {
            if self.needs_rebuild[q].identity_eq(glyph_entry) {
                queued_already = true;
                proof {
                    assert(same_identity(self.queue_view()[q as int], glyph_entry@));
                }
            }
            q = q + 1;
        }
        if !queued_already {
            let ghost old_q = self.queue_view();
            self.needs_rebuild.push_front(glyph_entry.clone());
            proof {
                assert(self.queue_view() =~= seq![glyph_entry@] + old_q);
                assert forall|a: int, b: int|
                    0 <= a < b < self.queue_view().len() implies !same_identity(
                    #[trigger] self.queue_view()[a],
                    #[trigger] self.queue_view()[b],
                ) by {
                    if a == 0 {
                        assert(self.queue_view()[b] == old_q[b - 1]);
                        assert(!pre.queued(glyph_entry@));
                    } else {
                        assert(self.queue_view()[a] == old_q[a - 1]);
                        assert(self.queue_view()[b] == old_q[b - 1]);
                    }
                }
            }
        }
        self.default_texture.as_ref().unwrap()
    }

    /// Pops the oldest queued glyph, if any: the next one to render.
    #[verifier::loop_isolation(false)]
    pub fn pop_rebuild(&mut self) -> (r: Option<GlyphEntry>)
        requires
            old(self).wf(),
        ensures
            final(self).wf(),
            final(self).placeholder() == old(self).placeholder(),
            final(self).ready_keys() == old(self).ready_keys(),
            final(self).ready_vals() == old(self).ready_vals(),
            match r {
                Some(entry) => {
                    &&& old(self).queue_view().len() > 0
                    &&& entry@ == old(self).queue_view().last()
                    &&& final(self).queue_view() == old(self).queue_view().drop_last()
                },
                None => {
                    &&& old(self).queue_view().len() == 0
                    &&& final(self).queue_view() == old(self).queue_view()
                },
            },
    {
        let r = self.needs_rebuild.pop_back();
        proof {
            Self::lemma_wf_elim(*old(self));
            if old(self).queue_view().len() > 0 {
                assert(self.queue_view() =~= old(self).queue_view().drop_last());
            } else {
                assert(self.queue_view() =~= old(self).queue_view());
            }
            assert forall|a: int, b: int|
                0 <= a < b < self.queue_view().len() implies !same_identity(
                #[trigger] self.queue_view()[a],
                #[trigger] self.queue_view()[b],
            ) by {
                assert(self.queue_view()[a] == old(self).queue_view()[a]);
                assert(self.queue_view()[b] == old(self).queue_view()[b]);
            }
            assert forall|a: int, b: int|
                0 <= a < b < self.ready_keys().len() implies !same_identity(
                #[trigger] self.ready_keys()[a],
                #[trigger] self.ready_keys()[b],
            ) by {
                assert(self.ready_keys()[a] == old(self).ready_keys()[a]);
                assert(self.ready_keys()[b] == old(self).ready_keys()[b]);
            }
            Self::lemma_wf_intro(*self);
        }
        r
    }

    /// Stores a freshly rendered handle for a glyph; a glyph that already
    /// owns a handle keeps the one it has.
    #[verifier::loop_isolation(false)]
    pub fn set_image_handle(&mut self, glyph_entry: &GlyphEntry, texture: H)
        requires
            old(self).wf(),
        ensures
            final(self).wf(),
            final(self).placeholder() == old(self).placeholder(),
            final(self).queue_view() == old(self).queue_view(),
            old(self).ready_for(glyph_entry@) ==> {
                &&& final(self).ready_keys() == old(self).ready_keys()
                &&& final(self).ready_vals() == old(self).ready_vals()
            },
            !old(self).ready_for(glyph_entry@) ==> {
                &&& final(self).ready_keys() == old(self).ready_keys().push(glyph_entry@)
                &&& final(self).ready_vals() == old(self).ready_vals().push(texture)
            },
    {
        let ghost pre = *self;
        let n = self.texture_handles.len();
        let mut k: usize = 0;
        while k < n
            invariant
                *self == pre,
                n == self.texture_handles@.len(),
                k <= n,
                forall|q: int|
                    0 <= q < k ==> !same_identity(#[trigger] self.ready_keys()[q], glyph_entry@),
            decreases n - k,
        {
            if self.texture_handles[k].0.identity_eq(glyph_entry) {
                proof {
                    assert(same_identity(self.ready_keys()[k as int], glyph_entry@));
                }
                return ;
            }
            k = k + 1;
        }
        proof {
            assert(!self.ready_for(glyph_entry@));
        }
        let ghost old_keys = self.ready_keys();
        let ghost old_vals = self.ready_vals();
        self.texture_handles.push((glyph_entry.clone(), texture));
        proof {
            Self::lemma_wf_elim(pre);
            assert(self.ready_keys() =~= old_keys.push(glyph_entry@));
            assert(self.ready_vals() =~= old_vals.push(texture));
            assert forall|a: int, b: int|
                0 <= a < b < self.ready_keys().len() implies !same_identity(
                #[trigger] self.ready_keys()[a],
                #[trigger] self.ready_keys()[b],
            ) by {
                if b == self.ready_keys().len() - 1 {
                    assert(self.ready_keys()[a] == old_keys[a]);
                    assert(!same_identity(pre.ready_keys()[a], glyph_entry@));
                } else {
                    assert(self.ready_keys()[a] == old_keys[a]);
                    assert(self.ready_keys()[b] == old_keys[b]);
                }
            }
            assert(self.queue_view() == pre.queue_view());
            assert forall|a: int, b: int|
                0 <= a < b < self.queue_view().len() implies !same_identity(
                #[trigger] self.queue_view()[a],
                #[trigger] self.queue_view()[b],
            ) by {
                assert(self.queue_view()[a] == pre.queue_view()[a]);
                assert(self.queue_view()[b] == pre.queue_view()[b]);
            }
            Self::lemma_wf_intro(*self);
        }
    }

    /// Drops the rendered handle for a glyph, if any, and queues the glyph
    /// for a rebuild unless it is queued already: the next lookup yields the
    /// placeholder until the rebuild has run.
    #[verifier::loop_isolation(false)]
    pub fn invalidate(&mut self, glyph_entry: &GlyphEntry)
        requires
            old(self).wf(),
        ensures
            final(self).wf(),
            final(self).placeholder() == old(self).placeholder(),
            !final(self).ready_for(glyph_entry@),
            final(self).queued(glyph_entry@),
            forall|id: GlyphEntryView|
                !same_identity(id, glyph_entry@) ==> (final(self).ready_for(id) <==> old(
                    self,
                ).ready_for(id)),
            old(self).ready_for(glyph_entry@) ==> (exists|f: int|
                {
                    &&& 0 <= f < old(self).ready_keys().len()
                    &&& same_identity(#[trigger] old(self).ready_keys()[f], glyph_entry@)
                    &&& final(self).ready_keys() == old(self).ready_keys().remove(f)
                    &&& final(self).ready_vals() == old(self).ready_vals().remove(f)
                }),
            final(self).queue_view() == if old(self).queued(glyph_entry@) {
                old(self).queue_view()
            } else {
                seq![glyph_entry@] + old(self).queue_view()
            },
            old(self).ready_for(glyph_entry@) ==> final(self).ready_keys().len() == old(
                self,
            ).ready_keys().len() - 1,
            !old(self).ready_for(glyph_entry@) ==> final(self).ready_keys() == old(
                self,
            ).ready_keys() && final(self).ready_vals() == old(self).ready_vals(),
    {
        let ghost pre = *self;
        proof {
            Self::lemma_wf_elim(pre);
        }
        let n = self.texture_handles.len();
        let mut k: usize = 0;
        let mut found: Option<usize> = None;
        while k < n
            invariant
                *self == pre,
                n == self.texture_handles@.len(),
                k <= n,
                match found {
                    Some(f) => f < k && same_identity(self.ready_keys()[f as int], glyph_entry@),
                    None => forall|q: int|
                        0 <= q < k ==> !same_identity(
                            #[trigger] self.ready_keys()[q],
                            glyph_entry@,
                        ),
                },
            decreases n - k,
        {
            if self.texture_handles[k].0.identity_eq(glyph_entry) {
                proof {
                    assert(same_identity(self.ready_keys()[k as int], glyph_entry@));
                }
                found = Some(k);
            }
            k = k + 1;
        }
        let ghost mid_keys = self.ready_keys();
        let ghost mid_vals = self.ready_vals();
        match found {
            Some(f) => {
                let ghost ff = f as int;
                self.texture_handles.remove(f);
                proof {
                    assert(self.ready_keys() =~= mid_keys.remove(ff));
                    assert(self.ready_vals() =~= mid_vals.remove(ff));
                    assert forall|q: int|
                        0 <= q < self.ready_keys().len() implies !same_identity(
                        #[trigger] self.ready_keys()[q],
                        glyph_entry@,
                    ) by {
                        if q < ff {
                            assert(self.ready_keys()[q] == mid_keys[q]);
                            assert(!same_identity(mid_keys[q], mid_keys[ff]));
                        } else {
                            assert(self.ready_keys()[q] == mid_keys[q + 1]);
                            assert(!same_identity(mid_keys[ff], mid_keys[q + 1]));
                        }
                    }
                    assert forall|a: int, b: int|
                        0 <= a < b < self.ready_keys().len() implies !same_identity(
                        #[trigger] self.ready_keys()[a],
                        #[trigger] self.ready_keys()[b],
                    ) by {
                        let a2: int = if a < ff {
                            a
                        } else {
                            a + 1
                        };
                        let b2: int = if b < ff {
                            b
                        } else {
                            b + 1
                        };
                        assert(self.ready_keys()[a] == mid_keys[a2]);
                        assert(self.ready_keys()[b] == mid_keys[b2]);
                    }
                    assert forall|id: GlyphEntryView|
                        !same_identity(id, glyph_entry@) implies (self.ready_for(id) <==> pre.ready_for(
                        id,
                    )) by {
                        if pre.ready_for(id) {
                            let q = choose|q: int|
                                0 <= q < pre.ready_keys().len() && same_identity(
                                    #[trigger] pre.ready_keys()[q],
                                    id,
                                );
                            if q < ff {
                                assert(self.ready_keys()[q] == mid_keys[q]);
                            } else if q > ff {
                                assert(self.ready_keys()[q - 1] == mid_keys[q]);
                            }
                        }
                        if self.ready_for(id) {
                            let q = choose|q: int|
                                0 <= q < self.ready_keys().len() && same_identity(
                                    #[trigger] self.ready_keys()[q],
                                    id,
                                );
                            if q < ff {
                                assert(pre.ready_keys()[q] == self.ready_keys()[q]);
                            } else {
                                assert(pre.ready_keys()[q + 1] == self.ready_keys()[q]);
                            }
                        }
                    }
                    assert forall|q: int|
                        0 <= q < self.ready_keys().len() implies exists|k2: int|
                        0 <= k2 < pre.ready_keys().len() && #[trigger] self.ready_keys()[q]
                            == pre.ready_keys()[k2] && self.ready_vals()[q] == pre.ready_vals()[k2] by {
                        if q < ff {
                            assert(self.ready_keys()[q] == pre.ready_keys()[q]
                                && self.ready_vals()[q] == pre.ready_vals()[q]);
                        } else {
                            assert(self.ready_keys()[q] == pre.ready_keys()[q + 1]
                                && self.ready_vals()[q] == pre.ready_vals()[q + 1]);
                        }
                    }
                }
            },
            None => {
                proof {
                    assert(!pre.ready_for(glyph_entry@));
                }
            },
        }
        let ghost mid = *self;
        proof {
            assert forall|a: int, b: int|
                0 <= a < b < mid.ready_keys().len() implies !same_identity(
                #[trigger] mid.ready_keys()[a],
                #[trigger] mid.ready_keys()[b],
            ) by {
                if found is None {
                    assert(mid.ready_keys()[a] == pre.ready_keys()[a]);
                    assert(mid.ready_keys()[b] == pre.ready_keys()[b]);
                } else {
                    assert(mid.ready_keys()[a] == self.ready_keys()[a]);
                    assert(mid.ready_keys()[b] == self.ready_keys()[b]);
                }
            }
            assert forall|k2: int| 0 <= k2 < mid.ready_keys().len() implies exists|j: int|
                0 <= j < pre.ready_keys().len() && #[trigger] mid.ready_keys()[k2]
                    == pre.ready_keys()[j] && mid.ready_vals()[k2] == pre.ready_vals()[j] by {
                if found is None {
                    assert(0 <= k2 < pre.ready_keys().len() && mid.ready_keys()[k2]
                        == pre.ready_keys()[k2] && mid.ready_vals()[k2] == pre.ready_vals()[k2]);
                } else {
                    assert(mid.ready_keys()[k2] == self.ready_keys()[k2]);
                    assert(mid.ready_vals()[k2] == self.ready_vals()[k2]);
                    let j = choose|j: int|
                        0 <= j < pre.ready_keys().len() && #[trigger] self.ready_keys()[k2]
                            == pre.ready_keys()[j] && self.ready_vals()[k2] == pre.ready_vals()[j];
                    assert(0 <= j < pre.ready_keys().len() && mid.ready_keys()[k2]
                        == pre.ready_keys()[j] && mid.ready_vals()[k2] == pre.ready_vals()[j]);
                }
            }
        }
        let mut queued_already = false;
        let qn = self.needs_rebuild.len();
        let mut q: usize = 0;
        while q < qn
            invariant
                *self == mid,
                qn == self.needs_rebuild@.len(),
                q <= qn,
                queued_already <==> exists|t: int|
                    0 <= t < q && same_identity(#[trigger] self.queue_view()[t], glyph_entry@),
            decreases qn - q,
        {
            if self.needs_rebuild[q].identity_eq(glyph_entry) {
                queued_already = true;
                proof {
                    assert(same_identity(self.queue_view()[q as int], glyph_entry@));
                }
            }
            q = q + 1;
        }
        if !queued_already {
            let ghost old_q = self.queue_view();
            self.needs_rebuild.push_front(glyph_entry.clone());
            proof {
                assert(self.queue_view() =~= seq![glyph_entry@] + old_q);
                assert(same_identity(self.queue_view()[0], glyph_entry@));
                assert(mid.queue_view() == pre.queue_view());
                assert forall|a: int, b: int|
                    0 <= a < b < self.queue_view().len() implies !same_identity(
                    #[trigger] self.queue_view()[a],
                    #[trigger] self.queue_view()[b],
                ) by {
                    if a == 0 {
                        assert(self.queue_view()[b] == old_q[b - 1]);
                        assert(old_q[b - 1] == pre.queue_view()[b - 1]);
                        assert(!mid.queued(glyph_entry@));
                    } else {
                        assert(self.queue_view()[a] == old_q[a - 1]);
                        assert(self.queue_view()[b] == old_q[b - 1]);
                        assert(old_q[a - 1] == pre.queue_view()[a - 1]);
                        assert(old_q[b - 1] == pre.queue_view()[b - 1]);
                    }
                }
                assert(self.ready_keys() == mid.ready_keys());
                assert(self.ready_vals() == mid.ready_vals());
                assert forall|a: int, b: int|
                    0 <= a < b < self.ready_keys().len() implies !same_identity(
                    #[trigger] self.ready_keys()[a],
                    #[trigger] self.ready_keys()[b],
                ) by {
                    assert(self.ready_keys()[a] == mid.ready_keys()[a]);
                    assert(self.ready_keys()[b] == mid.ready_keys()[b]);
                }
            match found {
                Some(f) => {
                    assert(same_identity(pre.ready_keys()[f as int], glyph_entry@));
                    assert(self.ready_keys() =~= pre.ready_keys().remove(f as int));
                    assert(self.ready_vals() =~= pre.ready_vals().remove(f as int));
                    assert(pre.ready_keys() == old(self).ready_keys());
                    assert(pre.ready_vals() == old(self).ready_vals());
                },
                None => {
                    assert(self.ready_keys() =~= pre.ready_keys());
                    assert(self.ready_vals() =~= pre.ready_vals());
                },
            }
                Self::lemma_wf_intro(*self);
            }
        } else {
            proof {
                assert(self.queued(glyph_entry@));
                assert(self.queue_view() == mid.queue_view());
                assert(mid.queue_view() == pre.queue_view());
                assert forall|a: int, b: int|
                    0 <= a < b < self.queue_view().len() implies !same_identity(
                    #[trigger] self.queue_view()[a],
                    #[trigger] self.queue_view()[b],
                ) by {
                    assert(self.queue_view()[a] == pre.queue_view()[a]);
                    assert(self.queue_view()[b] == pre.queue_view()[b]);
                }
                assert forall|a: int, b: int|
                    0 <= a < b < self.ready_keys().len() implies !same_identity(
                    #[trigger] self.ready_keys()[a],
                    #[trigger] self.ready_keys()[b],
                ) by {
                    assert(self.ready_keys()[a] == mid.ready_keys()[a]);
                    assert(self.ready_keys()[b] == mid.ready_keys()[b]);
                }
            match found {
                Some(f) => {
                    assert(same_identity(pre.ready_keys()[f as int], glyph_entry@));
                    assert(self.ready_keys() =~= pre.ready_keys().remove(f as int));
                    assert(self.ready_vals() =~= pre.ready_vals().remove(f as int));
                    assert(pre.ready_keys() == old(self).ready_keys());
                    assert(pre.ready_vals() == old(self).ready_vals());
                },
                None => {
                    assert(self.ready_keys() =~= pre.ready_keys());
                    assert(self.ready_vals() =~= pre.ready_vals());
                },
            }
                Self::lemma_wf_intro(*self);
            }
        }
    }

    /// Drops every rendered handle and queues every owning glyph for a
    /// rebuild, keeping whatever was queued already.
    #[verifier::loop_isolation(false)]
    #[verifier::rlimit(60)]
    pub fn force_rebuild_all(&mut self)
        requires
            old(self).wf(),
        ensures
            final(self).wf(),
            final(self).placeholder() == old(self).placeholder(),
            final(self).ready_keys().len() == 0,
            forall|id: GlyphEntryView|
                #[trigger] final(self).queued(id) <==> old(self).queued(id) || old(
                    self,
                ).ready_for(id),
    {
        let ghost pre = *self;
        loop
            invariant
                self.wf(),
                self.placeholder() == pre.placeholder(),
                forall|id: GlyphEntryView|
                    #![trigger self.queued(id)]
                    #![trigger self.ready_for(id)]
                    (self.queued(id) || self.ready_for(id)) ==> (pre.queued(id) || pre.ready_for(
                        id,
                    )),
                forall|id: GlyphEntryView|
                    #![trigger pre.queued(id)]
                    #![trigger pre.ready_for(id)]
                    (pre.queued(id) || pre.ready_for(id)) ==> (self.queued(id) || self.ready_for(
                        id,
                    )),
            decreases self.texture_handles@.len(),
        {
            if self.texture_handles.len() == 0 {
                proof {
                    assert forall|id: GlyphEntryView| !#[trigger] self.ready_for(id) by {
                        if self.ready_for(id) {
                            let q = choose|q: int|
                                0 <= q < self.ready_keys().len() && same_identity(
                                    #[trigger] self.ready_keys()[q],
                                    id,
                                );
                        }
                    }
                }
                return ;
            }
            let entry = self.texture_handles[self.texture_handles.len() - 1].0.clone();
            let ghost before = *self;
            self.invalidate(&entry);
            proof {
                assert(before.ready_for(entry@)) by {
                    assert(same_identity(
                        before.ready_keys()[before.ready_keys().len() - 1],
                        entry@,
                    ));
                }
                assert forall|id: GlyphEntryView|
                    ((#[trigger] self.queued(id)) || (#[trigger] self.ready_for(id))) <==> (
                pre.queued(id) || pre.ready_for(id)) by {
                    if same_identity(id, entry@) {
                        assert(self.queued(id)) by {
                            assert(same_identity(self.queue_view()[0], entry@) || before.queued(
                                entry@,
                            ));
                            if before.queued(entry@) {
                                let t = choose|t: int|
                                    0 <= t < before.queue_view().len() && same_identity(
                                        #[trigger] before.queue_view()[t],
                                        entry@,
                                    );
                                assert(same_identity(self.queue_view()[t], id));
                            } else {
                                assert(same_identity(self.queue_view()[0], id));
                            }
                        }
                        assert(before.ready_for(id));
                    } else {
                        assert(self.ready_for(id) <==> before.ready_for(id));
                        assert(self.queued(id) <==> before.queued(id)) by {
                            if before.queued(entry@) {
                                assert(self.queue_view() == before.queue_view());
                            } else {
                                assert(self.queue_view() =~= seq![entry@] + before.queue_view());
                                if self.queued(id) {
                                    let t = choose|t: int|
                                        0 <= t < self.queue_view().len() && same_identity(
                                            #[trigger] self.queue_view()[t],
                                            id,
                                        );
                                    assert(t != 0);
                                    assert(same_identity(before.queue_view()[t - 1], id));
                                }
                                if before.queued(id) {
                                    let t = choose|t: int|
                                        0 <= t < before.queue_view().len() && same_identity(
                                            #[trigger] before.queue_view()[t],
                                            id,
                                        );
                                    assert(same_identity(self.queue_view()[t + 1], id));
                                }
                            }
                        }
                    }
                }
            }
        }
    }

    /// Empties the rebuild queue without touching the rendered handles.
    pub fn clear_rebuild(&mut self)
        ensures
            final(self).placeholder() == old(self).placeholder(),
            final(self).ready_keys() == old(self).ready_keys(),
            final(self).ready_vals() == old(self).ready_vals(),
            final(self).queue_view().len() == 0,
            old(self).wf() ==> final(self).wf(),
    {
        self.needs_rebuild = VecDeque::new();
        proof {
            assert(self.queue_view() =~= Seq::<GlyphEntryView>::empty());
        }
    }
}

/// Whether the interpolation report flags the glyph name: an absent report
/// flags nothing.
pub fn is_flagged(interp_check: &Option<InterpolationCheckResults>, uniname: &String) -> (r: bool)
    ensures
        r <==> match interp_check {
            Some(results) => names_contain(results.combined@, uniname@),
            None => false,
        },
{
    match interp_check {
        Some(results) => crate::interpolation::contains_name(&results.combined, uniname),
        None => false,
    }
}

} // verus!
