//! Model of a glyph's outline data as the checker reads it: an ordered
//! sequence of contours, each a point count and an open/closed flag. The
//! outline may be absent, which every consumer treats as no contours.

use vstd::prelude::*;

verus! {

/// One contour of an outline: how many points it has and whether it is open.
#[derive(Debug, Clone, Copy, PartialEq, Eq, Structural)]
pub struct Contour {
    pub points: usize,
    pub is_open: bool,
}

/// A glyph outline as delivered by the glyph file loader: the glyph's name,
/// the file it came from, its advance width, and its contours (components
/// already resolved and flattened).
#[derive(Debug)]
pub struct Glif {
    pub name: String,
    pub filename: String,
    pub width: Option<u64>,
    pub outline: Option<Vec<Contour>>,
}

/// The mathematical value of a `Glif`. An absent outline reads as the empty
/// contour sequence, which is how every consumer treats it.
#[verifier::ext_equal]
pub struct GlifView {
    pub name: Seq<char>,
    pub filename: Seq<char>,
    pub width: Option<u64>,
    pub outline: Seq<Contour>,
}

impl View for Glif {
    type V = GlifView;

    open spec fn view(&self) -> GlifView {
        GlifView {
            name: self.name@,
            filename: self.filename@,
            width: self.width,
            outline: match self.outline {
                Some(v) => v@,
                None => Seq::empty(),
            },
        }
    }
}

impl Clone for Glif {
    fn clone(&self) -> (r: Self)
        ensures
            r@ == self@,
    {
        let outline: Option<Vec<Contour>> = match &self.outline {
            Some(v) => {
                let mut w: Vec<Contour> = Vec::new();
                let mut i: usize = 0;
                while i < v.len()
                    invariant
                        i <= v@.len(),
                        w@ =~= v@.subrange(0, i as int),
                    decreases v@.len() - i,
                {
                    w.push(v[i]);
                    i = i + 1;
                }
                proof {
                    assert(w@ =~= v@);
                }
                Some(w)
            },
            None => None,
        };
        let r = Glif {
            name: self.name.clone(),
            filename: self.filename.clone(),
            width: self.width,
            outline,
        };
        proof {
            assert(r@ =~= self@);
        }
        r
    }
}

} // verus!
