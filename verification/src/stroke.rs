//! Stroke capture: pointer-drag samples accumulate while the pointer is
//! down; on release the buffer is committed into an immutable path, each
//! sample corrected once by half the viewport offset, and the path is
//! associated with the tile whose cell contains its first sample.
use vstd::prelude::*;

use crate::units::V2;
use crate::{TILE_H, TILE_W, WORLD_LIMIT};

verus! {

/// The half-offset centering correction applied to one raw sample at commit
/// time: half the viewport offset is added on the x axis and subtracted on
/// the y axis. Applied exactly once, at commit; it is not idempotent.
pub open spec fn corrected_spec(p: V2, origin: V2) -> V2 {
    V2((p.0 + origin.0 / 2) as i64, (p.1 - origin.1 / 2) as i64)
}

/// The correction applied sample-wise to a whole gesture.
pub open spec fn corrected_seq(s: Seq<V2>, origin: V2) -> Seq<V2> {
    s.map_values(|p: V2| corrected_spec(p, origin))
}

/// A completed drag gesture: an ordered sequence of corrected samples,
/// immutable after commit, plus a memoization flag so its vertex expansion
/// is rebuilt only when marked dirty.
pub struct StrokePath {
    samples: Vec<V2>,
    needs_render: bool,
}

impl StrokePath {
    /// The recorded samples.
    pub closed spec fn samples_seq(self) -> Seq<V2> {
        self.samples@
    }

    /// Whether the vertex expansion must be rebuilt before the next draw.
    pub closed spec fn spec_needs_render(self) -> bool {
        self.needs_render
    }

    /// Number of recorded samples.
    pub fn len(&self) -> (n: usize)
        ensures
            n == self.samples_seq().len(),
    {
        self.samples.len()
    }

    /// The sample at position `i`.
    pub fn sample_at(&self, i: usize) -> (p: V2)
        requires
            i < self.samples_seq().len(),
        ensures
            p == self.samples_seq()[i as int],
    {
        self.samples[i]
    }

    /// Consume the memoization flag: reports whether the caller must rebuild
    /// the path's vertex data, and clears the flag so the rebuild happens
    /// only once per marking.
    pub fn take_needs_render(&mut self) -> (r: bool)
        ensures
            r == old(self).spec_needs_render(),
            !final(self).spec_needs_render(),
            final(self).samples_seq() == old(self).samples_seq(),
    {
        let r = self.needs_render;
        self.needs_render = false;
        r
    }

    /// Mark the path dirty so its vertex data is rebuilt on the next draw.
    pub fn mark_dirty(&mut self)
        ensures
            final(self).spec_needs_render(),
            final(self).samples_seq() == old(self).samples_seq(),
    {
        self.needs_render = true;
    }
}

/// The in-progress gesture: samples appended while the pointer is down.
pub struct StrokeBuffer {
    samples: Vec<V2>,
    active: bool,
}

impl StrokeBuffer {
    /// The samples collected so far.
    pub closed spec fn samples_seq(self) -> Seq<V2> {
        self.samples@
    }

    /// Whether a gesture is in progress.
    pub closed spec fn is_active(self) -> bool {
        self.active
    }

    /// All collected samples lie inside the supported world range.
    pub closed spec fn wf(self) -> bool {
        forall|i: int|
            0 <= i < self.samples@.len() ==> {
                &&& 0 <= (#[trigger] self.samples@[i]).0 <= WORLD_LIMIT
                &&& 0 <= self.samples@[i].1 <= WORLD_LIMIT
            }
    }

    /// An empty, inactive buffer.
    pub fn new() -> (b: StrokeBuffer)
        ensures
            b.wf(),
            !b.is_active(),
            b.samples_seq().len() == 0,
    {
        StrokeBuffer { samples: Vec::new(), active: false }
    }

    /// Start a gesture (pointer pressed). Samples already held are kept.
    pub fn begin_stroke(&mut self)
        ensures
            final(self).is_active(),
            final(self).samples_seq() == old(self).samples_seq(),
            final(self).wf() == old(self).wf(),
    {
        self.active = true;
    }

    /// Record one pointer sample of the in-progress gesture.
    pub fn add_sample(&mut self, p: V2)
        requires
            old(self).is_active(),
            0 <= p.0 <= WORLD_LIMIT,
            0 <= p.1 <= WORLD_LIMIT,
            old(self).wf(),
        ensures
            final(self).wf(),
            final(self).is_active(),
            final(self).samples_seq() == old(self).samples_seq().push(p),
    {
        self.samples.push(p);
    }

    /// Number of samples collected so far.
    pub fn sample_count(&self) -> (n: usize)
        ensures
            n == self.samples_seq().len(),
    {
        self.samples.len()
    }

    /// Finish the gesture (pointer released): the buffer is swapped for a
    /// fresh empty one, every sample is corrected exactly once by half the
    /// viewport offset, and the path is assigned to the grid cell holding
    /// the gesture's first sample in world space.
    pub fn commit_stroke(&mut self, origin: V2) -> (r: (StrokePath, usize, usize))
        requires
            old(self).wf(),
            old(self).is_active(),
            old(self).samples_seq().len() > 0,
            0 <= origin.0 <= WORLD_LIMIT,
            0 <= origin.1 <= WORLD_LIMIT,
        ensures
            final(self).wf(),
            !final(self).is_active(),
            final(self).samples_seq().len() == 0,
            r.0.samples_seq() == corrected_seq(old(self).samples_seq(), origin),
            r.0.spec_needs_render(),
            r.1 == (old(self).samples_seq()[0].1 + origin.1) / (TILE_H as int),
            r.2 == (old(self).samples_seq()[0].0 + origin.0) / (TILE_W as int),
    {
        let mut raw: Vec<V2> = Vec::new();
        core::mem::swap(&mut self.samples, &mut raw);
        self.active = false;

        let first = raw[0];
        let row = ((first.1 + origin.1) / TILE_H) as usize;
        let col = ((first.0 + origin.0) / TILE_W) as usize;

        let mut corrected: Vec<V2> = Vec::new();
        let mut i: usize = 0;
        while i < raw.len()
            invariant
                i <= raw@.len(),
                forall|j: int|
                    0 <= j < raw@.len() ==> {
                        &&& 0 <= (#[trigger] raw@[j]).0 <= WORLD_LIMIT
                        &&& 0 <= raw@[j].1 <= WORLD_LIMIT
                    },
                0 <= origin.0 <= WORLD_LIMIT,
                0 <= origin.1 <= WORLD_LIMIT,
                corrected@ =~= corrected_seq(raw@, origin).take(i as int),
            decreases raw@.len() - i,
        {
            let p = raw[i];
            corrected.push(V2(p.0 + origin.0 / 2, p.1 - origin.1 / 2));
            i = i + 1;
        }
        proof {
            assert(corrected@ =~= corrected_seq(raw@, origin));
        }
        (StrokePath { samples: corrected, needs_render: true }, row, col)
    }
}

} // verus!
