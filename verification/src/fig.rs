//! The figure: an ordered arena of transformed points partitioned into
//! sub-paths, with cyclic traversal in either direction.

use crate::geom::{clamp_coord_spec, wpt_ok, WeightedPoint2, MAX_COORD};
use crate::path::Direction;
use vstd::prelude::*;

verus! {

/// One contiguous run of points within a figure.
#[derive(Clone, Copy, PartialEq, Eq, Structural, Debug)]
pub struct SubPath {
    /// Index of the first point in the figure's arena.
    pub start: usize,
    /// Number of points; a descriptor exists only once a point was added.
    pub n: usize,
    /// Whether the run was terminated; only the newest run may be unclosed.
    pub closed: bool,
    /// Whether start and end are treated as geometrically connected, so that
    /// stroking adds no cap geometry between them.
    pub joined: bool,
}

/// An ordered collection of sub-paths over one flat point arena.
pub struct Figure {
    pub points: Vec<WeightedPoint2>,
    pub subs: Vec<SubPath>,
}

/// The descriptors tile the point arena in order, every point is storable,
/// and only the newest sub-path may still be unclosed.
pub open spec fn fig_wf(f: &Figure) -> bool {
    let subs = f.subs@;
    let pts = f.points@;
    &&& subs.len() == 0 ==> pts.len() == 0
    &&& subs.len() > 0 ==> subs[0].start == 0
    &&& subs.len() > 0 ==> subs.last().start + subs.last().n == pts.len()
    &&& forall|i: int|
        0 <= i < subs.len() - 1 ==> (#[trigger] subs[i]).start + subs[i].n == subs[i + 1].start
    &&& forall|i: int| 0 <= i < subs.len() ==> (#[trigger] subs[i]).n >= 1
    &&& forall|i: int| 0 <= i < subs.len() - 1 ==> (#[trigger] subs[i]).closed
    &&& forall|k: int| 0 <= k < pts.len() ==> wpt_ok(#[trigger] pts[k])
}

/// Storable image of an arbitrary weighted point.
pub open spec fn clamp_wpt_spec(p: WeightedPoint2) -> WeightedPoint2 {
    WeightedPoint2 {
        x: clamp_coord_spec(p.x as int) as i32,
        y: clamp_coord_spec(p.y as int) as i32,
        w: if p.w < 0 {
            0
        } else if p.w > MAX_COORD {
            MAX_COORD
        } else {
            p.w
        },
    }
}

pub open spec fn sub_contains(s: SubPath, v: int) -> bool {
    s.start <= v < s.start + s.n
}

/// The cyclic neighbour of vertex `v` within sub-path `s`.
pub open spec fn next_in_sub(s: SubPath, v: int, dir: Direction) -> int {
    match dir {
        Direction::Forward => if v == s.start + s.n - 1 {
            s.start as int
        } else {
            v + 1
        },
        Direction::Reverse => if v == s.start {
            s.start + s.n - 1
        } else {
            v - 1
        },
    }
}

impl Figure {
    /// An empty figure.
    pub fn new() -> (f: Figure)
        ensures
            fig_wf(&f),
            f.points@.len() == 0,
            f.subs@.len() == 0,
    {
        Figure { points: Vec::new(), subs: Vec::new() }
    }

    /// Discard all sub-paths and points.
    pub fn reset(&mut self)
        ensures
            fig_wf(&*final(self)),
            final(self).points@.len() == 0,
            final(self).subs@.len() == 0,
    {
        self.points = Vec::new();
        self.subs = Vec::new();
    }

    /// Append a point to the current sub-path, clamped to storable range;
    /// a fresh sub-path begins if the last one was closed.
    pub fn add_point(&mut self, p: WeightedPoint2)
        requires
            fig_wf(old(self)),
        ensures
            fig_wf(&*final(self)),
            final(self).points@ == old(self).points@.push(clamp_wpt_spec(p)),
            old(self).subs@.len() > 0 && !old(self).subs@.last().closed ==> final(self).subs@
                == old(self).subs@.update(
                old(self).subs@.len() - 1,
                SubPath {
                    n: (old(self).subs@.last().n + 1) as usize,
                    ..old(self).subs@.last()
                },
            ),
            !(old(self).subs@.len() > 0 && !old(self).subs@.last().closed) ==> final(self).subs@
                == old(self).subs@.push(
                SubPath { start: old(self).points@.len() as usize, n: 1, closed: false, joined: false },
            ),
    {
        let q = WeightedPoint2 {
            x: crate::geom::clamp_coord(p.x as i64),
            y: crate::geom::clamp_coord(p.y as i64),
            w: if p.w < 0 {
                0i32
            } else if p.w > MAX_COORD {
                MAX_COORD
            } else {
                p.w
            },
        };
        let nsubs = self.subs.len();
        if nsubs > 0 && !self.subs[nsubs - 1].closed {
            let last = self.subs[nsubs - 1];
            proof {
                assert(last.start + last.n == self.points@.len());
            }
            self.points.push(q);
            let plen = self.points.len();
            proof {
                assert(last.n + 1 <= plen);
            }
            self.subs.set(nsubs - 1, SubPath { n: last.n + 1, ..last });
        } else {
            self.subs.push(
                SubPath { start: self.points.len(), n: 1, closed: false, joined: false },
            );
            self.points.push(q);
        }
    }

    /// Terminate the current sub-path, recording whether its ends join;
    /// does nothing when no sub-path is in progress.
    pub fn close(&mut self, joined: bool)
        requires
            fig_wf(old(self)),
        ensures
            fig_wf(&*final(self)),
            final(self).points@ == old(self).points@,
            old(self).subs@.len() > 0 && !old(self).subs@.last().closed ==> final(self).subs@
                == old(self).subs@.update(
                old(self).subs@.len() - 1,
                SubPath { closed: true, joined, ..old(self).subs@.last() },
            ),
            !(old(self).subs@.len() > 0 && !old(self).subs@.last().closed) ==> final(self).subs@
                == old(self).subs@,
    {
        let nsubs = self.subs.len();
        if nsubs > 0 && !self.subs[nsubs - 1].closed {
            let last = self.subs[nsubs - 1];
            self.subs.set(nsubs - 1, SubPath { closed: true, joined, ..last });
        }
    }

    /// Number of sub-paths, the one in progress included.
    pub fn sub_count(&self) -> (n: usize)
        ensures
            n == self.subs@.len(),
    {
        self.subs.len()
    }

    /// Number of points of sub-path `i`.
    pub fn sub_points(&self, i: usize) -> (n: usize)
        requires
            i < self.subs@.len(),
        ensures
            n == self.subs@[i as int].n,
    {
        self.subs[i].n
    }

    /// Vertex id of the first point of sub-path `i`.
    pub fn sub_start(&self, i: usize) -> (v: usize)
        requires
            i < self.subs@.len(),
        ensures
            v == self.subs@[i as int].start,
    {
        self.subs[i].start
    }

    /// Vertex id of the last point of sub-path `i`.
    pub fn sub_end(&self, i: usize) -> (v: usize)
        requires
            fig_wf(self),
            i < self.subs@.len(),
        ensures
            v as int == self.subs@[i as int].start + self.subs@[i as int].n - 1,
    {
        let plen = self.points.len();
        proof {
            lemma_sub_in_arena(self, i as int);
            assert(self.subs@[i as int].start + self.subs@[i as int].n <= plen);
        }
        self.subs[i].start + (self.subs[i].n - 1)
    }

    /// Whether sub-path `i` is cyclically connected for stroking.
    pub fn sub_joined(&self, i: usize) -> (j: bool)
        requires
            i < self.subs@.len(),
        ensures
            j == self.subs@[i as int].joined,
    {
        self.subs[i].joined
    }

    /// The point stored under vertex id `v`.
    pub fn get_point(&self, v: usize) -> (p: WeightedPoint2)
        requires
            v < self.points@.len(),
        ensures
            p == self.points@[v as int],
    {
        self.points[v]
    }

    /// The cyclic neighbour of vertex `v` in the sub-path that holds it.
    pub fn next(&self, v: usize, dir: Direction) -> (r: usize)
        requires
            fig_wf(self),
            v < self.points@.len(),
        ensures
            forall|i: int|
                0 <= i < self.subs@.len() && sub_contains(#[trigger] self.subs@[i], v as int)
                    ==> r as int == next_in_sub(self.subs@[i], v as int, dir),
            r < self.points@.len(),
    {
        let nsubs = self.subs.len();
        let mut i: usize = 0;
        loop
            invariant
                fig_wf(self),
                v < self.points@.len(),
                i <= nsubs,
                nsubs == self.subs@.len(),
                forall|j: int|
                    0 <= j < i as int ==> v as int >= (#[trigger] self.subs@[j]).start
                        + self.subs@[j].n,
            decreases nsubs - i,
        {
            if i >= nsubs {
                proof {
                    assert(self.subs@.len() > 0);
                    assert(v as int >= self.subs@[nsubs as int - 1].start + self.subs@[nsubs as int
                        - 1].n);
                    assert(false);
                }
                return 0;
            }
            let s = self.subs[i];
            let plen = self.points.len();
            proof {
                lemma_sub_in_arena(self, i as int);
                assert(s.start + s.n <= plen);
            }
            if v < s.start + s.n {
                proof {
                    if v < s.start {
                        if i == 0 {
                            assert(false);
                        } else {
                            assert(v as int >= self.subs@[i as int - 1].start + self.subs@[i as int
                                - 1].n);
                            assert(self.subs@[i as int - 1].start + self.subs@[i as int - 1].n
                                == s.start);
                            assert(false);
                        }
                    }
                    lemma_subs_disjoint(self, i as int, v as int);
                }
                let r: usize = match dir {
                    Direction::Forward => {
                        if v == s.start + s.n - 1 {
                            s.start
                        } else {
                            v + 1
                        }
                    },
                    Direction::Reverse => {
                        if v == s.start {
                            s.start + s.n - 1
                        } else {
                            v - 1
                        }
                    },
                };
                return r;
            }
            i = i + 1;
        }
    }
}

/// Every descriptor's run lies inside the point arena.
pub proof fn lemma_sub_in_arena(f: &Figure, i: int)
    requires
        fig_wf(f),
        0 <= i < f.subs@.len(),
    ensures
        f.subs@[i].start + f.subs@[i].n <= f.points@.len(),
        f.subs@[i].start + f.subs@[i].n >= 1,
    decreases f.subs@.len() - i,
{
    if i == f.subs@.len() - 1 {
    } else {
        lemma_sub_in_arena(f, i + 1);
        assert(f.subs@[i].start + f.subs@[i].n == f.subs@[i + 1].start);
    }
}

/// A vertex inside one sub-path's run is outside every other's.
pub proof fn lemma_subs_disjoint(f: &Figure, i: int, v: int)
    requires
        fig_wf(f),
        0 <= i < f.subs@.len(),
        sub_contains(f.subs@[i], v),
    ensures
        forall|j: int|
            0 <= j < f.subs@.len() && j != i ==> !sub_contains(#[trigger] f.subs@[j], v),
{
    assert forall|j: int|
        0 <= j < f.subs@.len() && j != i implies !sub_contains(#[trigger] f.subs@[j], v) by {
        if j < i {
            lemma_starts_ordered(f, j, i);
        } else {
            lemma_starts_ordered(f, i, j);
        }
    }
}

/// Descriptor runs are in increasing order of start.
pub proof fn lemma_starts_ordered(f: &Figure, i: int, j: int)
    requires
        fig_wf(f),
        0 <= i < j < f.subs@.len(),
    ensures
        f.subs@[i].start + f.subs@[i].n <= f.subs@[j].start,
    decreases j - i,
{
    if j == i + 1 {
        assert(f.subs@[i].start + f.subs@[i].n == f.subs@[j].start);
    } else {
        lemma_starts_ordered(f, i, j - 1);
        lemma_starts_ordered(f, j - 1, j);
    }
}

} // verus!
