use vstd::prelude::*;
use crate::edge::Index;
use crate::grid::MAX_SIDE;

verus! {

/// A sub-cube still being sampled: its lowest corner, half its side, and
/// the next of its eight corners to visit.
#[derive(Clone, Copy, Debug, PartialEq, Eq, Structural)]
pub struct SubCube {
    pub origin: Index,
    pub half: usize,
    pub next: usize,
}

/// Corner `c` (bit 0: +x, bit 1: +y, bit 2: +z) of the half-size sub-cube
/// grid of `f`: `f.origin` moved `f.half` along each axis whose bit is set.
pub open spec fn sub_corner(f: SubCube, c: nat) -> Index {
    Index {
        x: (f.origin.x + if c % 2 == 1 { f.half as int } else { 0 }) as usize,
        y: (f.origin.y + if (c / 2) % 2 == 1 { f.half as int } else { 0 }) as usize,
        z: (f.origin.z + if c / 4 == 1 { f.half as int } else { 0 }) as usize,
    }
}

/// The frames left once finished sub-cubes are dropped from the top.
pub open spec fn unwound(frames: Seq<SubCube>) -> Seq<SubCube>
    decreases frames.len(),
{
    if frames.len() > 0 && frames.last().next >= 8 {
        unwound(frames.drop_last())
    } else {
        frames
    }
}

/// Whether sub-cube `f` lies in a grid of `side` corners per axis.
pub open spec fn fits(f: SubCube, side: nat) -> bool {
    &&& f.half >= 1
    &&& f.next <= 8
    &&& f.origin.x + 2 * f.half <= side
    &&& f.origin.y + 2 * f.half <= side
    &&& f.origin.z + 2 * f.half <= side
}

/// The adaptive descent of the sampler over a cube of `side` corners per
/// axis. Each sub-cube is split in eight; for each corner of the split the
/// caller tells whether the field there is near enough to the surface for
/// the sub-cube at that corner to be split in turn, else the value at the
/// corner is recorded.
pub struct SampleWalk {
    frames: Vec<SubCube>,
    last: Option<(Index, usize)>,
    side: usize,
}

impl SampleWalk {
    /// The sub-cubes being sampled, outermost first.
    pub closed spec fn frames(&self) -> Seq<SubCube> {
        self.frames@
    }

    /// The corner handed out last and its sub-cube's side, until it is settled.
    pub closed spec fn last(&self) -> Option<(Index, usize)> {
        self.last
    }

    pub closed spec fn side_spec(&self) -> nat {
        self.side as nat
    }

    pub closed spec fn wf(&self) -> bool {
        &&& self.side <= MAX_SIDE
        &&& forall|k: int| 0 <= k < self.frames@.len() ==> fits(#[trigger] self.frames@[k], self.side as nat)
        &&& match self.last {
            Some((i, s)) => {
                &&& s >= 1
                &&& i.x + s <= self.side
                &&& i.y + s <= self.side
                &&& i.z + s <= self.side
            },
            None => true,
        }
    }

    /// The walk over the whole cube of `side` corners per axis.
    pub fn start(side: usize) -> (r: SampleWalk)
        requires
            2 <= side <= MAX_SIDE,
        ensures
            r.wf(),
            r.side_spec() == side,
            r.last() is None,
            r.frames() == seq![SubCube { origin: Index { x: 0, y: 0, z: 0 }, half: side / 2, next: 0 }],
    {
        let mut frames: Vec<SubCube> = Vec::new();
        frames.push(SubCube { origin: Index { x: 0, y: 0, z: 0 }, half: side / 2, next: 0 });
        SampleWalk { frames, last: None, side }
    }

    /// The next corner to sample and the side of the sub-cube it starts, or
    /// `None` when the whole cube is done.
    pub fn next_corner(&mut self) -> (r: Option<(Index, usize)>)
        requires
            old(self).wf(),
            old(self).last() is None,
        ensures
            final(self).wf(),
            final(self).side_spec() == old(self).side_spec(),
            match r {
                None => unwound(old(self).frames()).len() == 0 && final(self).frames().len() == 0
                    && final(self).last() is None,
                Some((i, s)) => {
                    let u = unwound(old(self).frames());
                    let top = u.last();
                    &&& u.len() > 0
                    &&& i == sub_corner(top, top.next as nat)
                    &&& s == top.half
                    &&& i.x < old(self).side_spec() && i.y < old(self).side_spec() && i.z
                        < old(self).side_spec()
                    &&& final(self).frames() == u.drop_last().push(SubCube { next: (top.next + 1) as usize, ..top })
                    &&& final(self).last() == Some((i, s))
                },
            },
    {
        while self.frames.len() > 0 && self.frames[self.frames.len() - 1].next >= 8
            invariant
                self.wf(),
                self.last is None,
                self.side == old(self).side,
                unwound(self.frames@) == unwound(old(self).frames@),
            decreases self.frames@.len(),
        {
            self.frames.pop();
        }
        if self.frames.len() == 0 {
            return None;
        }
        let k = self.frames.len() - 1;
        let top = self.frames[k];
        assert(fits(self.frames@[k as int], self.side as nat));
        let c = top.next;
        let i = Index {
            x: top.origin.x + if c % 2 == 1 { top.half } else { 0 },
            y: top.origin.y + if (c / 2) % 2 == 1 { top.half } else { 0 },
            z: top.origin.z + if c / 4 == 1 { top.half } else { 0 },
        };
        self.frames.set(k, SubCube { next: c + 1, ..top });
        self.last = Some((i, top.half));
        proof {
            assert(self.frames@ =~= unwound(old(self).frames@).drop_last().push(
                SubCube { next: (top.next + 1) as usize, ..top },
            ));
        }
        Some((i, top.half))
    }

    /// Settles the corner handed out last: where the field there is `near`
    /// the surface and its sub-cube can still be split, the sub-cube is
    /// walked next and `false` comes back; otherwise `true`: record the value
    /// at that corner.
    pub fn settle(&mut self, near: bool) -> (r: bool)
        requires
            old(self).wf(),
            old(self).last() is Some,
        ensures
            final(self).wf(),
            final(self).side_spec() == old(self).side_spec(),
            final(self).last() is None,
            ({
                let (i, s) = old(self).last()->0;
                &&& r == !(near && s > 1)
                &&& r ==> final(self).frames() == old(self).frames()
                &&& !r ==> final(self).frames() == old(self).frames().push(
                    SubCube { origin: i, half: s / 2, next: 0 },
                )
            }),
    {
        let (i, s) = self.last.unwrap();
        self.last = None;
        if near && s > 1 {
            self.frames.push(SubCube { origin: i, half: s / 2, next: 0 });
            proof {
                assert forall|k: int| 0 <= k < self.frames@.len() implies fits(
                    #[trigger] self.frames@[k],
                    self.side as nat,
                ) by {
                    if k < self.frames@.len() - 1 {
                        assert(self.frames@[k] == old(self).frames@[k]);
                    }
                }
            }
            false
        } else {
            true
        }
    }
}

} // verus!
