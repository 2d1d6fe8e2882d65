use vstd::prelude::*;
use std::collections::HashMap;
use crate::edge::{Edge, EdgeIndex, Index, edge_of};
use crate::bitset::BitSet;
use vstd::arithmetic::div_mod::lemma_fundamental_div_mod_converse;

verus! {

broadcast use vstd::std_specs::hash::group_hash_axioms;

/// The largest number of corners a grid may have along one axis: three
/// coordinates below it pack into one `u64` key.
pub const MAX_SIDE: usize = 2097152;

/// The base of the packed key of a corner.
pub const KEY_BASE: u64 = 2097152;

/// `2` to the power `n`.
pub open spec fn two_to(n: nat) -> nat
    decreases n,
{
    if n == 0 {
        1
    } else {
        2 * two_to((n - 1) as nat)
    }
}

/// The smallest power of two that is at least `x`.
pub fn pow2roundup(x: usize) -> (r: usize)
    requires
        1 <= x <= usize::MAX / 2 + 1,
    ensures
        exists|k: nat| r == #[trigger] two_to(k) && (k == 0 || two_to((k - 1) as nat) < x),
        r >= x,
{
    let mut p: usize = 1;
    let ghost mut k: nat = 0;
    while p < x
        invariant
            1 <= x <= usize::MAX / 2 + 1,
            p >= 1,
            p == two_to(k),
            k == 0 || two_to((k - 1) as nat) < x,
        decreases usize::MAX - p,
    {
        p = p * 2;
        proof {
            k = k + 1;
        }
    }
    p
}

/// The cell of a corner along `axis`: `i` moved one step up that axis.
pub open spec fn step(i: Index, axis: nat) -> Index {
    if axis == 0 {
        Index { x: (i.x + 1) as usize, ..i }
    } else if axis == 1 {
        Index { y: (i.y + 1) as usize, ..i }
    } else {
        Index { z: (i.z + 1) as usize, ..i }
    }
}

/// Corner `c` (bit 0: +x, bit 1: +y, bit 2: +z) of the cell at `i`.
pub open spec fn corner(i: Index, c: nat) -> Index {
    Index {
        x: (i.x + c % 2) as usize,
        y: (i.y + (c / 2) % 2) as usize,
        z: (i.z + c / 4) as usize,
    }
}

/// The sign of the field sampled at the corners of a cubic grid: for each
/// corner, unknown, non-negative or negative. No sample is exactly zero.
/// Only the sampled corners are stored, keyed by their packed index, and
/// listed in the order they were first sampled.
pub struct SignGrid {
    side: usize,
    cells: HashMap<u64, bool>,
    order: Vec<Index>,
}

proof fn lemma_slot_bound(s: int, x: int, y: int, z: int)
    requires
        0 <= x < s,
        0 <= y < s,
        0 <= z < s,
        s <= MAX_SIDE,
    ensures
        s * s <= MAX_SIDE * MAX_SIDE,
        0 <= s * z < s * s,
        0 <= y + s * z < s * s,
        0 <= s * (y + s * z) < s * s * s,
        0 <= x + s * (y + s * z) < s * s * s,
        s * s * s <= MAX_SIDE * MAX_SIDE * MAX_SIDE,
{
    assert(0 <= s * z <= s * s - s) by (nonlinear_arith)
        requires
            0 <= z < s,
    ;
    assert(s * s <= MAX_SIDE * MAX_SIDE) by (nonlinear_arith)
        requires
            0 < s <= MAX_SIDE,
    ;
    assert(0 <= s * (y + s * z) <= s * (s * s - 1)) by (nonlinear_arith)
        requires
            0 <= y + s * z < s * s,
            0 < s,
    ;
    assert(s * (s * s - 1) == s * s * s - s) by (nonlinear_arith);
    assert(s * s * s <= MAX_SIDE * MAX_SIDE * MAX_SIDE) by (nonlinear_arith)
        requires
            0 < s <= MAX_SIDE,
    ;
}

proof fn lemma_slot_unique(s: int, a: Index, b: Index)
    requires
        a.x < s,
        a.y < s,
        a.z < s,
        b.x < s,
        b.y < s,
        b.z < s,
        a.x + s * (a.y + s * a.z) == b.x + s * (b.y + s * b.z),
    ensures
        a == b,
{
    let la = a.x + s * (a.y + s * a.z);
    assert(la == (a.y + s * a.z) * s + a.x) by (nonlinear_arith)
        requires
            la == a.x + s * (a.y + s * a.z),
    ;
    assert(la == (b.y + s * b.z) * s + b.x) by (nonlinear_arith)
        requires
            la == b.x + s * (b.y + s * b.z),
    ;
    assert(0 <= a.y + s * a.z);
    lemma_fundamental_div_mod_converse(la, s, a.y + s * a.z, a.x as int);
    lemma_fundamental_div_mod_converse(la, s, b.y + s * b.z, b.x as int);
    let m = a.y + s * a.z;
    assert(m == a.z * s + a.y) by (nonlinear_arith)
        requires
            m == a.y + s * a.z,
    ;
    assert(m == b.z * s + b.y) by (nonlinear_arith)
        requires
            m == b.y + s * b.z,
    ;
    lemma_fundamental_div_mod_converse(m, s, a.z as int, a.y as int);
    lemma_fundamental_div_mod_converse(m, s, b.z as int, b.y as int);
}

/// The packed key of corner `i`.
pub open spec fn key_of(i: Index) -> int {
    i.x + KEY_BASE * (i.y + KEY_BASE * i.z)
}

impl SignGrid {
    /// Number of corners along each axis.
    pub closed spec fn side_spec(&self) -> nat {
        self.side as nat
    }

    pub closed spec fn wf(&self) -> bool {
        &&& 1 <= self.side <= MAX_SIDE
        &&& self.order@.no_duplicates()
        &&& forall|k: int|
            0 <= k < self.order@.len() ==> self.in_range(#[trigger] self.order@[k])
                && self.cells@.contains_key(key_of(self.order@[k]) as u64)
        &&& forall|i: Index|
            self.in_range(i) && #[trigger] self.cells@.contains_key(key_of(i) as u64) ==> self.order@.contains(i)
    }

    /// The sampled corners, in the order they were first sampled.
    pub closed spec fn sampled(&self) -> Seq<Index> {
        self.order@
    }

    /// Whether `i` is a corner of the grid.
    pub open spec fn in_range(&self, i: Index) -> bool {
        i.x < self.side_spec() && i.y < self.side_spec() && i.z < self.side_spec()
    }

    /// The sign sampled at `i`: `Some(true)` where negative, `Some(false)`
    /// where positive, `None` where not sampled.
    pub closed spec fn sign_at(&self, i: Index) -> Option<bool> {
        if self.in_range(i) && self.cells@.contains_key(key_of(i) as u64) {
            Some(self.cells@[key_of(i) as u64])
        } else {
            None
        }
    }

    /// A grid of `side` corners per axis with no sample yet.
    pub fn new(side: usize) -> (r: SignGrid)
        requires
            1 <= side <= MAX_SIDE,
        ensures
            r.wf(),
            r.side_spec() == side,
            r.sampled() == Seq::<Index>::empty(),
            forall|i: Index| r.sign_at(i) == None::<bool>,
    {
        SignGrid { side, cells: HashMap::new(), order: Vec::new() }
    }

    /// Number of corners along each axis.
    pub fn side(&self) -> (r: usize)
        ensures
            r == self.side_spec(),
    {
        self.side
    }

    fn key(&self, i: Index) -> (r: u64)
        requires
            self.wf(),
            self.in_range(i),
        ensures
            r == key_of(i),
    {
        proof {
            lemma_slot_bound(KEY_BASE as int, i.x as int, i.y as int, i.z as int);
        }
        (i.x as u64) + KEY_BASE * ((i.y as u64) + KEY_BASE * (i.z as u64))
    }

    /// The sign sampled at `i`, if any.
    pub fn get(&self, i: Index) -> (r: Option<bool>)
        requires
            self.wf(),
        ensures
            r == self.sign_at(i),
    {
        if i.x < self.side && i.y < self.side && i.z < self.side {
            let k = self.key(i);
            match self.cells.get(&k) {
                Some(v) => Some(*v),
                None => None,
            }
        } else {
            None
        }
    }

    /// Records the sign sampled at corner `i`.
    pub fn insert(&mut self, i: Index, negative: bool)
        requires
            old(self).wf(),
            old(self).in_range(i),
        ensures
            final(self).wf(),
            final(self).side_spec() == old(self).side_spec(),
            final(self).sign_at(i) == Some(negative),
            forall|j: Index| j != i ==> final(self).sign_at(j) == old(self).sign_at(j),
            final(self).sampled() == (if old(self).sign_at(i) is Some {
                old(self).sampled()
            } else {
                old(self).sampled().push(i)
            }),
    {
        let k = self.key(i);
        let ghost before = *self;
        let fresh = !self.cells.contains_key(&k);
        self.cells.insert(k, negative);
        if fresh {
            proof {
                if before.order@.contains(i) {
                    let w = choose|w: int| 0 <= w < before.order@.len() && before.order@[w] == i;
                    assert(before.cells@.contains_key(key_of(before.order@[w]) as u64));
                }
            }
            self.order.push(i);
        }
        proof {
            assert forall|j: Index| self.in_range(j) && j != i implies key_of(j) != key_of(i) by {
                lemma_slot_bound(KEY_BASE as int, j.x as int, j.y as int, j.z as int);
                if key_of(j) == key_of(i) {
                    lemma_slot_unique(KEY_BASE as int, i, j);
                }
            }
            lemma_slot_bound(KEY_BASE as int, i.x as int, i.y as int, i.z as int);
            assert forall|j: Index| j != i implies self.sign_at(j) == before.sign_at(j) by {
                if self.in_range(j) {
                    lemma_slot_bound(KEY_BASE as int, j.x as int, j.y as int, j.z as int);
                    assert(key_of(j) as u64 != key_of(i) as u64);
                }
            }
            assert forall|m: int|
                0 <= m < self.order@.len() implies self.in_range(#[trigger] self.order@[m])
                && self.cells@.contains_key(key_of(self.order@[m]) as u64) by {
                if m < before.order@.len() {
                    assert(self.order@[m] == before.order@[m]);
                }
            }
            assert forall|j: Index|
                self.in_range(j) && #[trigger] self.cells@.contains_key(key_of(j) as u64) implies self.order@.contains(j) by {
                if j == i {
                    if fresh {
                        assert(self.order@[self.order@.len() - 1] == i);
                    }
                } else {
                    lemma_slot_bound(KEY_BASE as int, j.x as int, j.y as int, j.z as int);
                    assert(key_of(j) as u64 != key_of(i) as u64);
                    assert(before.order@.contains(j));
                    let w = choose|w: int| 0 <= w < before.order@.len() && before.order@[w] == j;
                    assert(self.order@[w] == j);
                }
            }
            if fresh {
                assert forall|x: int, y: int| 0 <= x < y < self.order@.len() implies self.order@[x] != self.order@[y] by {
                    if y == self.order@.len() - 1 {
                        assert(before.cells@.contains_key(key_of(before.order@[x]) as u64));
                    }
                }
            }
        }
    }
}

/// Whether the edge from `i` one step along `axis` has both ends sampled,
/// with opposite signs.
pub open spec fn is_crossing(g: SignGrid, i: Index, axis: nat) -> bool {
    &&& g.sign_at(i) is Some
    &&& g.sign_at(step(i, axis)) is Some
    &&& g.sign_at(i) != g.sign_at(step(i, axis))
}

/// Whether all eight corners of the cell at `i` are sampled.
pub open spec fn cell_known(g: SignGrid, i: Index) -> bool {
    &&& i.x + 1 < g.side_spec()
    &&& i.y + 1 < g.side_spec()
    &&& i.z + 1 < g.side_spec()
    &&& forall|c: nat| c < 8 ==> (#[trigger] g.sign_at(corner(i, c))) is Some
}

/// The sign pattern of the first `n` corners of the cell at `i`: bit `c` is
/// set iff corner `c` is negative.
pub open spec fn sign_bits(g: SignGrid, i: Index, n: nat) -> nat
    decreases n,
{
    if n == 0 {
        0
    } else {
        sign_bits(g, i, (n - 1) as nat) + if g.sign_at(corner(i, (n - 1) as nat)) == Some(true) {
            two_to((n - 1) as nat)
        } else {
            0
        }
    }
}

proof fn lemma_sign_bits_bound(g: SignGrid, i: Index, n: nat)
    ensures
        sign_bits(g, i, n) < two_to(n),
    decreases n,
{
    if n > 0 {
        lemma_sign_bits_bound(g, i, (n - 1) as nat);
    }
}

/// The sign pattern of the cell at `i` (bit `c` set iff corner `c` is
/// negative), or `None` where a corner is not sampled.
pub fn cell_bits(g: &SignGrid, i: Index) -> (r: Option<BitSet>)
    requires
        g.wf(),
    ensures
        r == (if cell_known(*g, i) {
            Some(BitSet { bits: sign_bits(*g, i, 8) as u32 })
        } else {
            None
        }),
        sign_bits(*g, i, 8) < 256,
{
    proof {
        lemma_sign_bits_bound(*g, i, 8);
        reveal_with_fuel(two_to, 9);
    }
    let side = g.side();
    if !(i.x < side - 1 && i.y < side - 1 && i.z < side - 1) {
        return None;
    }
    let mut bits: u32 = 0;
    let mut w: u32 = 1;
    let mut c: usize = 0;
    while c < 8
        invariant
            g.wf(),
            side == g.side_spec(),
            i.x + 1 < side,
            i.y + 1 < side,
            i.z + 1 < side,
            c <= 8,
            sign_bits(*g, i, 8) < 256,
            bits == sign_bits(*g, i, c as nat),
            w == two_to(c as nat),
            forall|d: nat| d < c ==> (#[trigger] g.sign_at(corner(i, d))) is Some,
        decreases 8 - c,
    {
        proof {
            lemma_sign_bits_bound(*g, i, c as nat);
            assert(two_to(c as nat) <= 128) by {
                reveal_with_fuel(two_to, 8);
            }
        }
        let k = Index { x: i.x + c % 2, y: i.y + (c / 2) % 2, z: i.z + c / 4 };
        assert(k == corner(i, c as nat));
        match g.get(k) {
            None => {
                return None;
            },
            Some(negative) => {
                if negative {
                    bits = bits + w;
                }
            },
        }
        w = w * 2;
        c = c + 1;
    }
    proof {
        lemma_sign_bits_bound(*g, i, 8);
        reveal_with_fuel(two_to, 9);
    }
    Some(BitSet { bits })
}

/// The sign pattern of the cell at `i`, all of whose corners are sampled:
/// bit `c` is set iff corner `c` is negative.
pub fn bitset_for_cell(g: &SignGrid, i: Index) -> (r: BitSet)
    requires
        g.wf(),
        cell_known(*g, i),
    ensures
        r == (BitSet { bits: sign_bits(*g, i, 8) as u32 }),
        sign_bits(*g, i, 8) < 256,
{
    match cell_bits(g, i) {
        Some(b) => b,
        None => BitSet::zero(),
    }
}

/// The crossings at corner `i`, appended to `out`.
fn push_crossings_at(g: &SignGrid, i: Index, out: &mut Vec<EdgeIndex>)
    requires
        g.wf(),
        g.in_range(i),
    ensures
        final(out)@.len() >= old(out)@.len(),
        forall|k: int| 0 <= k < old(out)@.len() ==> final(out)@[k] == old(out)@[k],
        forall|k: int|
            old(out)@.len() <= k < final(out)@.len() ==> {
                let e = #[trigger] final(out)@[k];
                &&& e.index == i
                &&& e.edge.num() < 3
                &&& is_crossing(*g, e.index, e.edge.num())
            },
        forall|a: nat|
            a < 3 && is_crossing(*g, i, a) ==> final(out)@.contains(
                EdgeIndex { edge: edge_of(a), index: i },
            ),
        old(out)@.no_duplicates() && (forall|k: int| 0 <= k < old(out)@.len() ==> (#[trigger] old(out)@[k]).index != i)
            ==> final(out)@.no_duplicates(),
{
    let here = g.get(i);
    let mut a: usize = 0;
    let ghost start = out@;
    while a < 3
        invariant
            g.wf(),
            g.in_range(i),
            here == g.sign_at(i),
            a <= 3,
            out@.len() >= start.len(),
            forall|k: int| 0 <= k < start.len() ==> out@[k] == start[k],
            forall|k: int|
                start.len() <= k < out@.len() ==> {
                    let e = #[trigger] out@[k];
                    &&& e.index == i
                    &&& e.edge.num() < 3
                    &&& is_crossing(*g, e.index, e.edge.num())
                },
            forall|b: nat|
                b < a && is_crossing(*g, i, b) ==> out@.contains(
                    EdgeIndex { edge: edge_of(b), index: i },
                ),
            forall|k: int| start.len() <= k < out@.len() ==> (#[trigger] out@[k]).edge.num() < a,
            start.no_duplicates() && (forall|k: int| 0 <= k < start.len() ==> (#[trigger] start[k]).index != i)
                ==> out@.no_duplicates(),
        decreases 3 - a,
    {
        let next = if a == 0 {
            Index { x: i.x + 1, ..i }
        } else if a == 1 {
            Index { y: i.y + 1, ..i }
        } else {
            Index { z: i.z + 1, ..i }
        };
        assert(next == step(i, a as nat));
        let there = g.get(next);
        let ghost prev = out@;
        if here.is_some() && there.is_some() && here != there {
            let e = EdgeIndex { edge: Edge::from_usize(a), index: i };
            let ghost pre = out@;
            out.push(e);
            assert(out@[out@.len() - 1] == e);
            proof {
                if start.no_duplicates() && (forall|k: int| 0 <= k < start.len() ==> (#[trigger] start[k]).index != i) {
                    assert forall|x: int, y: int| 0 <= x < y < out@.len() implies out@[x] != out@[y] by {
                        if y == out@.len() - 1 {
                            assert(out@[x] == pre[x]);
                            if x < start.len() {
                                assert(pre[x] == start[x]);
                            }
                        } else {
                            assert(out@[x] == pre[x] && out@[y] == pre[y]);
                        }
                    }
                }
            }
        }
        proof {
            assert forall|b: nat|
                b <= a && is_crossing(*g, i, b) implies out@.contains(
                EdgeIndex { edge: edge_of(b), index: i },
            ) by {
                if b < a {
                    let e = EdgeIndex { edge: edge_of(b), index: i };
                    assert(prev.contains(e));
                    let k = choose|k: int| 0 <= k < prev.len() && prev[k] == e;
                    assert(out@[k] == e);
                }
            }
        }
        a = a + 1;
    }
}

/// Every edge of the grid whose ends are both sampled and of opposite sign,
/// named by its lower corner and direction (an A, B or C edge), listed once.
pub fn crossing_edges(g: &SignGrid) -> (r: Vec<EdgeIndex>)
    requires
        g.wf(),
    ensures
        forall|k: int|
            0 <= k < r@.len() ==> {
                let e = #[trigger] r@[k];
                e.edge.num() < 3 && is_crossing(*g, e.index, e.edge.num())
            },
        forall|i: Index, a: nat|
            a < 3 && #[trigger] is_crossing(*g, i, a) ==> r@.contains(
                EdgeIndex { edge: edge_of(a), index: i },
            ),
        r@.no_duplicates(),
{
    let mut out: Vec<EdgeIndex> = Vec::new();
    let n = g.order.len();
    let mut k: usize = 0;
    while k < n
        invariant
            g.wf(),
            n == g.order@.len(),
            k <= n,
            forall|m: int|
                0 <= m < out@.len() ==> {
                    let e = #[trigger] out@[m];
                    e.edge.num() < 3 && is_crossing(*g, e.index, e.edge.num())
                },
            forall|j: int, a: nat|
                0 <= j < k && a < 3 && #[trigger] is_crossing(*g, g.order@[j], a) ==> out@.contains(
                    EdgeIndex { edge: edge_of(a), index: g.order@[j] },
                ),
            out@.no_duplicates(),
            forall|m: int| 0 <= m < out@.len() ==> g.order@.subrange(0, k as int).contains((#[trigger] out@[m]).index),
        decreases n - k,
    {
        let i = g.order[k];
        let ghost prev = out@;
        proof {
            assert forall|m: int| 0 <= m < prev.len() implies (#[trigger] prev[m]).index != i by {
                let w = choose|w: int| 0 <= w < k && g.order@.subrange(0, k as int)[w] == prev[m].index;
                assert(g.order@[w] == prev[m].index);
            }
        }
        push_crossings_at(g, i, &mut out);
        proof {
            assert forall|j: int, a: nat|
                0 <= j < k + 1 && a < 3 && #[trigger] is_crossing(*g, g.order@[j], a) implies out@.contains(
                EdgeIndex { edge: edge_of(a), index: g.order@[j] },
            ) by {
                if j < k {
                    let e = EdgeIndex { edge: edge_of(a), index: g.order@[j] };
                    let m = choose|m: int| 0 <= m < prev.len() && prev[m] == e;
                    assert(out@[m] == e);
                }
            }
            assert forall|m: int| 0 <= m < out@.len() implies g.order@.subrange(0, k + 1).contains(
                (#[trigger] out@[m]).index,
            ) by {
                if m < prev.len() {
                    assert(out@[m] == prev[m]);
                    let w = choose|w: int| 0 <= w < k && g.order@.subrange(0, k as int)[w] == prev[m].index;
                    assert(g.order@.subrange(0, k + 1)[w] == prev[m].index);
                } else {
                    assert(g.order@.subrange(0, k + 1)[k as int] == i);
                }
            }
        }
        k = k + 1;
    }
    proof {
        assert forall|i: Index, a: nat| a < 3 && #[trigger] is_crossing(*g, i, a) implies out@.contains(
            EdgeIndex { edge: edge_of(a), index: i },
        ) by {
            assert(g.order@.contains(i));
            let j = choose|j: int| 0 <= j < n && g.order@[j] == i;
            assert(is_crossing(*g, g.order@[j], a));
        }
    }
    out
}

} // verus!
