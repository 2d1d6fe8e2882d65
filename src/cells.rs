use vstd::prelude::*;
use crate::bitset::BitSet;
use crate::edge::Index;

verus! {

/// One surface component inside one cell: the cell's edges that the
/// component crosses, and the cell.
#[derive(Clone, Copy, Debug, PartialEq, Eq, Structural, Hash)]
pub struct VertexIndex {
    pub edges: BitSet,
    pub index: Index,
}

/// For each sign pattern of a cell's eight corners (bit `c` set iff corner `c`
/// is negative), the edge sets of the surface components inside that cell.
pub struct CellConfigs {
    pub table: Vec<Vec<BitSet>>,
}

impl CellConfigs {
    /// The edge sets listed for sign pattern `c`; none where the table has no
    /// such entry.
    pub open spec fn entry(&self, c: nat) -> Seq<BitSet> {
        if c < self.table@.len() {
            self.table@[c as int]@
        } else {
            seq![]
        }
    }
}

/// The first of `s[i..]` that holds `e`.
pub open spec fn first_from(s: Seq<BitSet>, e: nat, i: int) -> Option<BitSet>
    decreases s.len() - i,
{
    if i < 0 || i >= s.len() {
        None
    } else if s[i].has(e) {
        Some(s[i])
    } else {
        first_from(s, e, i + 1)
    }
}

/// The edge set of sign pattern `c` that holds edge `e`.
pub open spec fn connected_spec(cfg: CellConfigs, c: nat, e: nat) -> Option<BitSet> {
    first_from(cfg.entry(c), e, 0)
}

/// The members of `s` that share an edge with `es`, in order.
pub open spec fn meeting(s: Seq<BitSet>, es: BitSet) -> Seq<BitSet> {
    s.filter(|x: BitSet| x.meets(es))
}

/// The edge set of the cell with sign pattern `cell` that holds `edge`, or
/// `None` where the table lists none.
pub fn find_connected_edges(edge: usize, cell: BitSet, cfg: &CellConfigs) -> (r: Option<BitSet>)
    ensures
        r == connected_spec(*cfg, cell.bits as nat, edge as nat),
{
    let c = cell.as_u32() as usize;
    if c >= cfg.table.len() {
        return None;
    }
    let sets = &cfg.table[c];
    let mut i: usize = 0;
    while i < sets.len()
        invariant
            c == cell.bits,
            c < cfg.table@.len(),
            sets@ == cfg.entry(c as nat),
            i <= sets@.len(),
            first_from(sets@, edge as nat, 0) == first_from(sets@, edge as nat, i as int),
        decreases sets@.len() - i,
    {
        if sets[i].get(edge) {
            return Some(sets[i]);
        }
        i = i + 1;
    }
    None
}

/// The edge set of the cell with sign pattern `cell` that holds `edge`,
/// where the table lists one.
pub fn get_connected_edges(edge: usize, cell: BitSet, cfg: &CellConfigs) -> (r: BitSet)
    requires
        connected_spec(*cfg, cell.bits as nat, edge as nat) is Some,
    ensures
        r == connected_spec(*cfg, cell.bits as nat, edge as nat)->0,
{
    match find_connected_edges(edge, cell, cfg) {
        Some(es) => es,
        None => BitSet::zero(),
    }
}

/// The edge sets of the cell with sign pattern `cell` that share an edge
/// with `edge_set`, in table order.
pub fn get_connected_edges_from_edge_set(edge_set: BitSet, cell: BitSet, cfg: &CellConfigs) -> (r:
    Vec<BitSet>)
    ensures
        r@ == meeting(cfg.entry(cell.bits as nat), edge_set),
{
    let c = cell.as_u32() as usize;
    let mut r: Vec<BitSet> = Vec::new();
    if c >= cfg.table.len() {
        return r;
    }
    let sets = &cfg.table[c];
    let mut i: usize = 0;
    while i < sets.len()
        invariant
            sets@ == cfg.entry(c as nat),
            c == cell.bits,
            i <= sets@.len(),
            r@ == meeting(sets@.subrange(0, i as int), edge_set),
        decreases sets@.len() - i,
    {
        assert(sets@.subrange(0, i + 1).drop_last() == sets@.subrange(0, i as int));
        assert(sets@.subrange(0, i + 1).last() == sets@[i as int]);
        reveal(Seq::filter);
        if sets[i].meets_exec(edge_set) {
            r.push(sets[i]);
        }
        i = i + 1;
    }
    assert(sets@.subrange(0, sets@.len() as int) == sets@);
    r
}

/// Bit `from` of `b`, moved to bit `to`.
pub open spec fn moved(b: u32, from: u32, to: u32) -> u32 {
    ((b >> from) & 1u32) << to
}

/// The edges of a cell on its face `f` (0: -x, 1: +x, 2: -y, 3: +y, 4: -z,
/// 5: +z) that `b` holds, renamed as the same physical edges of the cell
/// across that face.
pub open spec fn across(b: u32, f: nat) -> u32 {
    if f == 0 {
        moved(b, 1, 4) | moved(b, 2, 5) | moved(b, 7, 10) | moved(b, 8, 11)
    } else if f == 1 {
        moved(b, 4, 1) | moved(b, 5, 2) | moved(b, 10, 7) | moved(b, 11, 8)
    } else if f == 2 {
        moved(b, 0, 3) | moved(b, 2, 8) | moved(b, 5, 11) | moved(b, 6, 9)
    } else if f == 3 {
        moved(b, 3, 0) | moved(b, 8, 2) | moved(b, 11, 5) | moved(b, 9, 6)
    } else if f == 4 {
        moved(b, 0, 6) | moved(b, 1, 7) | moved(b, 3, 9) | moved(b, 4, 10)
    } else {
        moved(b, 6, 0) | moved(b, 7, 1) | moved(b, 9, 3) | moved(b, 10, 4)
    }
}

fn move_bit(b: u32, from: u32, to: u32) -> (r: u32)
    requires
        from < 32,
        to < 32,
    ensures
        r == moved(b, from, to),
{
    ((b >> from) & 1u32) << to
}

/// The edges of `es` on face `f` of their cell, named as edges of the cell
/// across that face.
pub fn edges_across(es: BitSet, f: usize) -> (r: BitSet)
    requires
        f < 6,
    ensures
        r.bits == across(es.bits, f as nat),
{
    let b = es.bits;
    let bits = if f == 0 {
        move_bit(b, 1, 4) | move_bit(b, 2, 5) | move_bit(b, 7, 10) | move_bit(b, 8, 11)
    } else if f == 1 {
        move_bit(b, 4, 1) | move_bit(b, 5, 2) | move_bit(b, 10, 7) | move_bit(b, 11, 8)
    } else if f == 2 {
        move_bit(b, 0, 3) | move_bit(b, 2, 8) | move_bit(b, 5, 11) | move_bit(b, 6, 9)
    } else if f == 3 {
        move_bit(b, 3, 0) | move_bit(b, 8, 2) | move_bit(b, 11, 5) | move_bit(b, 9, 6)
    } else if f == 4 {
        move_bit(b, 0, 6) | move_bit(b, 1, 7) | move_bit(b, 3, 9) | move_bit(b, 4, 10)
    } else {
        move_bit(b, 6, 0) | move_bit(b, 7, 1) | move_bit(b, 9, 3) | move_bit(b, 10, 4)
    };
    BitSet { bits }
}

/// The cell across face `f` of the cell at `i`, if it has non-negative
/// coordinates that fit.
pub open spec fn cell_across(i: Index, f: nat) -> Option<Index> {
    let axis = f / 2;
    let up = f % 2 == 1;
    if up {
        if i.coord(axis as int) == usize::MAX {
            None
        } else if axis == 0 {
            Some(Index { x: (i.x + 1) as usize, ..i })
        } else if axis == 1 {
            Some(Index { y: (i.y + 1) as usize, ..i })
        } else {
            Some(Index { z: (i.z + 1) as usize, ..i })
        }
    } else {
        if i.coord(axis as int) == 0 {
            None
        } else if axis == 0 {
            Some(Index { x: (i.x - 1) as usize, ..i })
        } else if axis == 1 {
            Some(Index { y: (i.y - 1) as usize, ..i })
        } else {
            Some(Index { z: (i.z - 1) as usize, ..i })
        }
    }
}

/// The cell across face `f` of the cell at `i`.
pub fn neighbor_cell(i: Index, f: usize) -> (r: Option<Index>)
    requires
        f < 6,
    ensures
        r == cell_across(i, f as nat),
{
    let axis = f / 2;
    let c = i.get(axis);
    if f % 2 == 1 {
        if c == usize::MAX {
            None
        } else if axis == 0 {
            Some(Index { x: i.x + 1, ..i })
        } else if axis == 1 {
            Some(Index { y: i.y + 1, ..i })
        } else {
            Some(Index { z: i.z + 1, ..i })
        }
    } else {
        if c == 0 {
            None
        } else if axis == 0 {
            Some(Index { x: i.x - 1, ..i })
        } else if axis == 1 {
            Some(Index { y: i.y - 1, ..i })
        } else {
            Some(Index { z: i.z - 1, ..i })
        }
    }
}

} // verus!
