use vstd::prelude::*;

verus! {

/// A grid corner, named by its three non-negative coordinates.
#[derive(Clone, Copy, Debug, PartialEq, Eq, Structural, Hash)]
pub struct Index {
    pub x: usize,
    pub y: usize,
    pub z: usize,
}

impl Index {
    pub open spec fn coord(self, axis: int) -> usize {
        if axis == 0 {
            self.x
        } else if axis == 1 {
            self.y
        } else {
            self.z
        }
    }

    /// Coordinate along `axis` (0 = x, 1 = y, 2 = z).
    pub fn get(&self, axis: usize) -> (r: usize)
        requires
            axis < 3,
        ensures
            r == self.coord(axis as int),
    {
        if axis == 0 {
            self.x
        } else if axis == 1 {
            self.y
        } else {
            self.z
        }
    }

    pub open spec fn plus(self, o: Index) -> Index {
        Index { x: (self.x + o.x) as usize, y: (self.y + o.y) as usize, z: (self.z + o.z) as usize }
    }

    pub open spec fn minus(self, o: Index) -> Index {
        Index { x: (self.x - o.x) as usize, y: (self.y - o.y) as usize, z: (self.z - o.z) as usize }
    }

    pub open spec fn can_add(self, o: Index) -> bool {
        self.x + o.x <= usize::MAX && self.y + o.y <= usize::MAX && self.z + o.z <= usize::MAX
    }

    pub open spec fn can_sub(self, o: Index) -> bool {
        self.x >= o.x && self.y >= o.y && self.z >= o.z
    }

    /// Componentwise sum.
    pub fn offset(&self, o: Index) -> (r: Index)
        requires
            self.can_add(o),
        ensures
            r == self.plus(o),
    {
        Index { x: self.x + o.x, y: self.y + o.y, z: self.z + o.z }
    }

    /// Componentwise difference, or `None` where a coordinate would drop below zero.
    pub fn neg_offset(&self, o: Index) -> (r: Option<Index>)
        ensures
            r == (if self.can_sub(o) {
                Some(self.minus(o))
            } else {
                None
            }),
    {
        if self.x >= o.x && self.y >= o.y && self.z >= o.z {
            Some(Index { x: self.x - o.x, y: self.y - o.y, z: self.z - o.z })
        } else {
            None
        }
    }

    pub open spec fn halved(self) -> Index {
        Index { x: self.x / 2, y: self.y / 2, z: self.z / 2 }
    }

    /// The index of the octree super-cell that holds this cell.
    pub fn half(&self) -> (r: Index)
        ensures
            r == self.halved(),
    {
        Index { x: self.x / 2, y: self.y / 2, z: self.z / 2 }
    }
}

//  Edges of a cell; o is the cell's reference corner, edges run from lower to
//  higher coordinates.
//
//      +-------9-------+
//     /|              /|
//    7 |            10 |              ^
//   /  8            /  11            /
//  +-------6-------+   |     ^    higher y
//  |   |           |   |     |     /
//  |   +-------3---|---+     |    /
//  2  /            5  /   higher z
//  | 1             | 4       |/
//  |/              |/        +-- higher x ---->
//  o-------0-------+
/// One of the twelve edges of a cell.
#[derive(Clone, Copy, Debug, PartialEq, Eq, Structural, Hash)]
pub enum Edge {
    A,
    B,
    C,
    D,
    E,
    F,
    G,
    H,
    I,
    J,
    K,
    L,
}

/// The edge with number `n` (A = 0 ... L = 11).
pub open spec fn edge_of(n: nat) -> Edge {
    if n == 0 {
        Edge::A
    } else if n == 1 {
        Edge::B
    } else if n == 2 {
        Edge::C
    } else if n == 3 {
        Edge::D
    } else if n == 4 {
        Edge::E
    } else if n == 5 {
        Edge::F
    } else if n == 6 {
        Edge::G
    } else if n == 7 {
        Edge::H
    } else if n == 8 {
        Edge::I
    } else if n == 9 {
        Edge::J
    } else if n == 10 {
        Edge::K
    } else {
        Edge::L
    }
}

/// The offset of each edge's anchor corner from the cell's reference corner.
pub open spec fn offset_of(n: nat) -> Index {
    if n == 3 || n == 8 {
        Index { x: 0, y: 1, z: 0 }
    } else if n == 4 || n == 5 {
        Index { x: 1, y: 0, z: 0 }
    } else if n == 6 || n == 7 {
        Index { x: 0, y: 0, z: 1 }
    } else if n == 9 {
        Index { x: 0, y: 1, z: 1 }
    } else if n == 10 {
        Index { x: 1, y: 0, z: 1 }
    } else if n == 11 {
        Index { x: 1, y: 1, z: 0 }
    } else {
        Index { x: 0, y: 0, z: 0 }
    }
}

/// The four edges, in winding order, whose cells meet at an edge of
/// direction `dir` (0 = x, 1 = y, 2 = z).
pub open spec fn quad_of(dir: nat) -> Seq<Edge> {
    if dir == 0 {
        seq![Edge::A, Edge::G, Edge::J, Edge::D]
    } else if dir == 1 {
        seq![Edge::B, Edge::E, Edge::K, Edge::H]
    } else {
        seq![Edge::C, Edge::I, Edge::L, Edge::F]
    }
}

impl Edge {
    pub open spec fn num(self) -> nat {
        match self {
            Edge::A => 0,
            Edge::B => 1,
            Edge::C => 2,
            Edge::D => 3,
            Edge::E => 4,
            Edge::F => 5,
            Edge::G => 6,
            Edge::H => 7,
            Edge::I => 8,
            Edge::J => 9,
            Edge::K => 10,
            Edge::L => 11,
        }
    }

    /// The direction of the edge: 0 = x, 1 = y, 2 = z.
    pub open spec fn dir(self) -> nat {
        self.num() % 3
    }

    pub open spec fn base_spec(self) -> Edge {
        edge_of(self.dir())
    }

    /// The number of this edge.
    pub fn to_usize(&self) -> (r: usize)
        ensures
            r == self.num(),
            r < 12,
    {
        match self {
            Edge::A => 0,
            Edge::B => 1,
            Edge::C => 2,
            Edge::D => 3,
            Edge::E => 4,
            Edge::F => 5,
            Edge::G => 6,
            Edge::H => 7,
            Edge::I => 8,
            Edge::J => 9,
            Edge::K => 10,
            Edge::L => 11,
        }
    }

    /// The edge with number `e`; numbers past 11 name no edge.
    pub fn from_usize(e: usize) -> (r: Edge)
        requires
            e < 12,
        ensures
            r.num() == e,
            r == edge_of(e as nat),
    {
        match e {
            0 => Edge::A,
            1 => Edge::B,
            2 => Edge::C,
            3 => Edge::D,
            4 => Edge::E,
            5 => Edge::F,
            6 => Edge::G,
            7 => Edge::H,
            8 => Edge::I,
            9 => Edge::J,
            10 => Edge::K,
            _ => Edge::L,
        }
    }

    /// The edge of the same direction through the cell's reference corner:
    /// always one of A, B, C, and its number is this edge's direction.
    pub fn base(&self) -> (r: Edge)
        ensures
            r == self.base_spec(),
            r.num() == self.num() % 3,
            r == Edge::A || r == Edge::B || r == Edge::C,
    {
        Edge::from_usize(self.to_usize() % 3)
    }

    /// The offset of this edge's anchor corner from the cell's reference corner.
    pub fn offset(&self) -> (r: Index)
        ensures
            r == offset_of(self.num()),
    {
        match self {
            Edge::D | Edge::I => Index { x: 0, y: 1, z: 0 },
            Edge::E | Edge::F => Index { x: 1, y: 0, z: 0 },
            Edge::G | Edge::H => Index { x: 0, y: 0, z: 1 },
            Edge::J => Index { x: 0, y: 1, z: 1 },
            Edge::K => Index { x: 1, y: 0, z: 1 },
            Edge::L => Index { x: 1, y: 1, z: 0 },
            _ => Index { x: 0, y: 0, z: 0 },
        }
    }
}

/// The four edges, in winding order, whose cells meet at an edge of direction `dir`.
pub fn quad_edges(dir: usize) -> (r: Vec<Edge>)
    requires
        dir < 3,
    ensures
        r@ == quad_of(dir as nat),
{
    if dir == 0 {
        vec![Edge::A, Edge::G, Edge::J, Edge::D]
    } else if dir == 1 {
        vec![Edge::B, Edge::E, Edge::K, Edge::H]
    } else {
        vec![Edge::C, Edge::I, Edge::L, Edge::F]
    }
}

/// An edge of the cell at `index`.
#[derive(Clone, Copy, Debug, PartialEq, Eq, Structural, Hash)]
pub struct EdgeIndex {
    pub edge: Edge,
    pub index: Index,
}

impl EdgeIndex {
    pub open spec fn base_spec(self) -> EdgeIndex {
        EdgeIndex { edge: self.edge.base_spec(), index: self.index.plus(offset_of(self.edge.num())) }
    }

    /// The canonical name of the same physical edge: an A, B or C edge of the
    /// cell at its anchor corner.
    pub fn base(&self) -> (r: EdgeIndex)
        requires
            self.index.can_add(offset_of(self.edge.num())),
        ensures
            r == self.base_spec(),
    {
        EdgeIndex { edge: self.edge.base(), index: self.index.offset(self.edge.offset()) }
    }
}

} // verus!
