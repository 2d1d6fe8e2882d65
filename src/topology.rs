use vstd::prelude::*;
use crate::cells::{CellConfigs, VertexIndex};
use crate::edge::{Edge, EdgeIndex, Index, edge_of, offset_of, quad_of};
use crate::grid::{SignGrid, crossing_edges, is_crossing};
use crate::leaves::{
    Cluster,
    TessError,
    from_quad,
    generate_leaf_vertices,
    one_sided,
    key_for,
    leaf_for,
    neighbor_keys,
    quad_cell,
    quad_covered,
};
use crate::octree::{build_layers, stack_ok};
use crate::quads::{MeshTopology, mesh_topology, quad_corners, quad_exists, quad_faces, quad_key};

verus! {

/// Whether `x` is the component of one of the four cells around some
/// crossing edge of the grid.
pub open spec fn grid_quad(g: SignGrid, cfg: CellConfigs, x: VertexIndex) -> bool {
    exists|i: Index, a: nat, q: int|
        a < 3 && is_crossing(g, i, a) && 0 <= q < 4 && #[trigger] quad_key(
            g,
            cfg,
            EdgeIndex { edge: edge_of(a), index: i },
            q,
        ) == Some(x)
}

proof fn lemma_edge_of_num(e: Edge)
    ensures
        edge_of(e.num()) == e,
{
}

/// Over the full list of crossing edges, the quad components are those of
/// the grid.
proof fn lemma_grid_quad(g: SignGrid, cfg: CellConfigs, crossing: Seq<EdgeIndex>, x: VertexIndex)
    requires
        forall|k: int|
            0 <= k < crossing.len() ==> {
                let e = #[trigger] crossing[k];
                e.edge.num() < 3 && is_crossing(g, e.index, e.edge.num())
            },
        forall|i: Index, a: nat|
            a < 3 && #[trigger] is_crossing(g, i, a) ==> crossing.contains(
                EdgeIndex { edge: edge_of(a), index: i },
            ),
    ensures
        from_quad(g, cfg, crossing, x) == grid_quad(g, cfg, x),
{
    if from_quad(g, cfg, crossing, x) {
        let (k, q) = choose|k: int, q: int|
            0 <= k < crossing.len() && 0 <= q < 4 && #[trigger] quad_key(g, cfg, crossing[k], q) == Some(x);
        let e = crossing[k];
        lemma_edge_of_num(e.edge);
        assert(EdgeIndex { edge: edge_of(e.edge.num()), index: e.index } == e);
        assert(quad_key(g, cfg, EdgeIndex { edge: edge_of(e.edge.num()), index: e.index }, q) == Some(x));
    }
    if grid_quad(g, cfg, x) {
        let (i, a, q) = choose|i: Index, a: nat, q: int|
            a < 3 && is_crossing(g, i, a) && 0 <= q < 4 && #[trigger] quad_key(
                g,
                cfg,
                EdgeIndex { edge: edge_of(a), index: i },
                q,
            ) == Some(x);
        let e = EdgeIndex { edge: edge_of(a), index: i };
        assert(crossing.contains(e));
        let k = choose|k: int| 0 <= k < crossing.len() && crossing[k] == e;
        assert(quad_key(g, cfg, crossing[k], q) == Some(x));
    }
}

/// Everything the surface's topology consists of: the crossing edges, the
/// octree of clusters over them, and the mesh's faces.
pub struct Topology {
    /// The crossing edges, each an A, B or C edge at its lower corner.
    pub crossing: Vec<EdgeIndex>,
    /// The component that each leaf cluster stands for.
    pub leaf_keys: Vec<VertexIndex>,
    /// The octree, leaves first.
    pub layers: Vec<Vec<Cluster>>,
    /// The faces of the mesh.
    pub mesh: MeshTopology,
}

/// Finds the crossing edges of `g`, builds the leaf clusters and the octree
/// over them, and emits the faces dual to the crossing edges.
pub fn build_topology(g: &SignGrid, cfg: &CellConfigs) -> (r: Result<Topology, TessError>)
    requires
        g.wf(),
    ensures
        match r {
            Ok(t) => {
                &&& forall|k: int|
                    0 <= k < t.crossing@.len() ==> {
                        let e = #[trigger] t.crossing@[k];
                        e.edge.num() < 3 && is_crossing(*g, e.index, e.edge.num())
                    }
                &&& forall|i, a: nat|
                    a < 3 && #[trigger] is_crossing(*g, i, a) ==> t.crossing@.contains(
                        EdgeIndex { edge: edge_of(a), index: i },
                    )
                &&& t.leaf_keys@.no_duplicates()
                &&& t.layers@.len() >= 1
                &&& t.layers@[0]@.len() == t.leaf_keys@.len()
                &&& forall|v: int|
                    0 <= v < t.leaf_keys@.len() ==> (#[trigger] t.layers@[0]@[v]).index
                        == t.leaf_keys@[v].index
                &&& forall|k: int, q: int|
                    0 <= k < t.crossing@.len() && 0 <= q < 4 ==> #[trigger] quad_covered(
                        *g,
                        *cfg,
                        t.leaf_keys@,
                        t.crossing@[k],
                        q,
                    )
                &&& forall|v: int|
                    0 <= v < t.leaf_keys@.len() ==> #[trigger] from_quad(
                        *g,
                        *cfg,
                        t.crossing@,
                        t.leaf_keys@[v],
                    )
                &&& stack_ok(t.layers@)
                &&& t.mesh.vertices@.no_duplicates()
                &&& t.mesh.faces@.len() == 2 * t.crossing@.len()
                &&& forall|k: int|
                    0 <= k < t.crossing@.len() ==> quad_exists(*g, *cfg, #[trigger] t.crossing@[k])
                        && quad_faces(
                        t.mesh.vertices@,
                        t.mesh.faces@,
                        k,
                        quad_corners(*g, *cfg, t.crossing@[k]),
                    )
            },
            Err(TessError::OnBoundary(e)) => e.edge.num() < 3 && is_crossing(
                *g,
                e.index,
                e.edge.num(),
            ) && exists|q: int|
                0 <= q < 4 && !e.index.can_sub(offset_of((#[trigger] quad_of(e.edge.num())[q]).num())),
            Err(TessError::NoCluster(e)) => e.edge.num() < 3 && is_crossing(
                *g,
                e.index,
                e.edge.num(),
            ) && exists|q: int|
                0 <= q < 4 && key_for(
                    *g,
                    *cfg,
                    (#[trigger] quad_of(e.edge.num())[q]).num(),
                    quad_cell(e, quad_of(e.edge.num())[q]),
                ) is None,
            Err(TessError::UnknownNeighbour(v, f)) => grid_quad(*g, *cfg, v) && f < 6 && neighbor_keys(
                *g,
                *cfg,
                v,
                f as nat,
            ) is None,
            Err(TessError::UnmatchedNeighbour(x)) => !grid_quad(*g, *cfg, x) && exists|v: VertexIndex, f: nat|
                grid_quad(*g, *cfg, v) && f < 6 && neighbor_keys(*g, *cfg, v, f) is Some
                    && #[trigger] neighbor_keys(*g, *cfg, v, f)->0.contains(x),
            Err(TessError::OneSidedLink) => exists|x: VertexIndex, y: VertexIndex, f: int|
                grid_quad(*g, *cfg, x) && grid_quad(*g, *cfg, y) && #[trigger] one_sided(*g, *cfg, x, y, f),
            Err(TessError::TooManyClusters) => exists|s: Seq<EdgeIndex>|
                4 * s.len() >= usize::MAX && #[trigger] s.no_duplicates() && forall|k: int|
                    0 <= k < s.len() ==> (#[trigger] s[k]).edge.num() < 3 && is_crossing(
                        *g,
                        s[k].index,
                        s[k].edge.num(),
                    ),
        },
{
    let crossing = crossing_edges(g);
    let leaves = match generate_leaf_vertices(g, cfg, &crossing) {
        Ok(l) => l,
        Err(e) => {
            proof {
                if let TessError::OnBoundary(x) = e {
                    let k = choose|k: int| 0 <= k < crossing@.len() && crossing@[k] == x;
                    assert(crossing@[k] == x);
                }
                if let TessError::NoCluster(x) = e {
                    let k = choose|k: int| 0 <= k < crossing@.len() && crossing@[k] == x;
                    assert(crossing@[k] == x);
                }
                if let TessError::UnknownNeighbour(v, f) = e {
                    lemma_grid_quad(*g, *cfg, crossing@, v);
                }
                if let TessError::UnmatchedNeighbour(x) = e {
                    lemma_grid_quad(*g, *cfg, crossing@, x);
                    let (v, f) = choose|v: VertexIndex, f: nat|
                        from_quad(*g, *cfg, crossing@, v) && f < 6 && neighbor_keys(*g, *cfg, v, f) is Some
                            && #[trigger] neighbor_keys(*g, *cfg, v, f)->0.contains(x);
                    lemma_grid_quad(*g, *cfg, crossing@, v);
                }
                if let TessError::OneSidedLink = e {
                    let (x, y, f) = choose|x: VertexIndex, y: VertexIndex, f: int|
                        from_quad(*g, *cfg, crossing@, x) && from_quad(*g, *cfg, crossing@, y)
                            && #[trigger] one_sided(*g, *cfg, x, y, f);
                    lemma_grid_quad(*g, *cfg, crossing@, x);
                    lemma_grid_quad(*g, *cfg, crossing@, y);
                }
                if let TessError::TooManyClusters = e {
                    assert(crossing@.no_duplicates());
                }
            }
            return Err(e);
        },
    };
    let keys = leaves.keys;
    let ghost leaf_layer = leaves.clusters@;
    let layers = match build_layers(leaves.clusters) {
        Ok(s) => s,
        Err(e) => {
            return Err(e);
        },
    };
    proof {
        assert forall|v: int| 0 <= v < keys@.len() implies (#[trigger] layers@[0]@[v]).index
            == keys@[v].index by {
            assert(leaf_for(*g, *cfg, keys@, keys@[v], leaf_layer[v]));
        }
    }
    let mesh = match mesh_topology(g, cfg, &crossing) {
        Ok(m) => m,
        Err(e) => {
            proof {
                if let TessError::OnBoundary(x) = e {
                    let k = choose|k: int| 0 <= k < crossing@.len() && crossing@[k] == x;
                    assert(crossing@[k] == x);
                }
                if let TessError::NoCluster(x) = e {
                    let k = choose|k: int| 0 <= k < crossing@.len() && crossing@[k] == x;
                    assert(crossing@[k] == x);
                }
                if let TessError::TooManyClusters = e {
                    assert(crossing@.no_duplicates());
                }
            }
            return Err(e);
        },
    };
    Ok(Topology { crossing, leaf_keys: keys, layers, mesh })
}

} // verus!
