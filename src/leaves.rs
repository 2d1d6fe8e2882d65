use vstd::prelude::*;
use crate::bitset::BitSet;
use crate::cells::{
    CellConfigs,
    VertexIndex,
    across,
    cell_across,
    connected_spec,
    edges_across,
    find_connected_edges,
    get_connected_edges_from_edge_set,
    meeting,
    neighbor_cell,
};
use crate::edge::{Edge, EdgeIndex, Index, offset_of, quad_edges, quad_of};
use crate::grid::{SignGrid, cell_bits, cell_known, sign_bits};
use crate::keys::KeyTable;
use crate::octree::{check_links, layer_wf, links_geometric, links_mutual, opposite};
use crate::quads::quad_key;

verus! {

/// A node of the octree: one surface component in one cell or super-cell.
pub struct Cluster {
    /// The cell (at the leaves) or super-cell (above) that holds the component.
    pub index: Index,
    /// For each face direction (0: -x, 1: +x, 2: -y, 3: +y, 4: -z, 5: +z),
    /// the positions in the same layer of the clusters across that face.
    pub neighbors: Vec<Vec<usize>>,
    /// The position of the cluster that this one was merged into, one layer up.
    pub parent: Option<usize>,
    /// The positions of the clusters merged into this one, one layer down.
    pub children: Vec<usize>,
}

/// What keeps the topology of the surface from being built.
#[derive(Clone, Copy, Debug, PartialEq, Eq, Structural)]
pub enum TessError {
    /// A cell next to this crossing edge would lie below the grid's origin.
    OnBoundary(EdgeIndex),
    /// A cell next to this crossing edge has no edge set for it: a corner is
    /// unsampled or the configuration table lists none.
    NoCluster(EdgeIndex),
    /// The cell across the given face of this cluster's cell is not fully
    /// sampled, or lies outside the grid.
    UnknownNeighbour(VertexIndex, usize),
    /// A component across a face of this cluster belongs to no cluster.
    UnmatchedNeighbour(VertexIndex),
    /// The neighbour lists of some layer are not mutual.
    OneSidedLink,
    /// More clusters than positions can name.
    TooManyClusters,
}

/// The sign pattern of the cell at `i`, where all its corners are sampled.
pub open spec fn cell_pattern(g: SignGrid, i: Index) -> Option<nat> {
    if cell_known(g, i) {
        Some(sign_bits(g, i, 8))
    } else {
        None
    }
}

/// The component of the cell at `cell` that crosses edge `e` of that cell.
pub open spec fn key_for(g: SignGrid, cfg: CellConfigs, e: nat, cell: Index) -> Option<VertexIndex> {
    match cell_pattern(g, cell) {
        Some(c) => match connected_spec(cfg, c, e) {
            Some(es) => Some(VertexIndex { edges: es, index: cell }),
            None => None,
        },
        None => None,
    }
}

/// The cell of quad edge `q` around the canonical edge `ei`.
pub open spec fn quad_cell(ei: EdgeIndex, q: Edge) -> Index {
    ei.index.minus(offset_of(q.num()))
}

/// The components across face `f` of cluster `v` that share an edge with
/// it, in table order; `None` where that cell is unknown.
pub open spec fn neighbor_keys(g: SignGrid, cfg: CellConfigs, v: VertexIndex, f: nat) -> Option<
    Seq<VertexIndex>,
> {
    let es = BitSet { bits: across(v.edges.bits, f) };
    if es.bits == 0 {
        Some(seq![])
    } else {
        match cell_across(v.index, f) {
            None => None,
            Some(n) => match cell_pattern(g, n) {
                None => None,
                Some(c) => Some(
                    meeting(cfg.entry(c), es).map_values(|s: BitSet| VertexIndex { edges: s, index: n }),
                ),
            },
        }
    }
}

/// The component of the cell at `cell` that crosses its edge `e`.
pub fn cluster_key(g: &SignGrid, cfg: &CellConfigs, e: Edge, cell: Index) -> (r: Option<
    VertexIndex,
>)
    requires
        g.wf(),
    ensures
        r == key_for(*g, *cfg, e.num(), cell),
{
    match cell_bits(g, cell) {
        None => None,
        Some(bits) => match find_connected_edges(e.to_usize(), bits, cfg) {
            Some(es) => Some(VertexIndex { edges: es, index: cell }),
            None => None,
        },
    }
}

/// The components across face `f` of cluster `v` that share an edge with it.
pub fn neighbor_keys_exec(g: &SignGrid, cfg: &CellConfigs, v: VertexIndex, f: usize) -> (r: Option<
    Vec<VertexIndex>,
>)
    requires
        g.wf(),
        f < 6,
    ensures
        match r {
            Some(ns) => neighbor_keys(*g, *cfg, v, f as nat) == Some(ns@),
            None => neighbor_keys(*g, *cfg, v, f as nat) is None,
        },
{
    let es = edges_across(v.edges, f);
    if es.bits == 0 {
        let empty: Vec<VertexIndex> = Vec::new();
        assert(empty@ == Seq::<VertexIndex>::empty());
        return Some(empty);
    }
    let n = match neighbor_cell(v.index, f) {
        None => {
            return None;
        },
        Some(n) => n,
    };
    let bits = match cell_bits(g, n) {
        None => {
            return None;
        },
        Some(b) => b,
    };
    let sets = get_connected_edges_from_edge_set(es, bits, cfg);
    let mut out: Vec<VertexIndex> = Vec::new();
    let mut t: usize = 0;
    while t < sets.len()
        invariant
            t <= sets@.len(),
            out@ == sets@.subrange(0, t as int).map_values(
                |s: BitSet| VertexIndex { edges: s, index: n },
            ),
        decreases sets@.len() - t,
    {
        out.push(VertexIndex { edges: sets[t], index: n });
        t = t + 1;
        assert(out@ =~= sets@.subrange(0, t as int).map_values(
            |s: BitSet| VertexIndex { edges: s, index: n },
        ));
    }
    assert(sets@.subrange(0, sets@.len() as int) == sets@);
    Some(out)
}

/// The leaf layer of the octree: the clusters, and for each the component it
/// stands for.
pub struct Leaves {
    pub keys: Vec<VertexIndex>,
    pub clusters: Vec<Cluster>,
}

/// Whether the positions `ids` name, in `keys`, exactly the components `ns`.
pub open spec fn names(keys: Seq<VertexIndex>, ids: Seq<usize>, ns: Seq<VertexIndex>) -> bool {
    &&& ids.len() == ns.len()
    &&& forall|t: int| 0 <= t < ids.len() ==> #[trigger] ids[t] < keys.len() && keys[ids[t] as int] == ns[t]
}

/// Whether cluster `c` is the leaf for component `key`: in its cell, with no
/// parent or child yet, and linked across each face to the clusters of the
/// components there that share an edge with it.
pub open spec fn leaf_for(
    g: SignGrid,
    cfg: CellConfigs,
    keys: Seq<VertexIndex>,
    key: VertexIndex,
    c: Cluster,
) -> bool {
    &&& c.index == key.index
    &&& c.parent is None
    &&& c.children@.len() == 0
    &&& c.neighbors@.len() == 6
    &&& forall|f: int|
        0 <= f < 6 ==> match #[trigger] neighbor_keys(g, cfg, key, f as nat) {
            Some(ns) => names(keys, c.neighbors@[f]@, ns),
            None => false,
        }
}

/// Whether the cell of quad edge `q` (0 to 3) around the canonical crossing
/// `ei` has a component for that edge, and it is among `keys`.
pub open spec fn quad_covered(
    g: SignGrid,
    cfg: CellConfigs,
    keys: Seq<VertexIndex>,
    ei: EdgeIndex,
    q: int,
) -> bool {
    let qe = quad_of(ei.edge.num())[q];
    &&& ei.index.can_sub(offset_of(qe.num()))
    &&& key_for(g, cfg, qe.num(), quad_cell(ei, qe)) is Some
    &&& keys.contains(key_for(g, cfg, qe.num(), quad_cell(ei, qe))->0)
}

/// Whether `key` is the component of one of the four cells around one of
/// the edges `crossing`.
pub open spec fn from_quad(g: SignGrid, cfg: CellConfigs, crossing: Seq<EdgeIndex>, key: VertexIndex) -> bool {
    exists|k: int, q: int|
        0 <= k < crossing.len() && 0 <= q < 4 && #[trigger] quad_key(g, cfg, crossing[k], q) == Some(key)
}

/// Whether component `y` lies across face `f` of component `x` while `x`
/// does not lie across the opposite face of `y`.
pub open spec fn one_sided(g: SignGrid, cfg: CellConfigs, x: VertexIndex, y: VertexIndex, f: int) -> bool {
    &&& 0 <= f < 6
    &&& neighbor_keys(g, cfg, x, f as nat) is Some
    &&& neighbor_keys(g, cfg, x, f as nat)->0.contains(y)
    &&& neighbor_keys(g, cfg, y, opposite(f) as nat) is Some
    &&& !neighbor_keys(g, cfg, y, opposite(f) as nat)->0.contains(x)
}

/// Whether the leaves over `crossing` can be built: every quad cell has its
/// component; the cells across the faces of each such component are known
/// and their components that meet it are quad components too; those links
/// are mutual; and the positions of the leaves fit in a `usize`.
pub open spec fn leaves_buildable(g: SignGrid, cfg: CellConfigs, crossing: Seq<EdgeIndex>) -> bool {
    &&& forall|k: int, q: int|
        0 <= k < crossing.len() && 0 <= q < 4 ==> #[trigger] quad_key(g, cfg, crossing[k], q) is Some
    &&& forall|x: VertexIndex|
        #[trigger] from_quad(g, cfg, crossing, x) ==> around_known(g, cfg, x) && around_quads(g, cfg, crossing, x)
    &&& forall|x: VertexIndex, y: VertexIndex, f: int|
        from_quad(g, cfg, crossing, x) && from_quad(g, cfg, crossing, y) ==> !#[trigger] one_sided(g, cfg, x, y, f)
    &&& 4 * crossing.len() < usize::MAX
}

/// Whether the cells across all six faces of component `x` are known.
pub open spec fn around_known(g: SignGrid, cfg: CellConfigs, x: VertexIndex) -> bool {
    forall|f: nat| f < 6 ==> #[trigger] neighbor_keys(g, cfg, x, f) is Some
}

/// Whether the components across the faces of `x` that meet it are all
/// quad components.
pub open spec fn around_quads(g: SignGrid, cfg: CellConfigs, crossing: Seq<EdgeIndex>, x: VertexIndex) -> bool {
    forall|f: nat, y: VertexIndex|
        f < 6 && neighbor_keys(g, cfg, x, f) is Some && #[trigger] neighbor_keys(g, cfg, x, f)->0.contains(y)
            ==> from_quad(g, cfg, crossing, y)
}

/// Builds the leaf clusters: one for each component of a cell next to a
/// crossing edge, linked to its neighbours across the six faces.
#[verifier::rlimit(60)]
pub fn generate_leaf_vertices(g: &SignGrid, cfg: &CellConfigs, crossing: &Vec<EdgeIndex>) -> (r:
    Result<Leaves, TessError>)
    requires
        g.wf(),
        forall|k: int| 0 <= k < crossing@.len() ==> (crossing@[k]).edge.num() < 3,
    ensures
        match r {
            Ok(leaves) => {
                &&& leaves.keys@.no_duplicates()
                &&& leaves.clusters@.len() == leaves.keys@.len()
                &&& forall|v: int|
                    0 <= v < leaves.keys@.len() ==> leaf_for(
                        *g,
                        *cfg,
                        leaves.keys@,
                        leaves.keys@[v],
                        #[trigger] leaves.clusters@[v],
                    )
                &&& forall|k: int, q: int|
                    0 <= k < crossing@.len() && 0 <= q < 4 ==> #[trigger] quad_covered(
                        *g,
                        *cfg,
                        leaves.keys@,
                        crossing@[k],
                        q,
                    )
                &&& forall|v: int|
                    0 <= v < leaves.keys@.len() ==> #[trigger] from_quad(*g, *cfg, crossing@, leaves.keys@[v])
                &&& links_geometric(leaves.clusters@)
                &&& links_mutual(leaves.clusters@)
            },
            Err(TessError::OnBoundary(e)) => crossing@.contains(e) && exists|q: int|
                0 <= q < 4 && !e.index.can_sub(
                    offset_of((#[trigger] quad_of(e.edge.num())[q]).num()),
                ),
            Err(TessError::NoCluster(e)) => crossing@.contains(e) && exists|q: int|
                0 <= q < 4 && key_for(
                    *g,
                    *cfg,
                    (#[trigger] quad_of(e.edge.num())[q]).num(),
                    quad_cell(e, quad_of(e.edge.num())[q]),
                ) is None,
            Err(TessError::UnknownNeighbour(v, f)) => from_quad(*g, *cfg, crossing@, v) && f < 6
                && neighbor_keys(*g, *cfg, v, f as nat) is None,
            Err(TessError::UnmatchedNeighbour(x)) => !from_quad(*g, *cfg, crossing@, x) && exists|
                v: VertexIndex,
                f: nat,
            |
                from_quad(*g, *cfg, crossing@, v) && f < 6 && neighbor_keys(*g, *cfg, v, f) is Some
                    && #[trigger] neighbor_keys(*g, *cfg, v, f)->0.contains(x),
            Err(TessError::OneSidedLink) => exists|x: VertexIndex, y: VertexIndex, f: int|
                from_quad(*g, *cfg, crossing@, x) && from_quad(*g, *cfg, crossing@, y) && #[trigger] one_sided(
                    *g,
                    *cfg,
                    x,
                    y,
                    f,
                ),
            Err(TessError::TooManyClusters) => 4 * crossing@.len() >= usize::MAX,
        },
        leaves_buildable(*g, *cfg, crossing@) ==> r is Ok,
{
    let mut table = KeyTable::new();
    let mut pending: Vec<Vec<Vec<VertexIndex>>> = Vec::new();
    let mut k: usize = 0;
    while k < crossing.len()
        invariant
            g.wf(),
            forall|k: int| 0 <= k < crossing@.len() ==> (#[trigger] crossing@[k]).edge.num() < 3,
            k <= crossing@.len(),
            table.wf(),
            pending@.len() == table@.len(),
            forall|v: int|
                0 <= v < table@.len() ==> (#[trigger] pending@[v])@.len() == 6 && forall|f: int|
                    0 <= f < 6 ==> #[trigger] neighbor_keys(*g, *cfg, table@[v], f as nat) == Some(
                        pending@[v]@[f]@,
                    ),
            forall|j: int, q: int|
                0 <= j < k && 0 <= q < 4 ==> #[trigger] quad_covered(*g, *cfg, table@, crossing@[j], q),
            forall|v: int| 0 <= v < table@.len() ==> #[trigger] from_quad(*g, *cfg, crossing@, table@[v]),
            table@.len() <= 4 * k,
        decreases crossing@.len() - k,
    {
        let ei = crossing[k];
        let quad = quad_edges(ei.edge.to_usize());
        let mut q: usize = 0;
        while q < 4
            invariant
                g.wf(),
                forall|k: int| 0 <= k < crossing@.len() ==> (#[trigger] crossing@[k]).edge.num() < 3,
                k < crossing@.len(),
                ei == crossing@[k as int],
                quad@ == quad_of(ei.edge.num()),
                q <= 4,
                table.wf(),
                pending@.len() == table@.len(),
                forall|v: int|
                    0 <= v < table@.len() ==> (#[trigger] pending@[v])@.len() == 6 && forall|f: int|
                        0 <= f < 6 ==> #[trigger] neighbor_keys(*g, *cfg, table@[v], f as nat)
                            == Some(pending@[v]@[f]@),
                forall|j: int, q2: int|
                    0 <= j < k && 0 <= q2 < 4 ==> #[trigger] quad_covered(
                        *g,
                        *cfg,
                        table@,
                        crossing@[j],
                        q2,
                    ),
                forall|q2: int| 0 <= q2 < q ==> quad_covered(*g, *cfg, table@, ei, q2),
                forall|v: int| 0 <= v < table@.len() ==> #[trigger] from_quad(*g, *cfg, crossing@, table@[v]),
                table@.len() <= 4 * k + q,
            decreases 4 - q,
        {
            let qe = quad[q];
            let cell = match ei.index.neg_offset(qe.offset()) {
                None => {
                    proof {
                        assert(crossing@[k as int] == ei);
                    }
                    return Err(TessError::OnBoundary(ei));
                },
                Some(c) => c,
            };
            let key = match cluster_key(g, cfg, qe, cell) {
                None => {
                    proof {
                        assert(crossing@[k as int] == ei);
                    }
                    return Err(TessError::NoCluster(ei));
                },
                Some(key) => key,
            };
            let ghost before = table@;
            proof {
                assert(quad_of(ei.edge.num())[q as int] == qe);
                assert(quad_key(*g, *cfg, crossing@[k as int], q as int) == Some(key));
                assert(from_quad(*g, *cfg, crossing@, key));
            }
            if table.find(&key).is_none() {
                let mut lists: Vec<Vec<VertexIndex>> = Vec::new();
                let mut f: usize = 0;
                while f < 6
                    invariant
                        g.wf(),
                        from_quad(*g, *cfg, crossing@, key),
                        f <= 6,
                        lists@.len() == f,
                        forall|f2: int|
                            0 <= f2 < f ==> #[trigger] neighbor_keys(*g, *cfg, key, f2 as nat) == Some(
                                lists@[f2]@,
                            ),
                    decreases 6 - f,
                {
                    match neighbor_keys_exec(g, cfg, key, f) {
                        None => {
                            proof {
                                if leaves_buildable(*g, *cfg, crossing@) {
                                    assert(from_quad(*g, *cfg, crossing@, key));
                                    assert(around_known(*g, *cfg, key));
                                    assert(neighbor_keys(*g, *cfg, key, f as nat) is Some);
                                }
                            }
                            return Err(TessError::UnknownNeighbour(key, f));
                        },
                        Some(ns) => {
                            lists.push(ns);
                        },
                    }
                    f = f + 1;
                }
                if table.len() == usize::MAX {
                    return Err(TessError::TooManyClusters);
                }
                table.push(key);
                pending.push(lists);
                proof {
                    assert(table@[table@.len() - 1] == key);
                    assert(quad_of(ei.edge.num())[q as int] == qe);
                    assert(quad_key(*g, *cfg, crossing@[k as int], q as int) == Some(key));
                    assert forall|v: int| 0 <= v < table@.len() implies #[trigger] from_quad(
                        *g,
                        *cfg,
                        crossing@,
                        table@[v],
                    ) by {
                        if v < before.len() {
                            assert(table@[v] == before[v]);
                            assert(from_quad(*g, *cfg, crossing@, before[v]));
                        }
                    }
                    assert forall|v: int|
                        0 <= v < table@.len() implies (#[trigger] pending@[v])@.len() == 6
                        && forall|f: int|
                        0 <= f < 6 ==> #[trigger] neighbor_keys(*g, *cfg, table@[v], f as nat)
                            == Some(pending@[v]@[f]@) by {
                        if v < before.len() {
                            assert(table@[v] == before[v]);
                        }
                    }
                }
            }
            proof {
                assert(table@.contains(key));
                assert forall|j: int, q2: int|
                    0 <= j < k && 0 <= q2 < 4 implies #[trigger] quad_covered(
                    *g,
                    *cfg,
                    table@,
                    crossing@[j],
                    q2,
                ) by {
                    let kk = key_for(*g, *cfg, quad_of(crossing@[j].edge.num())[q2].num(), quad_cell(crossing@[j], quad_of(crossing@[j].edge.num())[q2]))->0;
                    assert(quad_covered(*g, *cfg, before, crossing@[j], q2));
                    let w = choose|w: int| 0 <= w < before.len() && before[w] == kk;
                    assert(table@[w] == kk);
                }
                assert forall|q2: int| 0 <= q2 <= q implies quad_covered(*g, *cfg, table@, ei, q2) by {
                    if q2 < q {
                        let kk = key_for(*g, *cfg, quad_of(ei.edge.num())[q2].num(), quad_cell(ei, quad_of(ei.edge.num())[q2]))->0;
                        assert(quad_covered(*g, *cfg, before, ei, q2));
                        let w = choose|w: int| 0 <= w < before.len() && before[w] == kk;
                        assert(table@[w] == kk);
                    }
                }
            }
            q = q + 1;
        }
        k = k + 1;
    }
    let ghost keys = table@;
    let ghost pend = pending@;
    let leaves = match link_leaves(g, cfg, table, pending) {
        Ok(l) => l,
        Err(e) => {
            proof {
                if let TessError::UnmatchedNeighbour(x) = e {
                    let (v, f) = choose|v: int, f: int|
                        0 <= v < keys.len() && 0 <= f < 6 && (#[trigger] pend[v]@[f])@.contains(x);
                    assert(neighbor_keys(*g, *cfg, keys[v], f as nat) == Some(pend[v]@[f]@));
                    assert(neighbor_keys(*g, *cfg, keys[v], f as nat)->0.contains(x));
                    assert(from_quad(*g, *cfg, crossing@, keys[v]));
                    if leaves_buildable(*g, *cfg, crossing@) {
                        assert(around_quads(*g, *cfg, crossing@, keys[v]));
                    }
                    if from_quad(*g, *cfg, crossing@, x) {
                        let (k, q) = choose|k: int, q: int|
                            0 <= k < crossing@.len() && 0 <= q < 4 && #[trigger] quad_key(*g, *cfg, crossing@[k], q)
                                == Some(x);
                        assert(quad_covered(*g, *cfg, keys, crossing@[k], q));
                    }
                }
            }
            return Err(e);
        },
    };
    proof {
        lemma_leaves_geometric(*g, *cfg, leaves.keys@, leaves.clusters@);
        assert forall|v: int| 0 <= v < leaves.keys@.len() implies #[trigger] from_quad(
            *g,
            *cfg,
            crossing@,
            leaves.keys@[v],
        ) by {
            assert(from_quad(*g, *cfg, crossing@, keys[v]));
        }
    }
    if !check_links(&leaves.clusters) {
        proof {
            lemma_one_sided(*g, *cfg, leaves.keys@, leaves.clusters@);
            let (v, j, f) = choose|v: int, j: int, f: int|
                0 <= v < leaves.keys@.len() && 0 <= j < leaves.keys@.len() && #[trigger] one_sided(
                    *g,
                    *cfg,
                    leaves.keys@[v],
                    leaves.keys@[j],
                    f,
                );
            assert(from_quad(*g, *cfg, crossing@, leaves.keys@[v]));
            assert(from_quad(*g, *cfg, crossing@, leaves.keys@[j]));
        }
        return Err(TessError::OneSidedLink);
    }
    Ok(leaves)
}

proof fn lemma_one_sided(g: SignGrid, cfg: CellConfigs, keys: Seq<VertexIndex>, clusters: Seq<Cluster>)
    requires
        clusters.len() == keys.len(),
        keys.no_duplicates(),
        forall|v: int| 0 <= v < keys.len() ==> leaf_for(g, cfg, keys, keys[v], #[trigger] clusters[v]),
        !links_mutual(clusters),
    ensures
        exists|v: int, j: int, f: int|
            0 <= v < keys.len() && 0 <= j < keys.len() && #[trigger] one_sided(g, cfg, keys[v], keys[j], f),
{
    assert(layer_wf(clusters)) by {
        assert forall|v: int| 0 <= v < clusters.len() implies {
            &&& (#[trigger] clusters[v]).neighbors@.len() == 6
            &&& forall|f: int, t: int|
                0 <= f < 6 && 0 <= t < clusters[v].neighbors@[f]@.len() ==> #[trigger] clusters[v].neighbors@[f]@[t]
                    < clusters.len()
        } by {
            assert(leaf_for(g, cfg, keys, keys[v], clusters[v]));
            assert forall|f: int, t: int|
                0 <= f < 6 && 0 <= t < clusters[v].neighbors@[f]@.len() implies #[trigger] clusters[v].neighbors@[f]@[t]
                    < clusters.len() by {
                let ns = neighbor_keys(g, cfg, keys[v], f as nat)->0;
                assert(names(keys, clusters[v].neighbors@[f]@, ns));
            }
        }
    }
    let (v, f, t) = choose|v: int, f: int, t: int|
        0 <= v < clusters.len() && 0 <= f < 6 && 0 <= t < clusters[v].neighbors@[f]@.len() && !clusters[
            #[trigger] clusters[v].neighbors@[f]@[t] as int
        ].neighbors@[opposite(f)]@.contains(v as usize);
    let j = clusters[v].neighbors@[f]@[t] as int;
    assert(leaf_for(g, cfg, keys, keys[v], clusters[v]));
    let ns = neighbor_keys(g, cfg, keys[v], f as nat)->0;
    assert(names(keys, clusters[v].neighbors@[f]@, ns));
    assert(ns[t] == keys[j]);
    assert(ns.contains(keys[j]));
    assert(leaf_for(g, cfg, keys, keys[j], clusters[j]));
    let o = opposite(f);
    assert(0 <= o < 6);
    let ns2 = neighbor_keys(g, cfg, keys[j], o as nat)->0;
    assert(names(keys, clusters[j].neighbors@[o]@, ns2));
    if ns2.contains(keys[v]) {
        let s = choose|s: int| 0 <= s < ns2.len() && ns2[s] == keys[v];
        let i = clusters[j].neighbors@[o]@[s] as int;
        assert(keys[i] == keys[v]);
        assert(i == v);
        assert(clusters[j].neighbors@[o]@.contains(v as usize));
    }
    assert(one_sided(g, cfg, keys[v], keys[j], f));
}

proof fn lemma_leaves_geometric(g: SignGrid, cfg: CellConfigs, keys: Seq<VertexIndex>, clusters: Seq<Cluster>)
    requires
        clusters.len() == keys.len(),
        forall|v: int| 0 <= v < keys.len() ==> leaf_for(g, cfg, keys, keys[v], #[trigger] clusters[v]),
    ensures
        links_geometric(clusters),
{
    assert forall|v: int, f: int, t: int|
        0 <= v < clusters.len() && 0 <= f < 6 && 0 <= t < clusters[v].neighbors@[f]@.len() implies cell_across(
        clusters[v].index,
        f as nat,
    ) == Some(clusters[#[trigger] clusters[v].neighbors@[f]@[t] as int].index) by {
        assert(leaf_for(g, cfg, keys, keys[v], clusters[v]));
        let ns = neighbor_keys(g, cfg, keys[v], f as nat)->0;
        assert(names(keys, clusters[v].neighbors@[f]@, ns));
        let j = clusters[v].neighbors@[f]@[t] as int;
        assert(keys[j] == ns[t]);
        assert(leaf_for(g, cfg, keys, keys[j], clusters[j]));
    }
}

/// Second stage of the leaf builder: turns the neighbour components of each
/// leaf into positions among the leaves.
fn link_leaves(
    g: &SignGrid,
    cfg: &CellConfigs,
    table: KeyTable,
    pending: Vec<Vec<Vec<VertexIndex>>>,
) -> (r: Result<Leaves, TessError>)
    requires
        table.wf(),
        pending@.len() == table@.len(),
        forall|v: int|
            0 <= v < table@.len() ==> (#[trigger] pending@[v])@.len() == 6 && forall|f: int|
                0 <= f < 6 ==> #[trigger] neighbor_keys(*g, *cfg, table@[v], f as nat) == Some(
                    pending@[v]@[f]@,
                ),
    ensures
        match r {
            Ok(leaves) => {
                &&& leaves.keys@ == table@
                &&& leaves.keys@.no_duplicates()
                &&& leaves.clusters@.len() == leaves.keys@.len()
                &&& forall|v: int|
                    0 <= v < leaves.keys@.len() ==> leaf_for(
                        *g,
                        *cfg,
                        leaves.keys@,
                        leaves.keys@[v],
                        #[trigger] leaves.clusters@[v],
                    )
            },
            Err(TessError::UnmatchedNeighbour(x)) => !table@.contains(x) && exists|v: int, f: int|
                0 <= v < table@.len() && 0 <= f < 6 && (#[trigger] pending@[v]@[f])@.contains(x),
            Err(_) => false,
        },
{
    let n = table.len();
    let mut clusters: Vec<Cluster> = Vec::new();
    let mut v: usize = 0;
    while v < n
        invariant
            table.wf(),
            n == table@.len(),
            pending@.len() == n,
            forall|v: int|
                0 <= v < table@.len() ==> (#[trigger] pending@[v])@.len() == 6 && forall|f: int|
                    0 <= f < 6 ==> #[trigger] neighbor_keys(*g, *cfg, table@[v], f as nat) == Some(
                        pending@[v]@[f]@,
                    ),
            v <= n,
            clusters@.len() == v,
            forall|u: int|
                0 <= u < v ==> leaf_for(*g, *cfg, table@, table@[u], #[trigger] clusters@[u]),
        decreases n - v,
    {
        let key = table.key(v);
        let mut neighbors: Vec<Vec<usize>> = Vec::new();
        let mut f: usize = 0;
        while f < 6
            invariant
                table.wf(),
                n == table@.len(),
                v < n,
                key == table@[v as int],
                pending@.len() == n,
                pending@[v as int]@.len() == 6,
                forall|f: int|
                    0 <= f < 6 ==> #[trigger] neighbor_keys(*g, *cfg, key, f as nat) == Some(
                        pending@[v as int]@[f]@,
                    ),
                f <= 6,
                neighbors@.len() == f,
                forall|f2: int|
                    0 <= f2 < f ==> names(table@, (#[trigger] neighbors@[f2])@, pending@[v as int]@[f2]@),
            decreases 6 - f,
        {
            let ns = &pending[v][f];
            let mut ids: Vec<usize> = Vec::new();
            let mut t: usize = 0;
            while t < ns.len()
                invariant
                    table.wf(),
                    n == table@.len(),
                    t <= ns@.len(),
                    v < n,
                    0 <= f < 6,
                    pending@.len() == n,
                    ns@ == pending@[v as int]@[f as int]@,
                    ids@.len() == t,
                    forall|t2: int|
                        0 <= t2 < t ==> #[trigger] ids@[t2] < n && table@[ids@[t2] as int] == ns@[t2],
                decreases ns@.len() - t,
            {
                match table.find(&ns[t]) {
                    None => {
                        proof {
                            assert(pending@[v as int]@[f as int]@[t as int] == ns@[t as int]);
                            assert(pending@[v as int]@[f as int]@.contains(ns@[t as int]));
                        }
                        return Err(TessError::UnmatchedNeighbour(ns[t]));
                    },
                    Some(i) => {
                        ids.push(i);
                    },
                }
                t = t + 1;
            }
            neighbors.push(ids);
            f = f + 1;
        }
        clusters.push(Cluster { index: key.index, neighbors, parent: None, children: Vec::new() });
        proof {
            assert forall|u: int|
                0 <= u <= v implies leaf_for(*g, *cfg, table@, table@[u], #[trigger] clusters@[u]) by {
                if u == v {
                    let c = clusters@[u];
                    assert forall|f: int|
                        0 <= f < 6 implies match #[trigger] neighbor_keys(*g, *cfg, table@[u], f as nat) {
                        Some(ns) => names(table@, c.neighbors@[f]@, ns),
                        None => false,
                    } by {
                        assert(names(table@, neighbors@[f]@, pending@[v as int]@[f]@));
                    }
                }
            }
        }
        v = v + 1;
    }
    let keys = table.into_keys();
    Ok(Leaves { keys, clusters })
}

} // verus!
