use vstd::prelude::*;
use crate::cells::{CellConfigs, VertexIndex};
use crate::edge::{EdgeIndex, offset_of, quad_edges, quad_of};
use crate::grid::SignGrid;
use crate::keys::KeyTable;
use crate::leaves::{TessError, cluster_key, key_for, quad_cell};

verus! {

/// The component of the cell of quad edge `q` (0 to 3) around the canonical
/// edge `ei`, if that cell lies in the grid and has one.
pub open spec fn quad_key(g: SignGrid, cfg: CellConfigs, ei: EdgeIndex, q: int) -> Option<VertexIndex> {
    let qe = quad_of(ei.edge.num())[q];
    if ei.index.can_sub(offset_of(qe.num())) {
        key_for(g, cfg, qe.num(), quad_cell(ei, qe))
    } else {
        None
    }
}

/// Whether all four clusters around `ei` exist.
pub open spec fn quad_exists(g: SignGrid, cfg: CellConfigs, ei: EdgeIndex) -> bool {
    forall|q: int| 0 <= q < 4 ==> #[trigger] quad_key(g, cfg, ei, q) is Some
}

/// The corners `ks` of a quad in winding order, turned round where the field
/// is negative at the edge's lower end.
pub open spec fn oriented(ks: Seq<VertexIndex>, negative: bool) -> Seq<VertexIndex> {
    if negative {
        seq![ks[3], ks[2], ks[1], ks[0]]
    } else {
        ks
    }
}

/// Where the field is negative at an edge's lower end, its quad's corners
/// come in the reverse of the order they have where it is not, so the two
/// triangles wind the other way round.
pub proof fn quad_winding_reverses(ks: Seq<VertexIndex>)
    requires
        ks.len() == 4,
    ensures
        oriented(ks, true) == oriented(ks, false).reverse(),
        oriented(ks, false) == ks,
{
    assert(oriented(ks, true) =~= ks.reverse());
}

/// The four clusters around `ei`, in the fixed winding order.
pub open spec fn quad_keys(g: SignGrid, cfg: CellConfigs, ei: EdgeIndex) -> Seq<VertexIndex> {
    seq![
        quad_key(g, cfg, ei, 0)->0,
        quad_key(g, cfg, ei, 1)->0,
        quad_key(g, cfg, ei, 2)->0,
        quad_key(g, cfg, ei, 3)->0,
    ]
}

/// The corners of the quad dual to `ei`, in the order its faces use them.
pub open spec fn quad_corners(g: SignGrid, cfg: CellConfigs, ei: EdgeIndex) -> Seq<VertexIndex> {
    oriented(quad_keys(g, cfg, ei), g.sign_at(ei.index) == Some(true))
}

/// The four clusters of the quad dual to the canonical edge `ei`, in
/// winding order, reversed where the field is negative at `ei`'s lower end.
pub fn compute_quad(g: &SignGrid, cfg: &CellConfigs, ei: EdgeIndex) -> (r: Result<
    Vec<VertexIndex>,
    TessError,
>)
    requires
        g.wf(),
        ei.edge.num() < 3,
    ensures
        match r {
            Ok(ks) => quad_exists(*g, *cfg, ei) && ks@ == quad_corners(*g, *cfg, ei),
            Err(TessError::OnBoundary(e)) => e == ei && exists|q: int|
                0 <= q < 4 && !ei.index.can_sub(offset_of((#[trigger] quad_of(ei.edge.num())[q]).num())),
            Err(TessError::NoCluster(e)) => e == ei && exists|q: int|
                0 <= q < 4 && key_for(
                    *g,
                    *cfg,
                    (#[trigger] quad_of(e.edge.num())[q]).num(),
                    quad_cell(e, quad_of(e.edge.num())[q]),
                ) is None,
            Err(_) => false,
        },
        r is Ok <==> quad_exists(*g, *cfg, ei),
{
    let quad = quad_edges(ei.edge.to_usize());
    let mut ks: Vec<VertexIndex> = Vec::new();
    let mut q: usize = 0;
    while q < 4
        invariant
            g.wf(),
            quad@ == quad_of(ei.edge.num()),
            q <= 4,
            ks@.len() == q,
            forall|j: int| 0 <= j < q ==> quad_key(*g, *cfg, ei, j) == Some(#[trigger] ks@[j]),
        decreases 4 - q,
    {
        let qe = quad[q];
        let cell = match ei.index.neg_offset(qe.offset()) {
            None => {
                assert(quad_of(ei.edge.num())[q as int] == qe);
                assert(quad_key(*g, *cfg, ei, q as int) is None);
                return Err(TessError::OnBoundary(ei));
            },
            Some(c) => c,
        };
        match cluster_key(g, cfg, qe, cell) {
            None => {
                assert(quad_of(ei.edge.num())[q as int] == qe);
                assert(quad_key(*g, *cfg, ei, q as int) is None);
                return Err(TessError::NoCluster(ei));
            },
            Some(k) => {
                ks.push(k);
            },
        }
        q = q + 1;
    }
    assert(ks@ == quad_keys(*g, *cfg, ei));
    if g.get(ei.index) == Some(true) {
        let mut rev: Vec<VertexIndex> = Vec::new();
        rev.push(ks[3]);
        rev.push(ks[2]);
        rev.push(ks[1]);
        rev.push(ks[0]);
        assert(rev@ == quad_corners(*g, *cfg, ei));
        Ok(rev)
    } else {
        Ok(ks)
    }
}

/// The faces and vertices of the mesh, with each vertex named by the
/// cluster it stands for.
pub struct MeshTopology {
    /// The distinct clusters that the faces use, each once.
    pub vertices: Vec<VertexIndex>,
    /// Triangles, as positions in `vertices`.
    pub faces: Vec<(usize, usize, usize)>,
}

/// Whether face `fc` names, through `vs`, the corners `a`, `b`, `c`.
pub open spec fn face_is(vs: Seq<VertexIndex>, fc: (usize, usize, usize), a: VertexIndex, b: VertexIndex, c: VertexIndex) -> bool {
    &&& fc.0 < vs.len() && fc.1 < vs.len() && fc.2 < vs.len()
    &&& vs[fc.0 as int] == a && vs[fc.1 as int] == b && vs[fc.2 as int] == c
}

/// Whether faces `2k` and `2k + 1` split the quad with corners `ks` into the
/// triangles `(k0, k1, k2)` and `(k2, k3, k0)`.
pub open spec fn quad_faces(vs: Seq<VertexIndex>, faces: Seq<(usize, usize, usize)>, k: int, ks: Seq<VertexIndex>) -> bool {
    &&& face_is(vs, faces[2 * k], ks[0], ks[1], ks[2])
    &&& face_is(vs, faces[2 * k + 1], ks[2], ks[3], ks[0])
}

/// Whether `key` is a corner of the quad of one of the first `n` edges.
pub open spec fn used_by(g: SignGrid, cfg: CellConfigs, crossing: Seq<EdgeIndex>, n: int, key: VertexIndex) -> bool {
    exists|k: int, c: int| 0 <= k < n && 0 <= c < 4 && #[trigger] quad_corners(g, cfg, crossing[k])[c] == key
}

/// Position of `k` in `table`, added at the end where it is new.
fn vertex_for(table: &mut KeyTable, k: VertexIndex) -> (r: Option<usize>)
    requires
        old(table).wf(),
    ensures
        final(table).wf(),
        match r {
            Some(i) => i < final(table)@.len() && final(table)@[i as int] == k,
            None => final(table)@ == old(table)@ && old(table)@.len() == usize::MAX,
        },
        final(table)@ == old(table)@ || final(table)@ == old(table)@.push(k),
        final(table)@.len() >= old(table)@.len(),
        forall|j: int| 0 <= j < old(table)@.len() ==> #[trigger] final(table)@[j] == old(table)@[j],
{
    match table.find(&k) {
        Some(i) => Some(i),
        None => {
            if table.len() == usize::MAX {
                return None;
            }
            let i = table.push(k);
            Some(i)
        },
    }
}

/// Emits, for each canonical crossing edge in turn, the two triangles of its
/// dual quad; the quad's corners are the clusters of the four cells around
/// the edge, turned round where the field is negative at the edge's lower end.
pub fn mesh_topology(g: &SignGrid, cfg: &CellConfigs, crossing: &Vec<EdgeIndex>) -> (r: Result<
    MeshTopology,
    TessError,
>)
    requires
        g.wf(),
        forall|k: int| 0 <= k < crossing@.len() ==> (#[trigger] crossing@[k]).edge.num() < 3,
    ensures
        match r {
            Ok(m) => {
                &&& m.vertices@.no_duplicates()
                &&& forall|v: int|
                    0 <= v < m.vertices@.len() ==> #[trigger] used_by(
                        *g,
                        *cfg,
                        crossing@,
                        crossing@.len() as int,
                        m.vertices@[v],
                    )
                &&& m.faces@.len() == 2 * crossing@.len()
                &&& forall|k: int|
                    0 <= k < crossing@.len() ==> quad_exists(*g, *cfg, #[trigger] crossing@[k])
                        && quad_faces(m.vertices@, m.faces@, k, quad_corners(*g, *cfg, crossing@[k]))
            },
            Err(TessError::OnBoundary(e)) => crossing@.contains(e) && exists|q: int|
                0 <= q < 4 && !e.index.can_sub(offset_of((#[trigger] quad_of(e.edge.num())[q]).num())),
            Err(TessError::NoCluster(e)) => crossing@.contains(e) && exists|q: int|
                0 <= q < 4 && key_for(
                    *g,
                    *cfg,
                    (#[trigger] quad_of(e.edge.num())[q]).num(),
                    quad_cell(e, quad_of(e.edge.num())[q]),
                ) is None,
            Err(TessError::TooManyClusters) => 4 * crossing@.len() >= usize::MAX,
            Err(_) => false,
        },
        (forall|k: int| 0 <= k < crossing@.len() ==> quad_exists(*g, *cfg, #[trigger] crossing@[k]))
            && 4 * crossing@.len() < usize::MAX ==> r is Ok,
{
    let mut table = KeyTable::new();
    let mut faces: Vec<(usize, usize, usize)> = Vec::new();
    let mut k: usize = 0;
    while k < crossing.len()
        invariant
            g.wf(),
            forall|k: int| 0 <= k < crossing@.len() ==> (#[trigger] crossing@[k]).edge.num() < 3,
            k <= crossing@.len(),
            table.wf(),
            forall|v: int| 0 <= v < table@.len() ==> #[trigger] used_by(*g, *cfg, crossing@, k as int, table@[v]),
            table@.len() <= 4 * k,
            faces@.len() == 2 * k,
            forall|j: int|
                0 <= j < k ==> quad_exists(*g, *cfg, #[trigger] crossing@[j]) && quad_faces(
                    table@,
                    faces@,
                    j,
                    quad_corners(*g, *cfg, crossing@[j]),
                ),
        decreases crossing@.len() - k,
    {
        let ei = crossing[k];
        let ks = match compute_quad(g, cfg, ei) {
            Ok(ks) => ks,
            Err(e) => {
                proof {
                    assert(crossing@[k as int] == ei);
                }
                return Err(e);
            },
        };
        let ghost t0 = table@;
        proof {
            assert forall|v: int| 0 <= v < table@.len() implies #[trigger] used_by(*g, *cfg, crossing@, k + 1, table@[v]) by {
                assert(used_by(*g, *cfg, crossing@, k as int, table@[v]));
            }
        }
        let mut ids: Vec<usize> = Vec::new();
        let mut c: usize = 0;
        while c < 4
            invariant
                table.wf(),
                k < crossing@.len(),
                ei == crossing@[k as int],
                ks@ == quad_corners(*g, *cfg, ei),
                forall|v: int| 0 <= v < table@.len() ==> #[trigger] used_by(*g, *cfg, crossing@, k + 1, table@[v]),
                ks@.len() == 4,
                c <= 4,
                table@.len() <= 4 * k + c,
                ids@.len() == c,
                table@.len() >= t0.len(),
                forall|j: int| 0 <= j < t0.len() ==> #[trigger] table@[j] == t0[j],
                forall|j: int| 0 <= j < c ==> #[trigger] ids@[j] < table@.len() && table@[ids@[j] as int] == ks@[j],
            decreases 4 - c,
        {
            let ghost before = table@;
            proof {
                assert(quad_corners(*g, *cfg, crossing@[k as int])[c as int] == ks@[c as int]);
                assert(used_by(*g, *cfg, crossing@, k + 1, ks@[c as int]));
            }
            match vertex_for(&mut table, ks[c]) {
                Some(i) => {
                    ids.push(i);
                },
                None => {
                    return Err(TessError::TooManyClusters);
                },
            }
            proof {
                assert forall|j: int| 0 <= j < c implies #[trigger] ids@[j] < table@.len() && table@[ids@[j] as int] == ks@[j] by {
                    assert(before[ids@[j] as int] == ks@[j]);
                }
                assert forall|v: int| 0 <= v < table@.len() implies #[trigger] used_by(*g, *cfg, crossing@, k + 1, table@[v]) by {
                    if v < before.len() {
                        assert(table@[v] == before[v]);
                        assert(used_by(*g, *cfg, crossing@, k + 1, before[v]));
                    } else {
                        assert(table@[v] == ks@[c as int]);
                    }
                }
            }
            c = c + 1;
        }
        let i0 = ids[0];
        let i1 = ids[1];
        let i2 = ids[2];
        let i3 = ids[3];
        let ghost prev_faces = faces@;
        faces.push((i0, i1, i2));
        faces.push((i2, i3, i0));
        proof {
            assert forall|j: int|
                0 <= j <= k implies quad_exists(*g, *cfg, #[trigger] crossing@[j]) && quad_faces(
                table@,
                faces@,
                j,
                quad_corners(*g, *cfg, crossing@[j]),
            ) by {
                if j < k {
                    assert(quad_faces(t0, prev_faces, j, quad_corners(*g, *cfg, crossing@[j])));
                    assert(faces@[2 * j] == prev_faces[2 * j]);
                    assert(faces@[2 * j + 1] == prev_faces[2 * j + 1]);
                    let fc = faces@[2 * j];
                    assert(table@[fc.0 as int] == t0[fc.0 as int]);
                    assert(table@[fc.1 as int] == t0[fc.1 as int]);
                    assert(table@[fc.2 as int] == t0[fc.2 as int]);
                    let fd = faces@[2 * j + 1];
                    assert(table@[fd.0 as int] == t0[fd.0 as int]);
                    assert(table@[fd.1 as int] == t0[fd.1 as int]);
                    assert(table@[fd.2 as int] == t0[fd.2 as int]);
                }
            }
        }
        k = k + 1;
    }
    let ghost keys = table@;
    let vertices = table.into_keys();
    proof {
        assert forall|v: int| 0 <= v < vertices@.len() implies #[trigger] used_by(
            *g,
            *cfg,
            crossing@,
            crossing@.len() as int,
            vertices@[v],
        ) by {
            assert(used_by(*g, *cfg, crossing@, crossing@.len() as int, keys[v]));
        }
    }
    Ok(MeshTopology { vertices, faces })
}

} // verus!
