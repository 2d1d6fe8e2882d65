use xplicit_dmc::bitset::BitSet;
use xplicit_dmc::cells::{
    edges_across, find_connected_edges, get_connected_edges, get_connected_edges_from_edge_set, neighbor_cell,
    CellConfigs,
};
use xplicit_dmc::edge::{Edge, EdgeIndex, Index};

// The two ends of each edge, as corner numbers (bit 0: +x, bit 1: +y, bit 2: +z).
const EDGE_CORNERS: [(usize, usize); 12] = [
    (0, 1),
    (0, 2),
    (0, 4),
    (2, 3),
    (1, 3),
    (1, 5),
    (4, 5),
    (4, 6),
    (2, 6),
    (6, 7),
    (5, 7),
    (3, 7),
];

/// A table that groups the crossing edges of a cell by the edge-connected
/// components of its negative corners.
pub fn component_table() -> CellConfigs {
    let mut table = Vec::new();
    for pattern in 0..256usize {
        let negative = |c: usize| pattern & (1 << c) != 0;
        let mut comp = [usize::MAX; 8];
        let mut sets = Vec::new();
        for start in 0..8 {
            if !negative(start) || comp[start] != usize::MAX {
                continue;
            }
            let id = sets.len();
            comp[start] = id;
            let mut stack = vec![start];
            while let Some(c) = stack.pop() {
                for &(a, b) in EDGE_CORNERS.iter() {
                    let other = if a == c {
                        b
                    } else if b == c {
                        a
                    } else {
                        continue;
                    };
                    if negative(other) && comp[other] == usize::MAX {
                        comp[other] = id;
                        stack.push(other);
                    }
                }
            }
            let mut set = BitSet::zero();
            for (e, &(a, b)) in EDGE_CORNERS.iter().enumerate() {
                if negative(a) != negative(b) && (comp[a] == id || comp[b] == id) {
                    set.set(e);
                }
            }
            sets.push(set);
        }
        table.push(sets);
    }
    CellConfigs { table }
}

#[test]
fn connected_edges() {
    let cfg = component_table();
    let cell = BitSet::from_4bits(0, 6, 3, 5);
    let edge_set = BitSet::from_4bits(4, 5, 10, 11);
    let connected_edges = get_connected_edges_from_edge_set(edge_set, cell, &cfg);
    assert_eq!(connected_edges.len(), 2);
    assert!(connected_edges.contains(&BitSet::from_4bits(5, 5, 6, 10)));
    assert!(connected_edges.contains(&BitSet::from_4bits(3, 3, 4, 11)));
}

#[test]
fn component_table_isolated_corners() {
    let cfg = component_table();
    let cell = BitSet::from_4bits(0, 6, 3, 5);
    let sets = &cfg.table[cell.as_u32() as usize];
    assert_eq!(sets.len(), 4);
    assert!(sets.contains(&BitSet::from_4bits(0, 0, 1, 2)));
    assert!(sets.contains(&BitSet::from_4bits(7, 7, 8, 9)));
}

#[test]
fn connected_edges_finds_set_holding_edge() {
    let cfg = component_table();
    let cell = BitSet::from_4bits(0, 6, 3, 5);
    assert_eq!(get_connected_edges(10, cell, &cfg), BitSet::from_4bits(5, 5, 6, 10));
    assert_eq!(find_connected_edges(10, cell, &cfg), Some(BitSet::from_4bits(5, 5, 6, 10)));
    assert_eq!(get_connected_edges(8, cell, &cfg), BitSet::from_4bits(7, 7, 8, 9));
    // A cell with no negative corner has no surface component.
    assert_eq!(find_connected_edges(0, BitSet::zero(), &cfg), None);
}

#[test]
fn connected_edges_from_empty_set_is_empty() {
    let cfg = component_table();
    let cell = BitSet::from_4bits(0, 0, 0, 0);
    assert!(get_connected_edges_from_edge_set(BitSet::zero(), cell, &cfg).is_empty());
}

#[test]
fn connected_edges_out_of_table() {
    let cfg = CellConfigs { table: Vec::new() };
    assert_eq!(find_connected_edges(0, BitSet::from_4bits(0, 0, 0, 0), &cfg), None);
    let none = get_connected_edges_from_edge_set(
        BitSet::from_4bits(0, 1, 2, 2),
        BitSet::from_4bits(0, 0, 0, 0),
        &cfg,
    );
    assert!(none.is_empty());
}

#[test]
fn edges_across_faces() {
    // The -x face of a cell holds B, C, H, I; across it they are E, F, K, L.
    let es = BitSet::from_4bits(1, 2, 7, 8);
    assert_eq!(edges_across(es, 0), BitSet::from_4bits(4, 5, 10, 11));
    assert_eq!(edges_across(BitSet::from_4bits(4, 5, 10, 11), 1), es);
    // -y: A, C, F, G become D, I, L, J.
    assert_eq!(edges_across(BitSet::from_4bits(0, 2, 5, 6), 2), BitSet::from_4bits(3, 8, 11, 9));
    // +z: G, H, J, K become A, B, D, E.
    assert_eq!(edges_across(BitSet::from_4bits(6, 7, 9, 10), 5), BitSet::from_4bits(0, 1, 3, 4));
    // Edges not on the face are dropped.
    assert_eq!(edges_across(BitSet::from_4bits(0, 3, 6, 9), 0), BitSet::zero());
}

#[test]
fn neighbor_cells() {
    let i = Index { x: 0, y: 5, z: 7 };
    assert_eq!(neighbor_cell(i, 0), None);
    assert_eq!(neighbor_cell(i, 1), Some(Index { x: 1, y: 5, z: 7 }));
    assert_eq!(neighbor_cell(i, 2), Some(Index { x: 0, y: 4, z: 7 }));
    assert_eq!(neighbor_cell(i, 5), Some(Index { x: 0, y: 5, z: 8 }));
}

#[test]
fn edge_numbers_and_bases() {
    for e in 0..12 {
        let edge = Edge::from_usize(e);
        assert_eq!(edge.to_usize(), e);
        let base = edge.base();
        assert!(base == Edge::A || base == Edge::B || base == Edge::C);
        assert_eq!(base.to_usize(), e % 3);
    }
    assert_eq!(Edge::L.base(), Edge::C);
    assert_eq!(Edge::J.base(), Edge::A);
    assert_eq!(Edge::K.offset(), Index { x: 1, y: 0, z: 1 });
}

#[test]
fn edge_index_base() {
    let ei = EdgeIndex { edge: Edge::K, index: Index { x: 3, y: 4, z: 5 } };
    assert_eq!(ei.base(), EdgeIndex { edge: Edge::B, index: Index { x: 4, y: 4, z: 6 } });
    let ei = EdgeIndex { edge: Edge::C, index: Index { x: 3, y: 4, z: 5 } };
    assert_eq!(ei.base(), ei);
}

#[test]
fn bitset_operations() {
    let a = BitSet::from_4bits(1, 3, 5, 5);
    let b = BitSet::from_4bits(3, 4, 5, 6);
    assert_eq!(a.as_u32(), 0b101010);
    assert_eq!(a.merge(b), BitSet::from_4bits(1, 3, 4, 6).merge(BitSet::from_4bits(5, 5, 5, 5)));
    assert_eq!(a.intersect(b), BitSet::from_4bits(3, 5, 5, 5));
    assert!(a.meets_exec(b));
    assert!(!a.meets_exec(BitSet::from_4bits(0, 2, 4, 6)));
    assert!(BitSet::zero().empty());
    assert!(!a.empty());
    assert!(a.get(3) && !a.get(4) && !a.get(40));
    assert_eq!(a.members(), vec![1, 3, 5]);
}

use std::collections::HashSet;
use xplicit_dmc::cells::VertexIndex;
use xplicit_dmc::grid::SignGrid;
use xplicit_dmc::keys::KeyTable;
use xplicit_dmc::leaves::{generate_leaf_vertices, Cluster, TessError};
use xplicit_dmc::octree::{build_layers, check_links, subsample_octree};
use xplicit_dmc::quads::{compute_quad, mesh_topology};
use xplicit_dmc::topology::build_topology;
use xplicit_dmc::grid::crossing_edges;

fn ix(x: usize, y: usize, z: usize) -> Index {
    Index { x, y, z }
}

/// A fully sampled grid, negative inside the ball of radius `r` around `c`.
fn ball_grid(side: usize, c: [f64; 3], r: f64) -> SignGrid {
    let mut g = SignGrid::new(side);
    for z in 0..side {
        for y in 0..side {
            for x in 0..side {
                let d = [x as f64 - c[0], y as f64 - c[1], z as f64 - c[2]];
                let inside = d[0] * d[0] + d[1] * d[1] + d[2] * d[2] < r * r;
                g.insert(ix(x, y, z), inside);
            }
        }
    }
    g
}

fn euler_characteristic(vertices: usize, faces: &[(usize, usize, usize)]) -> i64 {
    let mut edges = HashSet::new();
    for &(a, b, c) in faces {
        for (p, q) in [(a, b), (b, c), (c, a)] {
            edges.insert((p.min(q), p.max(q)));
        }
    }
    vertices as i64 - edges.len() as i64 + faces.len() as i64
}

#[test]
fn ball_mesh_is_a_closed_surface() {
    let cfg = component_table();
    let g = ball_grid(16, [7.4, 7.3, 7.6], 4.2);
    let t = build_topology(&g, &cfg).unwrap();
    assert!(!t.crossing.is_empty());
    assert_eq!(t.mesh.faces.len(), 2 * t.crossing.len());
    let mut used = vec![false; t.mesh.vertices.len()];
    for &(a, b, c) in t.mesh.faces.iter() {
        used[a] = true;
        used[b] = true;
        used[c] = true;
    }
    assert!(used.iter().all(|&u| u));
    assert_eq!(euler_characteristic(t.mesh.vertices.len(), &t.mesh.faces), 2);
}

#[test]
fn ball_octree_layers() {
    let cfg = component_table();
    let g = ball_grid(16, [7.4, 7.3, 7.6], 4.2);
    let t = build_topology(&g, &cfg).unwrap();
    assert!(t.layers.len() >= 2);
    assert!(t.layers.len() <= 6);
    for k in 0..t.layers.len() {
        assert!(check_links(&t.layers[k]));
    }
    for k in 0..t.layers.len() - 1 {
        let (below, above) = (&t.layers[k], &t.layers[k + 1]);
        assert!(above.len() < below.len());
        for (i, c) in below.iter().enumerate() {
            let p = c.parent.unwrap();
            assert!(above[p].children.contains(&i));
            let h = above[p].index;
            assert_eq!(h, c.index.half());
        }
    }
    assert!(t.layers.last().unwrap().iter().all(|c| c.parent.is_none()));
}

#[test]
fn two_balls_make_two_components() {
    let cfg = component_table();
    let mut g = SignGrid::new(20);
    for z in 0..20 {
        for y in 0..20 {
            for x in 0..20 {
                let f = |cx: f64| {
                    let d = [x as f64 - cx, y as f64 - 9.6, z as f64 - 9.7];
                    d[0] * d[0] + d[1] * d[1] + d[2] * d[2] < 9.0
                };
                g.insert(ix(x, y, z), f(5.3) || f(14.4));
            }
        }
    }
    let t = build_topology(&g, &cfg).unwrap();
    // Union-find over the mesh's vertices.
    let n = t.mesh.vertices.len();
    let mut up: Vec<usize> = (0..n).collect();
    fn root(up: &mut Vec<usize>, mut a: usize) -> usize {
        while up[a] != a {
            a = up[a];
        }
        a
    }
    for &(a, b, c) in t.mesh.faces.iter() {
        for (p, q) in [(a, b), (b, c)] {
            let (rp, rq) = (root(&mut up, p), root(&mut up, q));
            up[rp] = rq;
        }
    }
    let roots: HashSet<usize> = (0..n).map(|v| root(&mut up, v)).collect();
    assert_eq!(roots.len(), 2);
    assert_eq!(euler_characteristic(n, &t.mesh.faces), 4);
}

#[test]
fn all_positive_field_has_no_faces() {
    let cfg = component_table();
    let g = ball_grid(8, [3.5, 3.5, 3.5], 0.0);
    let t = build_topology(&g, &cfg).unwrap();
    assert!(t.crossing.is_empty());
    assert!(t.mesh.faces.is_empty());
    assert!(t.mesh.vertices.is_empty());
}

#[test]
fn quad_winding_turns_with_sign() {
    let cfg = component_table();
    // One negative corner at (2, 2, 2).
    let mut g = SignGrid::new(5);
    for z in 0..5 {
        for y in 0..5 {
            for x in 0..5 {
                g.insert(ix(x, y, z), (x, y, z) == (2, 2, 2));
            }
        }
    }
    // Edge A at (2,2,2): the field is negative at its lower end.
    let neg = compute_quad(&g, &cfg, EdgeIndex { edge: Edge::A, index: ix(2, 2, 2) }).unwrap();
    // Edge A at (1,2,2): positive at its lower end.
    let pos = compute_quad(&g, &cfg, EdgeIndex { edge: Edge::A, index: ix(1, 2, 2) }).unwrap();
    let cells_neg: Vec<Index> = neg.iter().map(|k| k.index).collect();
    let cells_pos: Vec<Index> = pos.iter().map(|k| k.index).collect();
    // Winding A, G, J, D around the edge, turned round for the negative one.
    assert_eq!(cells_pos, vec![ix(1, 2, 2), ix(1, 2, 1), ix(1, 1, 1), ix(1, 1, 2)]);
    assert_eq!(cells_neg, vec![ix(2, 1, 2), ix(2, 1, 1), ix(2, 2, 1), ix(2, 2, 2)]);
    // Each cell holds one component: the three edges at the negative corner.
    assert!(neg.iter().chain(pos.iter()).all(|k| k.edges.members().len() == 3));
}

#[test]
fn quad_at_grid_origin_is_on_boundary() {
    let cfg = component_table();
    let mut g = SignGrid::new(4);
    for z in 0..4 {
        for y in 0..4 {
            for x in 0..4 {
                g.insert(ix(x, y, z), (x, y, z) == (0, 2, 2));
            }
        }
    }
    let e = EdgeIndex { edge: Edge::B, index: ix(0, 1, 2) };
    assert_eq!(compute_quad(&g, &cfg, e), Err(TessError::OnBoundary(e)));
    let crossing = crossing_edges(&g);
    assert!(matches!(mesh_topology(&g, &cfg, &crossing), Err(TessError::OnBoundary(_))));
    // The leaf builder first meets a cluster whose -x face is the grid's edge.
    assert!(matches!(
        generate_leaf_vertices(&g, &cfg, &crossing),
        Err(TessError::UnknownNeighbour(_, 0))
    ));
    assert!(matches!(build_topology(&g, &cfg), Err(TessError::UnknownNeighbour(_, 0))));
}

#[test]
fn unsampled_cell_has_no_cluster() {
    let cfg = component_table();
    let mut g = SignGrid::new(4);
    g.insert(ix(1, 1, 1), true);
    g.insert(ix(2, 1, 1), false);
    let e = EdgeIndex { edge: Edge::A, index: ix(1, 1, 1) };
    let crossing = crossing_edges(&g);
    assert_eq!(crossing, vec![e]);
    assert_eq!(generate_leaf_vertices(&g, &cfg, &crossing).err(), Some(TessError::NoCluster(e)));
    assert_eq!(compute_quad(&g, &cfg, e), Err(TessError::NoCluster(e)));
}

#[test]
fn unsampled_neighbour_cell_is_reported() {
    let cfg = component_table();
    // Sample only the 3x3x3 block around the negative corner (1,1,1): the
    // cells across the block's outer faces are not fully known.
    let mut g = SignGrid::new(4);
    for z in 0..3 {
        for y in 0..3 {
            for x in 0..3 {
                g.insert(ix(x, y, z), (x, y, z) == (1, 1, 1));
            }
        }
    }
    let crossing = crossing_edges(&g);
    assert_eq!(crossing.len(), 6);
    // Every cell touching (1,1,1) is known; its component's edges on outer
    // faces lead to cells of the block, so linking succeeds.
    let leaves = generate_leaf_vertices(&g, &cfg, &crossing).unwrap();
    assert_eq!(leaves.keys.len(), 8);
    assert_eq!(leaves.clusters.len(), 8);
    for c in leaves.clusters.iter() {
        assert_eq!(c.neighbors.iter().map(|n| n.len()).sum::<usize>(), 3);
    }
    // Now drop the far corner of the cell at (2,2,2): the component of the
    // cell below it reaches across its +z face into a cell that is not known.
    let mut h = SignGrid::new(5);
    for z in 0..4 {
        for y in 0..4 {
            for x in 0..4 {
                if (x, y, z) != (3, 3, 3) {
                    h.insert(ix(x, y, z), (x, y, z) == (1, 1, 1) || (x, y, z) == (2, 2, 2));
                }
            }
        }
    }
    let crossing = crossing_edges(&h);
    assert!(matches!(
        generate_leaf_vertices(&h, &cfg, &crossing),
        Err(TessError::UnknownNeighbour(_, _))
    ));
}

fn cluster(x: usize, y: usize, z: usize, links: &[(usize, usize)]) -> Cluster {
    let mut neighbors = vec![Vec::new(); 6];
    for &(f, j) in links {
        neighbors[f].push(j);
    }
    Cluster { index: ix(x, y, z), neighbors, parent: None, children: Vec::new() }
}

#[test]
fn subsample_merges_linked_clusters_of_one_super_cell() {
    let mut base = vec![
        cluster(0, 0, 0, &[(1, 1)]),
        cluster(1, 0, 0, &[(0, 0), (1, 2)]),
        cluster(2, 0, 0, &[(0, 1)]),
    ];
    let up = subsample_octree(&mut base);
    assert_eq!(up.len(), 2);
    assert_eq!(base[0].parent, Some(0));
    assert_eq!(base[1].parent, Some(0));
    assert_eq!(base[2].parent, Some(1));
    assert_eq!(up[0].index, ix(0, 0, 0));
    assert_eq!(up[1].index, ix(1, 0, 0));
    let mut kids = up[0].children.clone();
    kids.sort();
    assert_eq!(kids, vec![0, 1]);
    assert_eq!(up[0].neighbors[1], vec![1]);
    assert!(up[0].neighbors[0].is_empty());
    assert_eq!(up[1].neighbors[0], vec![0]);
    assert!(check_links(&up));
}

#[test]
fn subsample_keeps_unlinked_clusters_apart() {
    // Two components of one super-cell with no link between them.
    let mut base = vec![cluster(0, 0, 0, &[]), cluster(1, 1, 1, &[])];
    let up = subsample_octree(&mut base);
    assert_eq!(up.len(), 2);
    assert_eq!(up[0].index, up[1].index);
    let layers = build_layers(vec![cluster(0, 0, 0, &[]), cluster(1, 1, 1, &[])]).unwrap();
    // The first merge step changes nothing, so the octree is the leaves alone.
    assert_eq!(layers.len(), 1);
    assert!(layers[0].iter().all(|c| c.parent.is_none()));
}

#[test]
fn one_sided_links_are_refused() {
    let leaves = vec![cluster(0, 0, 0, &[(1, 1)]), cluster(1, 0, 0, &[])];
    assert!(!check_links(&leaves));
    assert_eq!(build_layers(leaves).err(), Some(TessError::OneSidedLink));
    let out_of_layer = vec![cluster(0, 0, 0, &[(1, 5)])];
    assert!(!check_links(&out_of_layer));
}

#[test]
fn build_layers_halves_until_stable() {
    // A row of eight linked clusters along x.
    let mut leaves = Vec::new();
    for x in 0..8usize {
        let mut links = Vec::new();
        if x > 0 {
            links.push((0, x - 1));
        }
        if x < 7 {
            links.push((1, x + 1));
        }
        leaves.push(cluster(x, 0, 0, &links));
    }
    let layers = build_layers(leaves).unwrap();
    let sizes: Vec<usize> = layers.iter().map(|l| l.len()).collect();
    assert_eq!(sizes, vec![8, 4, 2, 1]);
    assert!(layers[3][0].parent.is_none());
    assert_eq!(layers[2][0].parent, Some(0));
}

#[test]
fn key_table_finds_and_adds() {
    let mut t = KeyTable::new();
    let a = VertexIndex { edges: BitSet::from_4bits(0, 1, 2, 2), index: ix(1, 2, 3) };
    let b = VertexIndex { edges: BitSet::from_4bits(3, 4, 11, 11), index: ix(1, 2, 3) };
    assert_eq!(t.find(&a), None);
    assert_eq!(t.push(a), 0);
    assert_eq!(t.push(b), 1);
    assert_eq!(t.find(&a), Some(0));
    assert_eq!(t.find(&b), Some(1));
    assert_eq!(t.len(), 2);
    assert_eq!(t.key(1), b);
    assert_eq!(t.into_keys(), vec![a, b]);
}

use xplicit_dmc::walk::QefWalk;

fn walk_all(layers: &Vec<Vec<Cluster>>, descend_on: impl Fn((usize, usize)) -> bool) -> Vec<(usize, usize)> {
    let mut walk = QefWalk::start(layers);
    let mut order = Vec::new();
    let mut descend = false;
    while let Some(n) = walk.next(layers, descend) {
        order.push(n);
        descend = descend_on(n);
    }
    order
}

#[test]
fn qef_walk_visits_every_cluster_once_when_always_descending() {
    let cfg = component_table();
    let g = ball_grid(16, [7.4, 7.3, 7.6], 4.2);
    let t = build_topology(&g, &cfg).unwrap();
    let order = walk_all(&t.layers, |_| true);
    let total: usize = t.layers.iter().map(|l| l.len()).sum();
    assert_eq!(order.len(), total);
    let distinct: HashSet<(usize, usize)> = order.iter().cloned().collect();
    assert_eq!(distinct.len(), total);
}

#[test]
fn qef_walk_stops_at_top_without_descending() {
    let cfg = component_table();
    let g = ball_grid(16, [7.4, 7.3, 7.6], 4.2);
    let t = build_topology(&g, &cfg).unwrap();
    let top = t.layers.len() - 1;
    let order = walk_all(&t.layers, |_| false);
    let expected: Vec<(usize, usize)> = (0..t.layers[top].len()).map(|i| (top, i)).collect();
    assert_eq!(order, expected);
}

#[test]
fn qef_walk_is_depth_first_in_child_order() {
    let mut leaves = Vec::new();
    for x in 0..4usize {
        let mut links = Vec::new();
        if x > 0 {
            links.push((0, x - 1));
        }
        if x < 3 {
            links.push((1, x + 1));
        }
        leaves.push(cluster(x, 0, 0, &links));
    }
    let layers = build_layers(leaves).unwrap();
    assert_eq!(layers.len(), 3);
    let order = walk_all(&layers, |n| n != (1, 0));
    let c0 = layers[2][0].children.clone();
    assert_eq!(c0, vec![0, 1]);
    let c1 = layers[1][1].children.clone();
    let mut expected = vec![(2, 0), (1, 0), (1, 1)];
    for &c in c1.iter() {
        expected.push((0, c));
    }
    assert_eq!(order, expected);
}
