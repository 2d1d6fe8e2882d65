use xplicit_dmc::bitset::BitSet;
use xplicit_dmc::edge::{Edge, EdgeIndex, Index};
use xplicit_dmc::grid::{bitset_for_cell, cell_bits, crossing_edges, pow2roundup, SignGrid};

fn idx(x: usize, y: usize, z: usize) -> Index {
    Index { x, y, z }
}

/// A fully sampled grid, negative only at the given corners.
fn grid_with_negatives(side: usize, negatives: &[Index]) -> SignGrid {
    let mut g = SignGrid::new(side);
    for z in 0..side {
        for y in 0..side {
            for x in 0..side {
                let i = idx(x, y, z);
                g.insert(i, negatives.contains(&i));
            }
        }
    }
    g
}

#[test]
fn pow2roundup_values() {
    assert_eq!(pow2roundup(1), 1);
    assert_eq!(pow2roundup(2), 2);
    assert_eq!(pow2roundup(3), 4);
    assert_eq!(pow2roundup(5), 8);
    assert_eq!(pow2roundup(1024), 1024);
    assert_eq!(pow2roundup(1025), 2048);
    assert_eq!(pow2roundup(usize::MAX / 2 + 1), usize::MAX / 2 + 1);
}

#[test]
fn sign_grid_insert_and_get() {
    let mut g = SignGrid::new(4);
    assert_eq!(g.side(), 4);
    assert_eq!(g.get(idx(1, 2, 3)), None);
    g.insert(idx(1, 2, 3), true);
    g.insert(idx(3, 2, 1), false);
    assert_eq!(g.get(idx(1, 2, 3)), Some(true));
    assert_eq!(g.get(idx(3, 2, 1)), Some(false));
    assert_eq!(g.get(idx(2, 2, 3)), None);
    assert_eq!(g.get(idx(4, 0, 0)), None);
}

#[test]
fn cell_bits_follow_corner_signs() {
    // Negative corners 0, 3, 5, 6 of the cell at (1, 1, 1).
    let g = grid_with_negatives(4, &[idx(1, 1, 1), idx(2, 2, 1), idx(2, 1, 2), idx(1, 2, 2)]);
    assert_eq!(bitset_for_cell(&g, idx(1, 1, 1)), BitSet::from_4bits(0, 3, 5, 6));
    assert_eq!(bitset_for_cell(&g, idx(0, 0, 0)), BitSet::from_4bits(7, 7, 7, 7));
    // The cell at the far corner has corners outside the grid.
    assert_eq!(cell_bits(&g, idx(3, 0, 0)), None);
}

#[test]
fn cell_bits_need_all_corners() {
    let mut g = SignGrid::new(3);
    for c in 0..7usize {
        g.insert(idx(c & 1, (c >> 1) & 1, c >> 2), false);
    }
    assert_eq!(cell_bits(&g, idx(0, 0, 0)), None);
    g.insert(idx(1, 1, 1), true);
    assert_eq!(bitset_for_cell(&g, idx(0, 0, 0)), BitSet::from_4bits(7, 7, 7, 7));
}

#[test]
fn crossing_edges_around_one_negative_corner() {
    let g = grid_with_negatives(4, &[idx(1, 2, 1)]);
    let mut found = crossing_edges(&g);
    found.sort_by_key(|e| (e.index.z, e.index.y, e.index.x, e.edge.to_usize()));
    let expected = vec![
        EdgeIndex { edge: Edge::C, index: idx(1, 2, 0) },
        EdgeIndex { edge: Edge::B, index: idx(1, 1, 1) },
        EdgeIndex { edge: Edge::A, index: idx(0, 2, 1) },
        EdgeIndex { edge: Edge::A, index: idx(1, 2, 1) },
        EdgeIndex { edge: Edge::B, index: idx(1, 2, 1) },
        EdgeIndex { edge: Edge::C, index: idx(1, 2, 1) },
    ];
    assert_eq!(found, expected);
}

#[test]
fn crossing_edges_skip_unsampled_and_same_sign() {
    let mut g = SignGrid::new(4);
    g.insert(idx(0, 0, 0), true);
    g.insert(idx(1, 0, 0), false);
    g.insert(idx(0, 1, 0), true);
    g.insert(idx(2, 2, 2), true);
    let found = crossing_edges(&g);
    assert_eq!(found, vec![EdgeIndex { edge: Edge::A, index: idx(0, 0, 0) }]);
}

#[test]
fn crossing_edges_of_uniform_grid_are_none() {
    let g = grid_with_negatives(5, &[]);
    assert!(crossing_edges(&g).is_empty());
}

use std::collections::HashSet;
use xplicit_dmc::sampler::SampleWalk;

fn run_walk(side: usize, near: impl Fn(Index, usize) -> bool) -> (Vec<Index>, usize) {
    let mut walk = SampleWalk::start(side);
    let mut recorded = Vec::new();
    let mut visited = 0;
    while let Some((i, s)) = walk.next_corner() {
        visited += 1;
        if walk.settle(near(i, s)) {
            recorded.push(i);
        }
    }
    (recorded, visited)
}

#[test]
fn sampler_far_everywhere_records_the_eight_sub_cubes() {
    let (recorded, visited) = run_walk(8, |_, _| false);
    assert_eq!(visited, 8);
    assert_eq!(
        recorded,
        vec![
            idx(0, 0, 0),
            idx(4, 0, 0),
            idx(0, 4, 0),
            idx(4, 4, 0),
            idx(0, 0, 4),
            idx(4, 0, 4),
            idx(0, 4, 4),
            idx(4, 4, 4)
        ]
    );
}

#[test]
fn sampler_near_everywhere_records_every_corner_once() {
    let (recorded, visited) = run_walk(8, |_, _| true);
    assert_eq!(recorded.len(), 512);
    let distinct: HashSet<Index> = recorded.iter().cloned().collect();
    assert_eq!(distinct.len(), 512);
    assert!(recorded.iter().all(|i| i.x < 8 && i.y < 8 && i.z < 8));
    // 8 corners at each of the three levels of splitting.
    assert_eq!(visited, 8 + 64 + 512);
}

#[test]
fn sampler_descends_only_where_near() {
    // Near only at the origin: the origin's sub-cube is split into its eight
    // unit corners, the other seven sub-cubes stay whole.
    let (recorded, _) = run_walk(4, |i, _| i == idx(0, 0, 0));
    assert_eq!(recorded.len(), 8 + 7);
    assert_eq!(recorded[0], idx(0, 0, 0));
    assert_eq!(recorded[1], idx(1, 0, 0));
    assert!(recorded.contains(&idx(2, 2, 2)));
    assert!(!recorded.contains(&idx(3, 3, 3)));
}

#[test]
fn sampler_steps_report_sub_cube_size() {
    let mut walk = SampleWalk::start(4);
    assert_eq!(walk.next_corner(), Some((idx(0, 0, 0), 2)));
    assert!(!walk.settle(true));
    assert_eq!(walk.next_corner(), Some((idx(0, 0, 0), 1)));
    // Unit sub-cubes are never split.
    assert!(walk.settle(true));
    assert_eq!(walk.next_corner(), Some((idx(1, 0, 0), 1)));
}

#[test]
fn sparse_grid_holds_far_corners_of_a_large_cube() {
    let side = 1usize << 20;
    let mut g = SignGrid::new(side);
    let far = idx(side - 2, side - 1, side - 3);
    let next = idx(side - 1, side - 1, side - 3);
    g.insert(far, true);
    g.insert(next, false);
    g.insert(idx(0, 0, 0), false);
    assert_eq!(g.get(far), Some(true));
    assert_eq!(g.get(next), Some(false));
    assert_eq!(g.get(idx(side - 1, side - 2, side - 3)), None);
    assert_eq!(crossing_edges(&g), vec![EdgeIndex { edge: Edge::A, index: far }]);
}

#[test]
fn crossing_edges_come_in_sampling_order() {
    let mut g = SignGrid::new(8);
    g.insert(idx(5, 5, 5), true);
    g.insert(idx(5, 5, 6), false);
    g.insert(idx(1, 1, 1), true);
    g.insert(idx(2, 1, 1), false);
    // Sampling a corner again keeps its place.
    g.insert(idx(5, 5, 5), true);
    assert_eq!(
        crossing_edges(&g),
        vec![
            EdgeIndex { edge: Edge::C, index: idx(5, 5, 5) },
            EdgeIndex { edge: Edge::A, index: idx(1, 1, 1) }
        ]
    );
}
