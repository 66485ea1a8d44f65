use mosaic_paint::canvas::Canvas;
use mosaic_paint::color::{dist, Color};
use mosaic_paint::gather::{gather, Neighbor};
use mosaic_paint::paint::{paint, paint_with_choices, shuffled_positions};
use mosaic_paint::refine::{best, best_with_pick, penalty, refine_cell, refine_cell_with};
use mosaic_paint::sched::radius_for;

fn grid_of(c: &Canvas) -> Vec<Color> {
    c.try_pixels().expect("every cell should be filled")
}

#[test]
fn dist_is_plain_absolute_difference() {
    assert_eq!(dist(3, 3), 0);
    assert_eq!(dist(0, 128), 128);
    assert_eq!(dist(0, 255), 255);
    assert_eq!(dist(10, 250), 240);
    assert_eq!(dist(250, 10), 240);
}

#[test]
fn penalty_exact_single_neighbor() {
    let cand = Color { r: 0, g: 0, b: 0 };
    let nbrs = vec![Neighbor { x: 0, y: 0, d2: 2, color: Color { r: 3, g: 4, b: 0 } }];
    // (9 + 16) * 1048576 / 2
    assert_eq!(penalty(cand, &nbrs), 13107200);
}

#[test]
fn penalty_empty_neighbors_is_zero() {
    let nbrs: Vec<Neighbor> = Vec::new();
    assert_eq!(penalty(Color { r: 9, g: 9, b: 9 }, &nbrs), 0);
}

#[test]
fn radius_exact_values() {
    // n = 16, 256 cells: the cap is ceil(sqrt(8)) = 3.
    assert_eq!(radius_for(0, 256, 16), 3);
    // step 1 wants side ceil(sqrt(5 * 256)) = 36, halved 18, capped at 3.
    assert_eq!(radius_for(1, 256, 16), 3);
    // step 200 wants side 3 (9 * 200 >= 1280), halved 1.
    assert_eq!(radius_for(200, 256, 16), 1);
}

#[test]
fn radius_saturates_at_first_step() {
    // Zero fill fraction: the wanted side saturates at 255, half 127,
    // and only the grid-derived cap applies.
    assert_eq!(radius_for(0, 1, 1), 0);
    assert_eq!(radius_for(0, 4, 2), 1);
    assert_eq!(radius_for(0, 1 << 20, 1 << 10), 23);
}

#[test]
fn radius_never_grows() {
    let mut prev = radius_for(1, 256, 16);
    for i in 2..256 {
        let r = radius_for(i, 256, 16);
        assert!(r <= prev, "radius grew from {} to {} at step {}", prev, r, i);
        prev = r;
    }
}

#[test]
fn coverage_of_shuffled_positions() {
    let n = 5usize;
    let v = shuffled_positions(n);
    assert_eq!(v.len(), n * n);
    let mut seen = vec![false; n * n];
    for &(x, y) in &v {
        assert!(x < n && y < n);
        assert!(!seen[x * n + y], "position ({}, {}) visited twice", x, y);
        seen[x * n + y] = true;
    }
    assert!(seen.iter().all(|&s| s));
}

#[test]
fn write_once_fill_leaves_other_cells_alone() {
    let mut c = Canvas::new(2);
    assert!(c.try_pixels().is_none());
    let first = Color { r: 1, g: 2, b: 3 };
    c.fill(0, 0, first);
    assert_eq!(c.get(0, 0), Some(first));
    c.fill(0, 1, Color { r: 9, g: 9, b: 9 });
    c.fill(1, 0, Color { r: 8, g: 8, b: 8 });
    c.fill(1, 1, Color { r: 7, g: 7, b: 7 });
    assert_eq!(c.get(0, 0), Some(first));
    assert_eq!(grid_of(&c).len(), 4);
}

#[test]
fn channel_range_of_painted_grid() {
    let (g, _, _) = paint(3);
    let px = grid_of(&g);
    assert_eq!(px.len(), 9);
    for c in px {
        // u8 already keeps each channel in [0, 255]; the bisection in
        // fact never exceeds the sum of its widths.
        assert!(c.r <= 254 && c.g <= 254 && c.b <= 254);
    }
}

#[test]
fn determinism_under_fixed_randomness() {
    let (g, order, picks) = paint(4);
    let replay1 = paint_with_choices(4, &order, &picks);
    let replay2 = paint_with_choices(4, &order, &picks);
    assert_eq!(grid_of(&g), grid_of(&replay1));
    assert_eq!(grid_of(&replay1), grid_of(&replay2));
}

#[test]
fn wrap_adjacency_reaches_opposite_corner() {
    let mut c = Canvas::new(2);
    let col = Color { r: 7, g: 8, b: 9 };
    c.fill(1, 1, col);
    let out = gather(&c, 0, 0, 1);
    // (1, 1) is seen through all four wrapped diagonal offsets.
    assert_eq!(out.len(), 4);
    for nb in &out {
        assert_eq!((nb.x, nb.y), (1, 1));
        assert_eq!(nb.d2, 2);
        assert_eq!(nb.color, col);
    }
}

#[test]
fn degenerate_empty_grid() {
    let (g, order, picks) = paint(0);
    assert_eq!(g.side_len(), 0);
    assert_eq!(order.len(), 0);
    assert_eq!(picks.len(), 0);
    assert_eq!(grid_of(&g).len(), 0);
}

#[test]
fn single_cell_all_candidates_tie() {
    // One cell, no neighbors: every candidate scores zero, so the color
    // is whatever the tie-break trace selects -- and is reproducible.
    let order = vec![(0usize, 0usize)];
    let zeros = vec![0usize; 7];
    let a = paint_with_choices(1, &order, &zeros);
    let b = paint_with_choices(1, &order, &zeros);
    assert_eq!(a.get(0, 0), Some(Color { r: 0, g: 0, b: 0 }));
    assert_eq!(a.get(0, 0), b.get(0, 0));
    // Tie-break choice 1 takes candidate 1 in every round: the first
    // channel accumulates 128 + 64 + ... + 2 = 254.
    let ones = vec![1usize; 7];
    let c = paint_with_choices(1, &order, &ones);
    assert_eq!(c.get(0, 0), Some(Color { r: 254, g: 0, b: 0 }));
}

#[test]
fn empty_neighbors_refine_to_black_under_zero_picks() {
    let nbrs: Vec<Neighbor> = Vec::new();
    let picks = vec![0usize; 7];
    let c = refine_cell_with(&nbrs, &picks, 0);
    assert_eq!(c, Color { r: 0, g: 0, b: 0 });
}

#[test]
fn random_refine_replays_to_same_color() {
    let nbrs = vec![Neighbor { x: 0, y: 0, d2: 1, color: Color { r: 200, g: 10, b: 77 } }];
    let (c, trace) = refine_cell(&nbrs);
    assert_eq!(trace.len(), 7);
    let replay = refine_cell_with(&nbrs, &trace, 0);
    assert_eq!(c, replay);
}

#[test]
fn forced_neighbor_pulls_the_color() {
    // n = 2, visitation [(0,0), (0,1), (1,0), (1,1)]; (0,0) is fixed to
    // (64, 64, 64) and (0,1) is refined next.
    let mut c = Canvas::new(2);
    let anchor = Color { r: 64, g: 64, b: 64 };
    c.fill(0, 0, anchor);
    let r = radius_for(1, 4, 2);
    assert_eq!(r, 1);
    let nbrs = gather(&c, 0, 1, r);
    // The anchor is found, at squared offset 1 (both ways around).
    assert!(nbrs.iter().any(|nb| (nb.x, nb.y) == (0, 0) && nb.d2 == 1));
    assert!(nbrs.iter().all(|nb| (nb.x, nb.y) == (0, 0) && nb.d2 == 1));
    let zeros = vec![0usize; 7];
    let with_neighbor = refine_cell_with(&nbrs, &zeros, 0);
    assert_eq!(with_neighbor, Color { r: 62, g: 62, b: 62 });
    let no_neighbors: Vec<Neighbor> = Vec::new();
    let alone = refine_cell_with(&no_neighbors, &zeros, 0);
    // The neighbor measurably pulls the refined color toward itself in
    // the weighted-squared sense.
    assert!(penalty(with_neighbor, &nbrs) < penalty(alone, &nbrs));
}

#[test]
fn best_prefers_unique_minimum() {
    let pen = vec![3u64, 1, 2];
    assert_eq!(best(&pen), 1);
    assert_eq!(best_with_pick(&pen, 0), 1);
    assert_eq!(best_with_pick(&pen, 5), 1);
}

#[test]
fn best_with_pick_cycles_over_ties() {
    let pen = vec![2u64, 5, 2, 2];
    // Tied indices are 0, 2, 3; the pick is reduced modulo 3.
    assert_eq!(best_with_pick(&pen, 0), 0);
    assert_eq!(best_with_pick(&pen, 1), 2);
    assert_eq!(best_with_pick(&pen, 2), 3);
    assert_eq!(best_with_pick(&pen, 3), 0);
    let b = best(&pen);
    assert!(b == 0 || b == 2 || b == 3);
}

#[test]
fn full_pass_fills_every_cell() {
    let (g, order, picks) = paint(6);
    assert_eq!(order.len(), 36);
    assert_eq!(picks.len(), 252);
    let px = grid_of(&g);
    assert_eq!(px.len(), 36);
}

#[test]
fn gather_radius_zero_is_empty() {
    let mut c = Canvas::new(3);
    c.fill(1, 1, Color { r: 5, g: 5, b: 5 });
    // Radius 0 scans only the (still Empty) center cell.
    let out = gather(&c, 0, 0, 0);
    assert!(out.is_empty());
}

#[test]
fn gather_skips_empty_center() {
    let mut c = Canvas::new(3);
    c.fill(0, 1, Color { r: 5, g: 5, b: 5 });
    let out = gather(&c, 1, 1, 1);
    // Only the one filled cell is found; the Empty center is never
    // emitted, so every record has a positive squared offset.
    assert_eq!(out.len(), 1);
    assert_eq!((out[0].x, out[0].y, out[0].d2), (0, 1, 1));
}
