//! Behaviour of the field-of-view engine on concrete maps.

use hexfov::fov::Fov;
use hexfov::hex::V2;
use hexfov::terrain::{AlwaysOpen, WallSet};

/// Pull the engine dry and collect everything it produces.
fn drain(fov: &mut Fov<WallSet>) -> Vec<V2> {
    let mut out: Vec<V2> = Vec::new();
    while let Some(v) = fov.next() {
        out.push(v);
    }
    out
}

fn drain_open(fov: &mut Fov<AlwaysOpen>) -> Vec<V2> {
    let mut out: Vec<V2> = Vec::new();
    while let Some(v) = fov.next() {
        out.push(v);
    }
    out
}

fn distinct(cells: &[V2]) -> Vec<V2> {
    let mut out: Vec<V2> = Vec::new();
    for c in cells {
        if !out.contains(c) {
            out.push(*c);
        }
    }
    out
}

fn walls(cells: &[(i64, i64)]) -> WallSet {
    WallSet { walls: cells.iter().map(|&(x, y)| V2(x, y)).collect() }
}

/// The six neighbour offsets, in direction-table order.
const NEIGHBORS: [(i64, i64); 6] = [(-1, -1), (0, -1), (1, 0), (1, 1), (0, 1), (-1, 0)];

#[test]
fn origin_is_first_on_open_terrain() {
    let mut fov = Fov::new(AlwaysOpen, 3);
    assert_eq!(fov.next(), Some(V2(0, 0)));
}

#[test]
fn origin_is_first_even_when_origin_is_wall() {
    let mut fov = Fov::new(walls(&[(0, 0)]), 2);
    assert_eq!(fov.next(), Some(V2(0, 0)));
}

#[test]
fn range_zero_yields_only_origin() {
    let mut fov = Fov::new(walls(&[(0, 0), (-1, -1), (1, 0)]), 0);
    assert_eq!(fov.next(), Some(V2(0, 0)));
    assert_eq!(fov.next(), None);
    assert_eq!(fov.next(), None);
}

#[test]
fn open_disk_counts() {
    for range in 0..=4u64 {
        let mut fov = Fov::new(AlwaysOpen, range);
        let seen = distinct(&drain_open(&mut fov));
        let expected: u64 = 1 + 3 * range * (range + 1);
        assert_eq!(seen.len() as u64, expected);
    }
}

#[test]
fn all_six_neighbors_seen_through_walls() {
    // Every radius-1 cell is produced even when some of them are walls.
    let mut fov = Fov::new(walls(&[(-1, -1), (1, 1), (0, -1)]), 1);
    let seen = drain(&mut fov);
    for &(x, y) in NEIGHBORS.iter() {
        assert!(seen.contains(&V2(x, y)), "missing neighbor ({}, {})", x, y);
    }
}

#[test]
fn wall_is_visible_but_blocks_what_lies_behind() {
    // One wall on the radius-1 ring; range reaches the ring behind it.
    let mut fov = Fov::new(walls(&[(-1, -1)]), 2);
    let seen = drain(&mut fov);
    // The wall itself is visible.
    assert!(seen.contains(&V2(-1, -1)));
    // The radius-2 cell straight behind it is not.
    assert!(!seen.contains(&V2(-2, -2)));
    // Radius-2 cells on transparent bearings are.
    assert!(seen.contains(&V2(-1, -2)));
    assert!(seen.contains(&V2(2, 0)));
    assert!(seen.contains(&V2(2, 2)));
    assert!(seen.contains(&V2(-2, 0)));
}

#[test]
fn opaque_ring_stops_propagation() {
    // Everything on the radius-1 ring is a wall: all of it is visible, but
    // nothing beyond it is.
    let mut fov = Fov::new(walls(&NEIGHBORS), 3);
    let seen = distinct(&drain(&mut fov));
    assert_eq!(seen.len(), 7);
    for &(x, y) in NEIGHBORS.iter() {
        assert!(seen.contains(&V2(x, y)));
    }
    assert!(seen.contains(&V2(0, 0)));
}

#[test]
fn same_map_same_view() {
    let map = [(-1, -1), (1, 0), (0, 1), (2, 2), (-3, 0)];
    let mut fov_a = Fov::new(walls(&map), 4);
    let mut fov_b = Fov::new(walls(&map), 4);
    let mut seen_a: Vec<(i64, i64)> = drain(&mut fov_a).iter().map(|v| (v.0, v.1)).collect();
    let mut seen_b: Vec<(i64, i64)> = drain(&mut fov_b).iter().map(|v| (v.0, v.1)).collect();
    seen_a.sort();
    seen_a.dedup();
    seen_b.sort();
    seen_b.dedup();
    assert_eq!(seen_a, seen_b);
}

#[test]
fn exhausted_engine_stays_exhausted() {
    let mut fov = Fov::new(AlwaysOpen, 1);
    let n = drain_open(&mut fov).len();
    assert!(n >= 7);
    assert_eq!(fov.next(), None);
    assert_eq!(fov.next(), None);
}

#[test]
fn everything_within_range_on_open_terrain() {
    // On open terrain the view is the full hex disk: spot-check membership.
    let mut fov = Fov::new(AlwaysOpen, 3);
    let seen = drain_open(&mut fov);
    assert!(seen.contains(&V2(3, 3)));
    assert!(seen.contains(&V2(-3, -3)));
    assert!(seen.contains(&V2(3, 0)));
    assert!(seen.contains(&V2(0, 3)));
    assert!(seen.contains(&V2(-2, -1)));
    // ... and nothing outside it.
    for v in seen.iter() {
        let d = hex_dist(v.0, v.1);
        assert!(d <= 3, "cell ({}, {}) is outside range", v.0, v.1);
    }
}

/// Hex distance from the origin on this axial layout.
fn hex_dist(x: i64, y: i64) -> i64 {
    if (x >= 0) == (y >= 0) {
        x.abs().max(y.abs())
    } else {
        x.abs() + y.abs()
    }
}

#[test]
fn nothing_beyond_range_on_walled_maps() {
    let mut fov = Fov::new(walls(&[(1, 0), (0, -1), (-2, -2), (2, 2)]), 4);
    for v in drain(&mut fov).iter() {
        assert!(hex_dist(v.0, v.1) <= 4);
    }
}
