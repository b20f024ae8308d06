use roguelight::fov::{compute_visible, is_visible};
use roguelight::map::{Grid, Tile};

/// A 5x5 grid of open floor.
fn open_grid() -> Grid {
    let mut g = Grid::new(5, 5);
    for x in 0..5 {
        for y in 0..5 {
            g.set_tile(x, y, Tile::empty());
        }
    }
    g
}

#[test]
fn axis_aligned_occlusion() {
    // One wall at (2, 2) blocks the straight line of sight from (2, 0):
    // everything behind it on that column is hidden.
    let mut g = open_grid();
    g.set_tile(2, 2, Tile::wall());
    assert!(is_visible(&g, 2, 0, 10, false, 2, 1));
    assert!(!is_visible(&g, 2, 0, 10, false, 2, 3));
    assert!(!is_visible(&g, 2, 0, 10, false, 2, 4));
    // Off the blocked column sight is free.
    assert!(is_visible(&g, 2, 0, 10, false, 1, 3));
    assert!(is_visible(&g, 2, 0, 10, false, 3, 4));
}

#[test]
fn diagonal_occlusion() {
    let mut g = open_grid();
    g.set_tile(2, 2, Tile::wall());
    assert!(is_visible(&g, 0, 0, 10, false, 1, 1));
    assert!(!is_visible(&g, 0, 0, 10, false, 3, 3));
    assert!(!is_visible(&g, 0, 0, 10, false, 4, 4));
}

#[test]
fn light_walls_controls_wall_visibility() {
    let mut g = open_grid();
    g.set_tile(2, 2, Tile::wall());
    // The wall itself is visible only when walls are lit.
    assert!(is_visible(&g, 2, 0, 10, true, 2, 2));
    assert!(!is_visible(&g, 2, 0, 10, false, 2, 2));
}

#[test]
fn radius_limits_sight() {
    let g = open_grid();
    assert!(is_visible(&g, 0, 0, 3, true, 3, 0));
    assert!(!is_visible(&g, 0, 0, 3, true, 4, 0));
    // Euclidean, not Chebyshev: (3, 3) is sqrt(18) > 4 away.
    assert!(!is_visible(&g, 0, 0, 4, true, 3, 3));
    assert!(is_visible(&g, 0, 0, 5, true, 3, 3));
}

#[test]
fn zero_radius_sees_only_own_tile() {
    let g = open_grid();
    assert!(is_visible(&g, 2, 2, 0, true, 2, 2));
    assert!(!is_visible(&g, 2, 2, 0, true, 2, 3));
}

#[test]
fn out_of_bounds_target_is_not_visible() {
    let g = open_grid();
    assert!(!is_visible(&g, 2, 2, 10, true, 5, 2));
    assert!(!is_visible(&g, 2, 2, 10, true, -1, 0));
}

#[test]
fn compute_visible_returns_exactly_the_visible_set() {
    let mut g = open_grid();
    g.set_tile(2, 2, Tile::wall());
    let snapshot = {
        let mut v = Vec::new();
        for x in 0..5 {
            for y in 0..5 {
                if is_visible(&g, 2, 0, 10, true, x, y) {
                    v.push((x, y));
                }
            }
        }
        v
    };
    let mut vis = compute_visible(&mut g, 2, 0, 10, true);
    vis.sort();
    assert_eq!(vis, snapshot);
}

#[test]
fn compute_visible_marks_explored() {
    let mut g = open_grid();
    g.set_tile(2, 2, Tile::wall());
    let vis = compute_visible(&mut g, 2, 0, 10, true);
    for x in 0..5 {
        for y in 0..5 {
            assert_eq!(g.tile(x, y).explored, vis.contains(&(x, y)));
        }
    }
}

#[test]
fn explored_is_monotone_across_frames() {
    // Once a tile is explored it stays explored on every later frame, even
    // when the observer moves away and the tile falls out of view.
    let mut g = open_grid();
    compute_visible(&mut g, 0, 0, 2, true);
    let explored_before: Vec<(i32, i32)> = all_explored(&g);
    assert!(!explored_before.is_empty());
    compute_visible(&mut g, 4, 4, 2, true);
    g.clear_light();
    compute_visible(&mut g, 4, 4, 1, true);
    for (x, y) in explored_before {
        assert!(g.tile(x, y).explored);
    }
}

fn all_explored(g: &Grid) -> Vec<(i32, i32)> {
    let mut v = Vec::new();
    for x in 0..g.width() {
        for y in 0..g.height() {
            if g.tile(x, y).explored {
                v.push((x, y));
            }
        }
    }
    v
}

#[test]
fn observer_tile_is_always_visible() {
    let g = Grid::new(5, 5);
    // Even standing inside a wall with light_walls off, the observer's own
    // tile counts as visible.
    assert!(is_visible(&g, 2, 2, 5, false, 2, 2));
}

#[test]
fn compute_visible_lists_each_tile_once() {
    let mut g = open_grid();
    g.set_tile(2, 2, Tile::wall());
    let vis = compute_visible(&mut g, 2, 0, 10, true);
    let mut sorted = vis.clone();
    sorted.sort();
    let mut deduped = sorted.clone();
    deduped.dedup();
    assert_eq!(sorted, deduped);
}
