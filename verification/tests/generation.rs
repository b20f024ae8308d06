use rand::SeedableRng;
use roguelight::map::{Grid, Tile};
use roguelight::mapgen::{generate, make_map, MAP_HEIGHT, MAP_WIDTH};
use roguelight::rect::Rect;

fn rng(seed: u64) -> rand::rngs::StdRng {
    rand::rngs::StdRng::seed_from_u64(seed)
}

fn grid_tiles(m: &Grid) -> Vec<Tile> {
    let mut out = Vec::new();
    for x in 0..m.width() {
        for y in 0..m.height() {
            out.push(m.tile(x, y));
        }
    }
    out
}

#[test]
fn same_seed_same_dungeon() {
    // A 20x20 grid, at most 5 rooms of side 4..=6, a fixed seed: regenerating
    // with the same seed yields an identical tile grid and start position.
    let mut r1 = rng(1234);
    let mut r2 = rng(1234);
    let (map1, start1, rooms1) = generate(20, 20, 5, 4, 6, &mut r1);
    let (map2, start2, rooms2) = generate(20, 20, 5, 4, 6, &mut r2);
    assert_eq!(start1, start2);
    assert_eq!(rooms1, rooms2);
    assert_eq!(grid_tiles(&map1), grid_tiles(&map2));
}

#[test]
fn different_seeds_generally_differ() {
    let mut r1 = rng(1);
    let mut r2 = rng(2);
    let (_, _, rooms1) = generate(40, 40, 10, 4, 8, &mut r1);
    let (_, _, rooms2) = generate(40, 40, 10, 4, 8, &mut r2);
    assert_ne!(rooms1, rooms2);
}

#[test]
fn accepted_rooms_never_overlap() {
    let mut r = rng(7);
    let (_, _, rooms) = generate(MAP_WIDTH, MAP_HEIGHT, 30, 6, 10, &mut r);
    assert!(rooms.len() >= 2, "seed should place several rooms");
    for i in 0..rooms.len() {
        for j in 0..rooms.len() {
            if i != j {
                assert!(!rooms[i].intersects_with(&rooms[j]));
            }
        }
    }
}

#[test]
fn room_interiors_are_carved() {
    let mut r = rng(7);
    let (map, _, rooms) = generate(MAP_WIDTH, MAP_HEIGHT, 30, 6, 10, &mut r);
    for room in &rooms {
        for x in (room.x1 + 1)..room.x2 {
            for y in (room.y1 + 1)..room.y2 {
                let t = map.tile(x, y);
                assert!(!t.blocked);
                assert!(!t.block_sight);
            }
        }
    }
}

#[test]
fn start_is_on_open_tile() {
    for seed in 0..20u64 {
        let mut r = rng(seed);
        let (map, (sx, sy), rooms) = generate(MAP_WIDTH, MAP_HEIGHT, 30, 6, 10, &mut r);
        assert!(!rooms.is_empty());
        assert!(!map.tile(sx, sy).blocked);
    }
}

#[test]
fn consecutive_rooms_are_path_connected() {
    // Breadth-first search over non-blocked tiles between the centers of
    // consecutively accepted rooms.
    let mut r = rng(99);
    let (map, _, rooms) = generate(MAP_WIDTH, MAP_HEIGHT, 30, 6, 10, &mut r);
    assert!(rooms.len() >= 2);
    for k in 1..rooms.len() {
        let a = rooms[k - 1].center();
        let b = rooms[k].center();
        assert!(reachable(&map, a, b), "rooms {} and {} not connected", k - 1, k);
    }
}

fn reachable(map: &Grid, a: (i32, i32), b: (i32, i32)) -> bool {
    let w = map.width();
    let h = map.height();
    let idx = |x: i32, y: i32| (x * h + y) as usize;
    let mut seen = vec![false; (w * h) as usize];
    let mut queue = std::collections::VecDeque::new();
    if map.tile(a.0, a.1).blocked {
        return false;
    }
    seen[idx(a.0, a.1)] = true;
    queue.push_back(a);
    while let Some((x, y)) = queue.pop_front() {
        if (x, y) == b {
            return true;
        }
        for (dx, dy) in [(1, 0), (-1, 0), (0, 1), (0, -1)] {
            let (nx, ny) = (x + dx, y + dy);
            if nx >= 0 && nx < w && ny >= 0 && ny < h && !seen[idx(nx, ny)]
                && !map.tile(nx, ny).blocked
            {
                seen[idx(nx, ny)] = true;
                queue.push_back((nx, ny));
            }
        }
    }
    false
}

#[test]
fn zero_rooms_gives_all_walls_and_origin_start() {
    let mut r = rng(5);
    let (map, start, rooms) = generate(20, 20, 0, 4, 6, &mut r);
    assert_eq!(start, (0, 0));
    assert!(rooms.is_empty());
    for x in 0..20 {
        for y in 0..20 {
            let t = map.tile(x, y);
            assert!(t.blocked);
            assert!(t.block_sight);
            assert!(!t.explored);
            assert_eq!(t.light_milli, 0);
        }
    }
}

#[test]
fn make_map_uses_default_dimensions() {
    let mut r = rng(42);
    let (map, (sx, sy)) = make_map(&mut r);
    assert_eq!(map.width(), MAP_WIDTH);
    assert_eq!(map.height(), MAP_HEIGHT);
    assert!(!map.tile(sx, sy).blocked);
}

#[test]
fn rect_new_and_center() {
    let r = Rect::new(1, 2, 4, 6);
    assert_eq!((r.x1, r.y1, r.x2, r.y2), (1, 2, 5, 8));
    assert_eq!(r.center(), (3, 5));
}

#[test]
fn rect_overlap_is_conservative() {
    let a = Rect::new(0, 0, 4, 4);
    let b = Rect::new(2, 2, 4, 4);
    let c = Rect::new(4, 0, 4, 4);
    let d = Rect::new(5, 0, 4, 4);
    assert!(a.intersects_with(&b));
    // Touching at the shared edge still counts: the test uses the closed
    // outer corners, which forces a one-tile gap between accepted rooms.
    assert!(a.intersects_with(&c));
    assert!(!a.intersects_with(&d));
    assert!(!d.intersects_with(&a));
}

#[test]
fn at_least_one_room_when_attempted() {
    // The first candidate always fits the grid and has nothing to collide
    // with, so one attempt always yields one room.
    for seed in 0..20u64 {
        let mut r = rng(seed);
        let (_, _, rooms) = generate(20, 20, 1, 4, 6, &mut r);
        assert_eq!(rooms.len(), 1);
    }
}

#[test]
fn no_carving_outside_rooms_and_corridors() {
    // Every floor tile lies inside an accepted room's interior or on one of
    // the two L-corridor orderings between consecutive room centers; every
    // other tile is still an untouched wall.
    let mut r = rng(99);
    let (map, _, rooms) = generate(MAP_WIDTH, MAP_HEIGHT, 30, 6, 10, &mut r);
    let in_interior = |room: &Rect, x: i32, y: i32| {
        room.x1 < x && x < room.x2 && room.y1 < y && y < room.y2
    };
    let on_h = |x: i32, y: i32, xa: i32, xb: i32, yy: i32| {
        xa.min(xb) <= x && x <= xa.max(xb) && y == yy
    };
    let on_v = |x: i32, y: i32, ya: i32, yb: i32, xx: i32| {
        ya.min(yb) <= y && y <= ya.max(yb) && x == xx
    };
    for x in 0..map.width() {
        for y in 0..map.height() {
            let allowed = rooms.iter().any(|room| in_interior(room, x, y))
                || (1..rooms.len()).any(|k| {
                    let (ax, ay) = rooms[k - 1].center();
                    let (bx, by) = rooms[k].center();
                    on_h(x, y, ax, bx, ay)
                        || on_v(x, y, ay, by, bx)
                        || on_v(x, y, ay, by, ax)
                        || on_h(x, y, ax, bx, by)
                });
            if !allowed {
                assert_eq!(map.tile(x, y), Tile::wall());
            }
        }
    }
}
