use roguelight::map::{Grid, Tile};
use roguelight::object::Object;

fn open_grid(side: i32) -> Grid {
    let mut g = Grid::new(side, side);
    for x in 0..side {
        for y in 0..side {
            g.set_tile(x, y, Tile::empty());
        }
    }
    g
}

#[test]
fn new_object_has_no_torch() {
    let o = Object::new(3, 4);
    assert_eq!((o.x, o.y, o.torch_distance), (3, 4, 0));
}

#[test]
fn move_by_accepts_open_destination() {
    let g = open_grid(5);
    let mut o = Object::new(2, 2);
    o.move_by(1, 0, &g);
    assert_eq!((o.x, o.y), (3, 2));
    o.move_by(0, -1, &g);
    assert_eq!((o.x, o.y), (3, 1));
}

#[test]
fn move_by_rejects_blocked_destination() {
    let mut g = open_grid(5);
    g.set_tile(3, 2, Tile::wall());
    let mut o = Object::new(2, 2);
    o.torch_distance = 5;
    o.move_by(1, 0, &g);
    assert_eq!((o.x, o.y), (2, 2));
    assert_eq!(o.torch_distance, 5);
}

#[test]
fn tile_constructors() {
    let e = Tile::empty();
    assert!(!e.blocked && !e.block_sight && !e.explored);
    assert_eq!(e.light_milli, 0);
    let w = Tile::wall();
    assert!(w.blocked && w.block_sight && !w.explored);
    assert_eq!(w.light_milli, 0);
}

#[test]
fn grid_starts_as_walls_and_checks_bounds() {
    let g = Grid::new(4, 3);
    assert_eq!(g.width(), 4);
    assert_eq!(g.height(), 3);
    for x in 0..4 {
        for y in 0..3 {
            assert_eq!(g.get(x, y), Some(Tile::wall()));
        }
    }
    assert_eq!(g.get(4, 0), None);
    assert_eq!(g.get(0, 3), None);
    assert_eq!(g.get(-1, 0), None);
}

#[test]
fn clear_light_zeroes_light_and_keeps_exploration() {
    let mut g = open_grid(3);
    let mut t = g.tile(1, 1);
    t.light_milli = 700;
    t.explored = true;
    g.set_tile(1, 1, t);
    g.clear_light();
    assert_eq!(g.tile(1, 1).light_milli, 0);
    assert!(g.tile(1, 1).explored);
}
