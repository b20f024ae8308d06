use rand::SeedableRng;
use rand_distr::Distribution;
use roguelight::light::{accumulate_lighting, distance_milli, isqrt, LIGHT_JITTER_STDDEV_MILLI};
use roguelight::map::{Grid, Tile};
use roguelight::object::Object;

fn open_grid(side: i32) -> Grid {
    let mut g = Grid::new(side, side);
    for x in 0..side {
        for y in 0..side {
            g.set_tile(x, y, Tile::empty());
        }
    }
    g
}

fn torch(x: i32, y: i32, radius: i32) -> Object {
    let mut o = Object::new(x, y);
    o.torch_distance = radius;
    o
}

#[test]
fn isqrt_exact_values() {
    assert_eq!(isqrt(0), 0);
    assert_eq!(isqrt(1), 1);
    assert_eq!(isqrt(3), 1);
    assert_eq!(isqrt(4), 2);
    assert_eq!(isqrt(999999), 999);
    assert_eq!(isqrt(1000000), 1000);
    assert_eq!(isqrt(2000000), 1414);
}

#[test]
fn distance_is_euclidean_in_thousandths() {
    assert_eq!(distance_milli(0, 0, 3, 4), 5000);
    assert_eq!(distance_milli(0, 0, 0, 0), 0);
    assert_eq!(distance_milli(2, 2, 3, 2), 1000);
    // sqrt(2) = 1.414...
    assert_eq!(distance_milli(0, 0, 1, 1), 1414);
}

#[test]
fn intensity_at_emitter_is_one_plus_jitter() {
    let mut g = open_grid(5);
    let emitters = vec![torch(2, 2, 5)];
    let jitters = vec![70i64];
    accumulate_lighting(&mut g, &emitters, &jitters, true);
    assert_eq!(g.tile(2, 2).light_milli, 1000 + 70);
}

#[test]
fn falloff_with_distance() {
    let mut g = open_grid(5);
    let emitters = vec![torch(2, 2, 5)];
    let jitters = vec![0i64];
    accumulate_lighting(&mut g, &emitters, &jitters, true);
    // distance 1 tile: 1000 - 1000/5 = 800
    assert_eq!(g.tile(3, 2).light_milli, 800);
    // distance sqrt(2): 1000 - 1414/5 = 1000 - 282
    assert_eq!(g.tile(3, 3).light_milli, 718);
    // distance 2: 1000 - 2000/5
    assert_eq!(g.tile(4, 2).light_milli, 600);
}

#[test]
fn two_emitters_add_not_max() {
    let mut g = open_grid(5);
    let emitters = vec![torch(1, 1, 5), torch(3, 1, 5)];
    let jitters = vec![0i64, 0i64];
    accumulate_lighting(&mut g, &emitters, &jitters, true);
    // (2, 1) is one tile from each emitter: each adds 800.
    assert_eq!(g.tile(2, 1).light_milli, 1600);
    // Each emitter alone gives 800 there.
    let mut g1 = open_grid(5);
    accumulate_lighting(&mut g1, &vec![torch(1, 1, 5)], &vec![0i64], true);
    assert_eq!(g1.tile(2, 1).light_milli, 800);
}

#[test]
fn zero_radius_emitter_contributes_nothing() {
    let mut g = open_grid(5);
    let emitters = vec![torch(2, 2, 0)];
    let jitters = vec![0i64];
    accumulate_lighting(&mut g, &emitters, &jitters, true);
    for x in 0..5 {
        for y in 0..5 {
            assert_eq!(g.tile(x, y).light_milli, 0);
        }
    }
}

#[test]
fn beyond_radius_contributes_at_most_jitter() {
    let mut g = open_grid(9);
    let emitters = vec![torch(0, 0, 3)];
    let jitters = vec![50i64];
    accumulate_lighting(&mut g, &emitters, &jitters, true);
    // distance 3 == radius: 1000 - 3000/3 + 50 = jitter alone
    assert_eq!(g.tile(3, 0).light_milli, 50);
    // beyond the radius: nothing at all
    assert_eq!(g.tile(4, 0).light_milli, 0);
    assert_eq!(g.tile(8, 8).light_milli, 0);
}

#[test]
fn light_does_not_pass_through_walls() {
    let mut g = open_grid(5);
    g.set_tile(2, 2, Tile::wall());
    let emitters = vec![torch(2, 0, 5)];
    let jitters = vec![0i64];
    accumulate_lighting(&mut g, &emitters, &jitters, true);
    assert!(g.tile(2, 1).light_milli > 0);
    assert_eq!(g.tile(2, 3).light_milli, 0);
    assert_eq!(g.tile(2, 4).light_milli, 0);
}

#[test]
fn accumulate_resets_previous_frame() {
    let mut g = open_grid(5);
    accumulate_lighting(&mut g, &vec![torch(2, 2, 5)], &vec![0i64], true);
    assert_eq!(g.tile(2, 2).light_milli, 1000);
    // Next frame with no emitters: all light gone.
    accumulate_lighting(&mut g, &vec![], &vec![], true);
    for x in 0..5 {
        for y in 0..5 {
            assert_eq!(g.tile(x, y).light_milli, 0);
        }
    }
}

#[test]
fn lighting_leaves_exploration_alone() {
    let mut g = open_grid(5);
    let mut t = g.tile(1, 1);
    t.explored = true;
    g.set_tile(1, 1, t);
    accumulate_lighting(&mut g, &vec![torch(2, 2, 5)], &vec![0i64], true);
    assert!(g.tile(1, 1).explored);
    assert!(!g.tile(0, 0).explored);
}

#[test]
fn display_intensity_clamps_to_unit_range() {
    let mut g = open_grid(5);
    accumulate_lighting(
        &mut g,
        &vec![torch(2, 2, 5), torch(2, 2, 5)],
        &vec![0i64, 0i64],
        true,
    );
    assert_eq!(g.tile(2, 2).light_milli, 2000);
    assert_eq!(g.tile(2, 2).display_intensity(), 1000);
    let mut t = g.tile(0, 0);
    t.light_milli = -25;
    g.set_tile(0, 0, t);
    assert_eq!(g.tile(0, 0).display_intensity(), 0);
    let mut t2 = g.tile(1, 0);
    t2.light_milli = 400;
    g.set_tile(1, 0, t2);
    assert_eq!(g.tile(1, 0).display_intensity(), 400);
}

#[test]
fn sampled_normal_jitter_stays_small() {
    // Jitter drawn from the 0.05-stddev normal used per emitter keeps the
    // intensity at the emitter within a loose +-0.3 of full brightness.
    let mut rng = rand::rngs::StdRng::seed_from_u64(11);
    let normal = rand_distr::Normal::new(0.0f64, LIGHT_JITTER_STDDEV_MILLI as f64 / 1000.0)
        .unwrap();
    for _ in 0..50 {
        let jitter_milli = (normal.sample(&mut rng) * 1000.0).round() as i64;
        let mut g = open_grid(5);
        accumulate_lighting(&mut g, &vec![torch(2, 2, 5)], &vec![jitter_milli], true);
        let at_emitter = g.tile(2, 2).light_milli;
        assert_eq!(at_emitter, 1000 + jitter_milli);
        assert!((at_emitter - 1000).abs() <= 300);
    }
}
