//! The dungeon generator: rejection-sampled non-overlapping rooms carved
//! into a wall-filled grid and joined, each to the previously accepted one,
//! by an L-shaped pair of one-tile-wide corridors.

use vstd::prelude::*;

verus! {

use crate::map::{Grid, Tile};
use crate::rect::Rect;
use crate::rng::{rng_range, rng_coin};
use vstd::arithmetic::div_mod::{
    lemma_div_is_ordered,
    lemma_div_multiples_vanish,
    lemma_hoist_over_denominator,
};

/// Default map width in tiles.
pub const MAP_WIDTH: i32 = 80;

/// Default map height in tiles.
pub const MAP_HEIGHT: i32 = 45;

/// Largest sampled room side.
pub const ROOM_MAX_SIZE: i32 = 10;

/// Smallest sampled room side.
pub const ROOM_MIN_SIZE: i32 = 6;

/// Number of room placement attempts per generation.
pub const MAX_ROOMS: i32 = 30;

/// `(x, y)` lies strictly inside the room's bounding rectangle: on a carved
/// floor tile, not on the surrounding wall ring.
pub open spec fn in_interior(r: Rect, x: int, y: int) -> bool {
    r.x1 < x < r.x2 && r.y1 < y < r.y2
}

/// Every tile that is open (not blocked) in `a` is still open in `b`.
pub open spec fn preserves_open(a: Grid, b: Grid) -> bool {
    forall|x: int, y: int|
        a.in_bounds(x, y) && !(#[trigger] a.tile_at(x, y)).blocked ==> !(
        #[trigger] b.tile_at(x, y)).blocked
}

/// The two coordinates are equal or one step apart along one axis.
pub open spec fn adjacent(a: (int, int), b: (int, int)) -> bool {
    (a.0 == b.0 && (a.1 == b.1 + 1 || b.1 == a.1 + 1)) || (a.1 == b.1 && (a.0 == b.0 + 1 || b.0
        == a.0 + 1))
}

/// `s` walks from `a` to `b` over in-bounds, non-blocked tiles, each step
/// moving to an adjacent tile.
pub open spec fn is_clear_path(m: Grid, s: Seq<(int, int)>, a: (int, int), b: (int, int)) -> bool {
    &&& s.len() >= 1
    &&& s[0] == a
    &&& s[s.len() - 1] == b
    &&& forall|i: int|
        0 <= i < s.len() ==> m.in_bounds((#[trigger] s[i]).0, s[i].1) && !m.tile_at(
            s[i].0,
            s[i].1,
        ).blocked
    &&& forall|i: int| 0 <= i < s.len() - 1 ==> adjacent(#[trigger] s[i], s[i + 1])
}

/// A continuous path of non-blocked tiles joins `a` and `b`.
pub open spec fn connected(m: Grid, a: (int, int), b: (int, int)) -> bool {
    exists|s: Seq<(int, int)>| is_clear_path(m, s, a, b)
}

/// The tiles of the horizontal segment from `(xa, y)` to `(xb, y)`, one per
/// column, endpoints included.
pub open spec fn h_path(xa: int, xb: int, y: int) -> Seq<(int, int)>
    decreases vstd::math::abs(xb - xa),
{
    if xa == xb {
        seq![(xa, y)]
    } else if xa < xb {
        h_path(xa, xb - 1, y).push((xb, y))
    } else {
        h_path(xa, xb + 1, y).push((xb, y))
    }
}

/// The tiles of the vertical segment from `(x, ya)` to `(x, yb)`.
pub open spec fn v_path(ya: int, yb: int, x: int) -> Seq<(int, int)>
    decreases vstd::math::abs(yb - ya),
{
    if ya == yb {
        seq![(x, ya)]
    } else if ya < yb {
        v_path(ya, yb - 1, x).push((x, yb))
    } else {
        v_path(ya, yb + 1, x).push((x, yb))
    }
}

/// A horizontal run of open tiles carries a clear path between its ends.
proof fn lemma_h_path_valid(m: Grid, xa: int, xb: int, y: int)
    requires
        m.wf(),
        0 <= vstd::math::min(xa, xb),
        vstd::math::max(xa, xb) < m.spec_width(),
        0 <= y < m.spec_height(),
        forall|x: int|
            vstd::math::min(xa, xb) <= x <= vstd::math::max(xa, xb) ==> !(#[trigger] m.tile_at(
                x,
                y,
            )).blocked,
    ensures
        is_clear_path(m, h_path(xa, xb, y), (xa, y), (xb, y)),
    decreases vstd::math::abs(xb - xa),
{
    let s = h_path(xa, xb, y);
    if xa == xb {
        assert(s =~= seq![(xa, y)]);
        assert(s[0] == (xa, y));
    } else if xa < xb {
        lemma_h_path_valid(m, xa, xb - 1, y);
        let s0 = h_path(xa, xb - 1, y);
        assert(s == s0.push((xb, y)));
        assert(s[s.len() - 1] == (xb, y));
        assert(forall|i: int| 0 <= i < s0.len() ==> s[i] == s0[i]);
        assert(adjacent(s0[s0.len() - 1], (xb, y)));
    } else {
        lemma_h_path_valid(m, xa, xb + 1, y);
        let s0 = h_path(xa, xb + 1, y);
        assert(s == s0.push((xb, y)));
        assert(s[s.len() - 1] == (xb, y));
        assert(forall|i: int| 0 <= i < s0.len() ==> s[i] == s0[i]);
        assert(adjacent(s0[s0.len() - 1], (xb, y)));
    }
}

/// A vertical run of open tiles carries a clear path between its ends.
proof fn lemma_v_path_valid(m: Grid, ya: int, yb: int, x: int)
    requires
        m.wf(),
        0 <= vstd::math::min(ya, yb),
        vstd::math::max(ya, yb) < m.spec_height(),
        0 <= x < m.spec_width(),
        forall|y: int|
            vstd::math::min(ya, yb) <= y <= vstd::math::max(ya, yb) ==> !(#[trigger] m.tile_at(
                x,
                y,
            )).blocked,
    ensures
        is_clear_path(m, v_path(ya, yb, x), (x, ya), (x, yb)),
    decreases vstd::math::abs(yb - ya),
{
    let s = v_path(ya, yb, x);
    if ya == yb {
        assert(s =~= seq![(x, ya)]);
        assert(s[0] == (x, ya));
    } else if ya < yb {
        lemma_v_path_valid(m, ya, yb - 1, x);
        let s0 = v_path(ya, yb - 1, x);
        assert(s == s0.push((x, yb)));
        assert(s[s.len() - 1] == (x, yb));
        assert(forall|i: int| 0 <= i < s0.len() ==> s[i] == s0[i]);
        assert(adjacent(s0[s0.len() - 1], (x, yb)));
    } else {
        lemma_v_path_valid(m, ya, yb + 1, x);
        let s0 = v_path(ya, yb + 1, x);
        assert(s == s0.push((x, yb)));
        assert(s[s.len() - 1] == (x, yb));
        assert(forall|i: int| 0 <= i < s0.len() ==> s[i] == s0[i]);
        assert(adjacent(s0[s0.len() - 1], (x, yb)));
    }
}

/// Two clear paths that meet at `b` join into a clear path from `a` to `c`.
proof fn lemma_path_concat(
    m: Grid,
    s1: Seq<(int, int)>,
    s2: Seq<(int, int)>,
    a: (int, int),
    b: (int, int),
    c: (int, int),
)
    requires
        is_clear_path(m, s1, a, b),
        is_clear_path(m, s2, b, c),
    ensures
        connected(m, a, c),
{
    let s = s1 + s2.subrange(1, s2.len() as int);
    assert forall|i: int| 0 <= i < s.len() implies m.in_bounds((#[trigger] s[i]).0, s[i].1)
        && !m.tile_at(s[i].0, s[i].1).blocked by {
        if i < s1.len() {
            assert(s[i] == s1[i]);
        } else {
            assert(s[i] == s2[i - s1.len() + 1]);
        }
    }
    assert forall|i: int| 0 <= i < s.len() - 1 implies adjacent(#[trigger] s[i], s[i + 1]) by {
        if i + 1 < s1.len() {
            assert(s[i] == s1[i] && s[i + 1] == s1[i + 1]);
        } else if i + 1 == s1.len() {
            if s2.len() == 1 {
                assert(s.len() == s1.len());
            } else {
                assert(s[i] == s1[i] && s1[i] == b);
                assert(s[i + 1] == s2[1]);
                assert(adjacent(s2[0], s2[1]));
            }
        } else {
            assert(s[i] == s2[i - s1.len() + 1]);
            assert(s[i + 1] == s2[i - s1.len() + 2]);
            assert(adjacent(s2[i - s1.len() + 1], s2[i - s1.len() + 2]));
        }
    }
    assert(s[0] == s1[0]);
    if s2.len() == 1 {
        assert(s.len() == s1.len());
        assert(s[s.len() - 1] == s1[s1.len() - 1]);
    } else {
        assert(s[s.len() - 1] == s2[s2.len() - 1]);
    }
    assert(is_clear_path(m, s, a, c));
}

/// A clear path stays clear on any grid that keeps its open tiles open.
proof fn lemma_path_preserved(
    m1: Grid,
    m2: Grid,
    s: Seq<(int, int)>,
    a: (int, int),
    b: (int, int),
)
    requires
        is_clear_path(m1, s, a, b),
        m1.same_dims(m2),
        preserves_open(m1, m2),
    ensures
        is_clear_path(m2, s, a, b),
{
    assert forall|i: int| 0 <= i < s.len() implies m2.in_bounds((#[trigger] s[i]).0, s[i].1)
        && !m2.tile_at(s[i].0, s[i].1).blocked by {
        assert(m1.in_bounds(s[i].0, s[i].1) && !m1.tile_at(s[i].0, s[i].1).blocked);
    }
}

/// The room's center lies between its corners on both axes.
proof fn lemma_center_in_rect(r: Rect)
    requires
        r.wf(),
    ensures
        r.x1 <= r.center_spec().0 <= r.x2,
        r.y1 <= r.center_spec().1 <= r.y2,
{
    lemma_div_is_ordered(2 * r.x1, r.x1 + r.x2, 2);
    lemma_div_is_ordered(r.x1 + r.x2, 2 * r.x2, 2);
    lemma_div_multiples_vanish(r.x1 as int, 2);
    lemma_div_multiples_vanish(r.x2 as int, 2);
    lemma_div_is_ordered(2 * r.y1, r.y1 + r.y2, 2);
    lemma_div_is_ordered(r.y1 + r.y2, 2 * r.y2, 2);
    lemma_div_multiples_vanish(r.y1 as int, 2);
    lemma_div_multiples_vanish(r.y2 as int, 2);
}

/// A room at least 2 wide and 2 tall holds its own center strictly inside.
proof fn lemma_center_in_interior(r: Rect)
    requires
        r.wf(),
        r.x2 - r.x1 >= 2,
        r.y2 - r.y1 >= 2,
    ensures
        in_interior(r, r.center_spec().0, r.center_spec().1),
{
    let w = r.x2 - r.x1;
    let h = r.y2 - r.y1;
    lemma_hoist_over_denominator(w, r.x1 as int, 2);
    assert(r.center_spec().0 == r.x1 + w / 2);
    lemma_div_is_ordered(2, w, 2);
    lemma_div_multiples_vanish(1, 2);
    lemma_div_is_ordered(w, 2 * (w - 1), 2);
    lemma_div_multiples_vanish(w - 1, 2);
    lemma_hoist_over_denominator(h, r.y1 as int, 2);
    assert(r.center_spec().1 == r.y1 + h / 2);
    lemma_div_is_ordered(2, h, 2);
    lemma_div_is_ordered(h, 2 * (h - 1), 2);
    lemma_div_multiples_vanish(h - 1, 2);
}

/// Carve the room's interior (exclusive of its bounding edge) to floor.
pub fn create_room(room: Rect, map: &mut Grid)
    requires
        old(map).wf(),
        room.wf(),
        room.x2 < old(map).spec_width(),
        room.y2 < old(map).spec_height(),
    ensures
        final(map).wf(),
        final(map).same_dims(*old(map)),
        forall|a: int, b: int|
            final(map).in_bounds(a, b) ==> final(map).tile_at(a, b) == (if in_interior(
                room,
                a,
                b,
            ) {
                Tile::empty_spec()
            } else {
                old(map).tile_at(a, b)
            }),
{
    let mut x = room.x1 + 1;
    while x < room.x2
        invariant
            map.wf(),
            map.same_dims(*old(map)),
            room.wf(),
            room.x2 < map.spec_width(),
            room.y2 < map.spec_height(),
            room.x1 + 1 <= x <= vstd::math::max(room.x2 as int, room.x1 + 1),
            forall|a: int, b: int|
                map.in_bounds(a, b) ==> map.tile_at(a, b) == (if in_interior(room, a, b) && a
                    < x {
                    Tile::empty_spec()
                } else {
                    old(map).tile_at(a, b)
                }),
        decreases room.x2 - x,
    {
        let mut y = room.y1 + 1;
        while y < room.y2
            invariant
                map.wf(),
                map.same_dims(*old(map)),
                room.wf(),
                room.x2 < map.spec_width(),
                room.y2 < map.spec_height(),
                room.x1 + 1 <= x < room.x2,
                room.y1 + 1 <= y <= vstd::math::max(room.y2 as int, room.y1 + 1),
                forall|a: int, b: int|
                    map.in_bounds(a, b) ==> map.tile_at(a, b) == (if in_interior(room, a, b) && (a
                        < x || (a == x && b < y)) {
                        Tile::empty_spec()
                    } else {
                        old(map).tile_at(a, b)
                    }),
            decreases room.y2 - y,
        {
            map.set_tile(x, y, Tile::empty());
            y = y + 1;
        }
        x = x + 1;
    }
}

/// Carve a one-tile-wide horizontal corridor from `(x1, y)` to `(x2, y)`,
/// endpoints included, in either order.
pub fn create_h_tunnel(x1: i32, x2: i32, y: i32, map: &mut Grid)
    requires
        old(map).wf(),
        0 <= vstd::math::min(x1 as int, x2 as int),
        vstd::math::max(x1 as int, x2 as int) < old(map).spec_width(),
        0 <= y < old(map).spec_height(),
    ensures
        final(map).wf(),
        final(map).same_dims(*old(map)),
        forall|a: int, b: int|
            final(map).in_bounds(a, b) ==> final(map).tile_at(a, b) == (if vstd::math::min(
                x1 as int,
                x2 as int,
            ) <= a <= vstd::math::max(x1 as int, x2 as int) && b == y {
                Tile::empty_spec()
            } else {
                old(map).tile_at(a, b)
            }),
{
    let lo = if x1 < x2 {
        x1
    } else {
        x2
    };
    let hi = if x1 < x2 {
        x2
    } else {
        x1
    };
    let mut x = lo;
    while x <= hi
        invariant
            map.wf(),
            map.same_dims(*old(map)),
            lo == vstd::math::min(x1 as int, x2 as int),
            hi == vstd::math::max(x1 as int, x2 as int),
            0 <= lo,
            hi < map.spec_width(),
            0 <= y < map.spec_height(),
            lo <= x <= hi + 1,
            forall|a: int, b: int|
                map.in_bounds(a, b) ==> map.tile_at(a, b) == (if lo <= a < x && b == y {
                    Tile::empty_spec()
                } else {
                    old(map).tile_at(a, b)
                }),
        decreases hi + 1 - x,
    {
        map.set_tile(x, y, Tile::empty());
        x = x + 1;
    }
}

/// Carve a one-tile-wide vertical corridor from `(x, y1)` to `(x, y2)`,
/// endpoints included, in either order.
pub fn create_v_tunnel(y1: i32, y2: i32, x: i32, map: &mut Grid)
    requires
        old(map).wf(),
        0 <= vstd::math::min(y1 as int, y2 as int),
        vstd::math::max(y1 as int, y2 as int) < old(map).spec_height(),
        0 <= x < old(map).spec_width(),
    ensures
        final(map).wf(),
        final(map).same_dims(*old(map)),
        forall|a: int, b: int|
            final(map).in_bounds(a, b) ==> final(map).tile_at(a, b) == (if vstd::math::min(
                y1 as int,
                y2 as int,
            ) <= b <= vstd::math::max(y1 as int, y2 as int) && a == x {
                Tile::empty_spec()
            } else {
                old(map).tile_at(a, b)
            }),
{
    let lo = if y1 < y2 {
        y1
    } else {
        y2
    };
    let hi = if y1 < y2 {
        y2
    } else {
        y1
    };
    let mut y = lo;
    while y <= hi
        invariant
            map.wf(),
            map.same_dims(*old(map)),
            lo == vstd::math::min(y1 as int, y2 as int),
            hi == vstd::math::max(y1 as int, y2 as int),
            0 <= lo,
            hi < map.spec_height(),
            0 <= x < map.spec_width(),
            lo <= y <= hi + 1,
            forall|a: int, b: int|
                map.in_bounds(a, b) ==> map.tile_at(a, b) == (if lo <= b < y && a == x {
                    Tile::empty_spec()
                } else {
                    old(map).tile_at(a, b)
                }),
        decreases hi + 1 - y,
    {
        map.set_tile(x, y, Tile::empty());
        y = y + 1;
    }
}

/// The room fits the grid with its sampled side lengths.
pub open spec fn room_in_grid(r: Rect, width: int, height: int, room_min: int, room_max: int) -> bool {
    &&& r.wf()
    &&& r.x2 < width
    &&& r.y2 < height
    &&& room_min <= r.x2 - r.x1 <= room_max
    &&& room_min <= r.y2 - r.y1 <= room_max
}

pub open spec fn rooms_geometry(
    rooms: Seq<Rect>,
    width: int,
    height: int,
    room_min: int,
    room_max: int,
) -> bool {
    forall|i: int|
        0 <= i < rooms.len() ==> room_in_grid(#[trigger] rooms[i], width, height, room_min, room_max)
}

/// No two accepted rooms' bounding rectangles satisfy the overlap predicate.
pub open spec fn rooms_disjoint(rooms: Seq<Rect>) -> bool {
    forall|i: int, j: int|
        0 <= i < j < rooms.len() ==> !(#[trigger] rooms[i]).overlaps(#[trigger] rooms[j])
}

/// Every accepted room's interior is carved: non-blocked throughout.
pub open spec fn rooms_carved(m: Grid, rooms: Seq<Rect>) -> bool {
    forall|i: int, x: int, y: int|
        #![trigger rooms[i], m.tile_at(x, y)]
        0 <= i < rooms.len() && in_interior(rooms[i], x, y) ==> !m.tile_at(x, y).blocked
}

/// Each accepted room's center is joined to the previous one's by a
/// continuous path of non-blocked tiles.
pub open spec fn rooms_connected(m: Grid, rooms: Seq<Rect>) -> bool {
    forall|i: int|
        1 <= i < rooms.len() ==> connected(
            m,
            rooms[i - 1].center_spec(),
            (#[trigger] rooms[i]).center_spec(),
        )
}

/// The start position is `(0, 0)` while no room stands; once rooms exist it
/// is the first room's center, a non-blocked tile whenever rooms are at
/// least 2 wide and tall.
pub open spec fn start_ok(m: Grid, rooms: Seq<Rect>, start: (int, int), room_min: int) -> bool {
    if rooms.len() == 0 {
        start == (0int, 0int)
    } else {
        &&& start == rooms[0].center_spec()
        &&& (room_min >= 2 ==> m.in_bounds(start.0, start.1) && !m.tile_at(
            start.0,
            start.1,
        ).blocked)
    }
}

/// `(x, y)` lies on the horizontal corridor row `yy` between columns `xa`
/// and `xb`, endpoints included.
pub open spec fn on_h_segment(x: int, y: int, xa: int, xb: int, yy: int) -> bool {
    vstd::math::min(xa, xb) <= x <= vstd::math::max(xa, xb) && y == yy
}

/// `(x, y)` lies on the vertical corridor column `xx` between rows `ya` and
/// `yb`, endpoints included.
pub open spec fn on_v_segment(x: int, y: int, ya: int, yb: int, xx: int) -> bool {
    vstd::math::min(ya, yb) <= y <= vstd::math::max(ya, yb) && x == xx
}

/// `(x, y)` lies on one of the two L-shaped corridor orderings between the
/// centers `a` (earlier room) and `b` (later room): horizontal at `a`'s row
/// then vertical at `b`'s column, or vertical at `a`'s column then
/// horizontal at `b`'s row. Which of the two is carved is the coin's
/// choice, so this covers either.
pub open spec fn on_l_corridor(x: int, y: int, a: (int, int), b: (int, int)) -> bool {
    ||| on_h_segment(x, y, a.0, b.0, a.1)
    ||| on_v_segment(x, y, a.1, b.1, b.0)
    ||| on_v_segment(x, y, a.1, b.1, a.0)
    ||| on_h_segment(x, y, a.0, b.0, b.1)
}

/// `(x, y)` may have been carved: it lies inside some accepted room's
/// interior or on an L-corridor between some pair of consecutive centers.
pub open spec fn carve_allowed(rooms: Seq<Rect>, x: int, y: int) -> bool {
    ||| exists|i: int| 0 <= i < rooms.len() && in_interior(#[trigger] rooms[i], x, y)
    ||| exists|i: int|
        1 <= i < rooms.len() && on_l_corridor(
            x,
            y,
            rooms[i - 1].center_spec(),
            (#[trigger] rooms[i]).center_spec(),
        )
}

/// Carving never reaches beyond the allowed tiles: every other tile is
/// still the untouched wall.
pub open spec fn walls_elsewhere(m: Grid, rooms: Seq<Rect>) -> bool {
    forall|x: int, y: int|
        m.in_bounds(x, y) && !carve_allowed(rooms, x, y) ==> #[trigger] m.tile_at(x, y)
            == Tile::wall_spec()
}

/// A tile allowed under some room list stays allowed when a room is added.
proof fn lemma_carve_allowed_push(rooms: Seq<Rect>, r: Rect, x: int, y: int)
    requires
        carve_allowed(rooms, x, y),
    ensures
        carve_allowed(rooms.push(r), x, y),
{
    let rs = rooms.push(r);
    if exists|i: int| 0 <= i < rooms.len() && in_interior(#[trigger] rooms[i], x, y) {
        let i = choose|i: int| 0 <= i < rooms.len() && in_interior(#[trigger] rooms[i], x, y);
        assert(rs[i] == rooms[i]);
        assert(in_interior(rs[i], x, y));
    } else {
        let i = choose|i: int|
            1 <= i < rooms.len() && on_l_corridor(
                x,
                y,
                rooms[i - 1].center_spec(),
                (#[trigger] rooms[i]).center_spec(),
            );
        assert(rs[i] == rooms[i]);
        assert(rs[i - 1] == rooms[i - 1]);
        assert(on_l_corridor(x, y, rs[i - 1].center_spec(), rs[i].center_spec()));
    }
}

/// Carving more floor never unsettles what is already established: interiors
/// stay carved, paths stay clear, the start tile stays open.
proof fn lemma_gen_facts_preserved(
    m1: Grid,
    m2: Grid,
    rooms: Seq<Rect>,
    start: (int, int),
    room_min: int,
    room_max: int,
)
    requires
        m1.wf(),
        m2.wf(),
        m1.same_dims(m2),
        preserves_open(m1, m2),
        rooms_geometry(rooms, m1.spec_width(), m1.spec_height(), room_min, room_max),
        rooms_carved(m1, rooms),
        rooms_connected(m1, rooms),
        start_ok(m1, rooms, start, room_min),
    ensures
        rooms_carved(m2, rooms),
        rooms_connected(m2, rooms),
        start_ok(m2, rooms, start, room_min),
{
    assert forall|i: int, x: int, y: int|
        #![trigger rooms[i], m2.tile_at(x, y)]
        0 <= i < rooms.len() && in_interior(rooms[i], x, y) implies !m2.tile_at(x, y).blocked by {
        assert(room_in_grid(rooms[i], m1.spec_width(), m1.spec_height(), room_min, room_max));
        assert(m1.in_bounds(x, y));
        assert(!m1.tile_at(x, y).blocked);
    }
    assert forall|i: int| 1 <= i < rooms.len() implies connected(
        m2,
        rooms[i - 1].center_spec(),
        (#[trigger] rooms[i]).center_spec(),
    ) by {
        let s = choose|s: Seq<(int, int)>|
            #[trigger] is_clear_path(m1, s, rooms[i - 1].center_spec(), rooms[i].center_spec());
        lemma_path_preserved(m1, m2, s, rooms[i - 1].center_spec(), rooms[i].center_spec());
    }
}

/// Generate a dungeon: up to `max_rooms` rejection-sampled candidate rooms,
/// each accepted only when its bounding rectangle touches no earlier room's,
/// carved into a wall-filled grid; consecutive rooms are joined by an
/// L-shaped corridor pair, ordered by a coin toss. Returns the grid, the
/// start position (the first room's center, or `(0, 0)` when no room was
/// accepted and the grid is all walls), and the accepted rooms in order.
#[verifier::rlimit(100)]
pub fn generate(
    width: i32,
    height: i32,
    max_rooms: i32,
    room_min: i32,
    room_max: i32,
    rng: &mut rand::rngs::StdRng,
) -> (r: (Grid, (i32, i32), Vec<Rect>))
    requires
        1 <= width <= crate::map::MAX_DIM,
        1 <= height <= crate::map::MAX_DIM,
        0 <= room_min <= room_max,
        room_max < width,
        room_max < height,
    ensures
        r.0.wf(),
        r.0.spec_width() == width,
        r.0.spec_height() == height,
        rooms_geometry(r.2@, width as int, height as int, room_min as int, room_max as int),
        rooms_disjoint(r.2@),
        rooms_carved(r.0, r.2@),
        rooms_connected(r.0, r.2@),
        start_ok(r.0, r.2@, (r.1.0 as int, r.1.1 as int), room_min as int),
        r.2@.len() <= vstd::math::max(max_rooms as int, 0),
        max_rooms >= 1 ==> r.2@.len() >= 1,
        walls_elsewhere(r.0, r.2@),
        forall|x: int, y: int|
            r.0.in_bounds(x, y) ==> (#[trigger] r.0.tile_at(x, y) == Tile::wall_spec()
                || r.0.tile_at(x, y) == Tile::empty_spec()),
        r.2@.len() == 0 ==> forall|x: int, y: int|
            r.0.in_bounds(x, y) ==> r.0.tile_at(x, y) == Tile::wall_spec(),
{
    let mut map = Grid::new(width, height);
    let mut rooms: Vec<Rect> = Vec::new();
    let mut starting_position: (i32, i32) = (0, 0);
    let mut attempt: i32 = 0;
    while attempt < max_rooms
        invariant
            map.wf(),
            map.spec_width() == width,
            map.spec_height() == height,
            1 <= width <= crate::map::MAX_DIM,
            1 <= height <= crate::map::MAX_DIM,
            0 <= room_min <= room_max,
            room_max < width,
            room_max < height,
            0 <= attempt,
            attempt <= vstd::math::max(max_rooms as int, 0),
            rooms@.len() <= attempt,
            attempt >= 1 ==> rooms@.len() >= 1,
            walls_elsewhere(map, rooms@),
            rooms_geometry(rooms@, width as int, height as int, room_min as int, room_max as int),
            rooms_disjoint(rooms@),
            rooms_carved(map, rooms@),
            rooms_connected(map, rooms@),
            start_ok(
                map,
                rooms@,
                (starting_position.0 as int, starting_position.1 as int),
                room_min as int,
            ),
            forall|x: int, y: int|
                map.in_bounds(x, y) ==> (#[trigger] map.tile_at(x, y) == Tile::wall_spec()
                    || map.tile_at(x, y) == Tile::empty_spec()),
            rooms@.len() == 0 ==> forall|x: int, y: int|
                map.in_bounds(x, y) ==> map.tile_at(x, y) == Tile::wall_spec(),
        decreases max_rooms - attempt,
    {
        let w = rng_range(rng, room_min, room_max + 1);
        let h = rng_range(rng, room_min, room_max + 1);
        let x = rng_range(rng, 0, width - w);
        let y = rng_range(rng, 0, height - h);

        let new_room = Rect::new(x, y, w, h);

        let mut failed = false;
        let mut j: usize = 0;
        while j < rooms.len()
            invariant
                j <= rooms@.len(),
                failed == !(forall|i: int|
                    0 <= i < j ==> !new_room.overlaps(#[trigger] rooms@[i])),
            decreases rooms@.len() - j,
        {
            if new_room.intersects_with(&rooms[j]) {
                failed = true;
            }
            j = j + 1;
        }

        if !failed {
            let ghost rooms0 = rooms@;
            let ghost start0 = (starting_position.0 as int, starting_position.1 as int);
            let ghost m0 = map;
            create_room(new_room, &mut map);
            proof {
                assert(preserves_open(m0, map));
                lemma_gen_facts_preserved(
                    m0,
                    map,
                    rooms0,
                    start0,
                    room_min as int,
                    room_max as int,
                );
            }
            let center = new_room.center();
            let new_x = center.0;
            let new_y = center.1;
            proof {
                lemma_center_in_rect(new_room);
            }
            if rooms.is_empty() {
                starting_position = (new_x, new_y);
                proof {
                    if room_min >= 2 {
                        lemma_center_in_interior(new_room);
                    }
                    assert forall|a: int, b: int|
                        map.in_bounds(a, b) && !carve_allowed(rooms0.push(new_room), a, b)
                        implies #[trigger] map.tile_at(a, b) == Tile::wall_spec() by {
                        let rs = rooms0.push(new_room);
                        assert(rs[rs.len() - 1] == new_room);
                        if in_interior(new_room, a, b) {
                            assert(in_interior(rs[rs.len() - 1], a, b));
                            assert(carve_allowed(rs, a, b));
                        }
                        if carve_allowed(rooms0, a, b) {
                            lemma_carve_allowed_push(rooms0, new_room, a, b);
                        }
                        assert(m0.tile_at(a, b) == Tile::wall_spec());
                    }
                }
            } else {
                let prev = rooms[rooms.len() - 1];
                proof {
                    assert(room_in_grid(
                        rooms@[rooms@.len() - 1],
                        width as int,
                        height as int,
                        room_min as int,
                        room_max as int,
                    ));
                    lemma_center_in_rect(prev);
                }
                let prev_center = prev.center();
                let prev_x = prev_center.0;
                let prev_y = prev_center.1;
                let ghost start1 = (starting_position.0 as int, starting_position.1 as int);
                if rng_coin(rng) {
                    let ghost m1 = map;
                    create_h_tunnel(prev_x, new_x, prev_y, &mut map);
                    proof {
                        assert(preserves_open(m1, map));
                        lemma_gen_facts_preserved(
                            m1,
                            map,
                            rooms0,
                            start1,
                            room_min as int,
                            room_max as int,
                        );
                    }
                    let ghost m2 = map;
                    create_v_tunnel(prev_y, new_y, new_x, &mut map);
                    proof {
                        assert(preserves_open(m2, map));
                        lemma_gen_facts_preserved(
                            m2,
                            map,
                            rooms0,
                            start1,
                            room_min as int,
                            room_max as int,
                        );
                        lemma_h_path_valid(map, prev_x as int, new_x as int, prev_y as int);
                        lemma_v_path_valid(map, prev_y as int, new_y as int, new_x as int);
                        lemma_path_concat(
                            map,
                            h_path(prev_x as int, new_x as int, prev_y as int),
                            v_path(prev_y as int, new_y as int, new_x as int),
                            (prev_x as int, prev_y as int),
                            (new_x as int, prev_y as int),
                            (new_x as int, new_y as int),
                        );
                        assert forall|a: int, b: int|
                            map.in_bounds(a, b) && !carve_allowed(rooms0.push(new_room), a, b)
                            implies #[trigger] map.tile_at(a, b) == Tile::wall_spec() by {
                            let rs = rooms0.push(new_room);
                            let k = rs.len() - 1;
                            assert(rs[k] == new_room);
                            assert(rs[k - 1] == rooms0[rooms0.len() - 1]);
                            assert(rs[k - 1].center_spec() == (prev_x as int, prev_y as int));
                            assert(rs[k].center_spec() == (new_x as int, new_y as int));
                            if in_interior(new_room, a, b) {
                                assert(in_interior(rs[k], a, b));
                                assert(carve_allowed(rs, a, b));
                            }
                            if on_l_corridor(
                                a,
                                b,
                                (prev_x as int, prev_y as int),
                                (new_x as int, new_y as int),
                            ) {
                                assert(carve_allowed(rs, a, b));
                            }
                            if carve_allowed(rooms0, a, b) {
                                lemma_carve_allowed_push(rooms0, new_room, a, b);
                            }
                            assert(m0.tile_at(a, b) == Tile::wall_spec());
                            assert(!on_h_segment(
                                a,
                                b,
                                prev_x as int,
                                new_x as int,
                                prev_y as int,
                            ));
                            assert(!on_v_segment(
                                a,
                                b,
                                prev_y as int,
                                new_y as int,
                                new_x as int,
                            ));
                            assert(!on_v_segment(
                                a,
                                b,
                                prev_y as int,
                                new_y as int,
                                prev_x as int,
                            ));
                            assert(!on_h_segment(
                                a,
                                b,
                                prev_x as int,
                                new_x as int,
                                new_y as int,
                            ));
                            assert(m1.tile_at(a, b) == m0.tile_at(a, b));
                            assert(m2.tile_at(a, b) == m1.tile_at(a, b));
                            assert(map.tile_at(a, b) == m2.tile_at(a, b));
                        }
                    }
                } else {
                    let ghost m1 = map;
                    create_v_tunnel(prev_y, new_y, prev_x, &mut map);
                    proof {
                        assert(preserves_open(m1, map));
                        lemma_gen_facts_preserved(
                            m1,
                            map,
                            rooms0,
                            start1,
                            room_min as int,
                            room_max as int,
                        );
                    }
                    let ghost m2 = map;
                    create_h_tunnel(prev_x, new_x, new_y, &mut map);
                    proof {
                        assert(preserves_open(m2, map));
                        lemma_gen_facts_preserved(
                            m2,
                            map,
                            rooms0,
                            start1,
                            room_min as int,
                            room_max as int,
                        );
                        lemma_v_path_valid(map, prev_y as int, new_y as int, prev_x as int);
                        lemma_h_path_valid(map, prev_x as int, new_x as int, new_y as int);
                        lemma_path_concat(
                            map,
                            v_path(prev_y as int, new_y as int, prev_x as int),
                            h_path(prev_x as int, new_x as int, new_y as int),
                            (prev_x as int, prev_y as int),
                            (prev_x as int, new_y as int),
                            (new_x as int, new_y as int),
                        );
                        assert forall|a: int, b: int|
                            map.in_bounds(a, b) && !carve_allowed(rooms0.push(new_room), a, b)
                            implies #[trigger] map.tile_at(a, b) == Tile::wall_spec() by {
                            let rs = rooms0.push(new_room);
                            let k = rs.len() - 1;
                            assert(rs[k] == new_room);
                            assert(rs[k - 1] == rooms0[rooms0.len() - 1]);
                            assert(rs[k - 1].center_spec() == (prev_x as int, prev_y as int));
                            assert(rs[k].center_spec() == (new_x as int, new_y as int));
                            if in_interior(new_room, a, b) {
                                assert(in_interior(rs[k], a, b));
                                assert(carve_allowed(rs, a, b));
                            }
                            if on_l_corridor(
                                a,
                                b,
                                (prev_x as int, prev_y as int),
                                (new_x as int, new_y as int),
                            ) {
                                assert(carve_allowed(rs, a, b));
                            }
                            if carve_allowed(rooms0, a, b) {
                                lemma_carve_allowed_push(rooms0, new_room, a, b);
                            }
                            assert(m0.tile_at(a, b) == Tile::wall_spec());
                            assert(!on_h_segment(
                                a,
                                b,
                                prev_x as int,
                                new_x as int,
                                prev_y as int,
                            ));
                            assert(!on_v_segment(
                                a,
                                b,
                                prev_y as int,
                                new_y as int,
                                new_x as int,
                            ));
                            assert(!on_v_segment(
                                a,
                                b,
                                prev_y as int,
                                new_y as int,
                                prev_x as int,
                            ));
                            assert(!on_h_segment(
                                a,
                                b,
                                prev_x as int,
                                new_x as int,
                                new_y as int,
                            ));
                            assert(m1.tile_at(a, b) == m0.tile_at(a, b));
                            assert(m2.tile_at(a, b) == m1.tile_at(a, b));
                            assert(map.tile_at(a, b) == m2.tile_at(a, b));
                        }
                    }
                }
            }
            rooms.push(new_room);
            proof {
                let rs = rooms@;
                assert(rs == rooms0.push(new_room));
                assert(forall|i: int| 0 <= i < rooms0.len() ==> rs[i] == rooms0[i]);
                assert(rs[rs.len() - 1] == new_room);
                assert forall|i: int, jj: int| 0 <= i < jj < rs.len() implies !(
                #[trigger] rs[i]).overlaps(#[trigger] rs[jj]) by {
                    if jj < rs.len() - 1 {
                        assert(!rooms0[i].overlaps(rooms0[jj]));
                    } else {
                        assert(!new_room.overlaps(rooms0[i]));
                    }
                }
                assert forall|i: int, xx: int, yy: int|
                    #![trigger rs[i], map.tile_at(xx, yy)]
                    0 <= i < rs.len() && in_interior(rs[i], xx, yy) implies !map.tile_at(
                    xx,
                    yy,
                ).blocked by {
                    if i < rs.len() - 1 {
                        assert(rooms0[i] == rs[i]);
                        assert(rooms_carved(map, rooms0));
                    }
                }
                assert forall|i: int| 1 <= i < rs.len() implies connected(
                    map,
                    rs[i - 1].center_spec(),
                    (#[trigger] rs[i]).center_spec(),
                ) by {
                    if i < rs.len() - 1 {
                        assert(rooms_connected(map, rooms0));
                        assert(connected(
                            map,
                            rooms0[i - 1].center_spec(),
                            rooms0[i].center_spec(),
                        ));
                    }
                }
                assert(start_ok(
                    map,
                    rs,
                    (starting_position.0 as int, starting_position.1 as int),
                    room_min as int,
                ));
                assert(walls_elsewhere(map, rs));
            }
        }
        attempt = attempt + 1;
    }
    (map, starting_position, rooms)
}

/// Generate the default-sized dungeon: the grid and the player start
/// position. With at least one room attempt and the default room sizes the
/// first candidate is always accepted, so the start always lies on a
/// non-blocked tile: the first accepted room's center.
pub fn make_map(rng: &mut rand::rngs::StdRng) -> (r: (Grid, (i32, i32)))
    ensures
        r.0.wf(),
        r.0.spec_width() == MAP_WIDTH,
        r.0.spec_height() == MAP_HEIGHT,
        forall|x: int, y: int|
            r.0.in_bounds(x, y) ==> (#[trigger] r.0.tile_at(x, y) == Tile::wall_spec()
                || r.0.tile_at(x, y) == Tile::empty_spec()),
        r.0.in_bounds(r.1.0 as int, r.1.1 as int),
        !r.0.tile_at(r.1.0 as int, r.1.1 as int).blocked,
{
    let result = generate(MAP_WIDTH, MAP_HEIGHT, MAX_ROOMS, ROOM_MIN_SIZE, ROOM_MAX_SIZE, rng);
    let map = result.0;
    let start = result.1;
    proof {
        assert(result.2@.len() >= 1);
        assert(start_ok(
            map,
            result.2@,
            (start.0 as int, start.1 as int),
            ROOM_MIN_SIZE as int,
        ));
    }
    (map, start)
}


} // verus!
