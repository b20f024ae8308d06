//! Field-of-view: an occlusion-aware sweep over the grid.
//!
//! A tile is visible from an observer when it lies within the sight radius
//! (Euclidean) and no opaque tile stands strictly between the two on the
//! discretized sight ray. The sweep is a pluggable capability of the engine;
//! this implementation marches each candidate ray tile by tile.

use vstd::prelude::*;

verus! {

use crate::map::{Grid, Tile, tile_with_explored, MAX_DIM};
use vstd::arithmetic::div_mod::{lemma_fundamental_div_mod, lemma_div_pos_is_pos};
use vstd::arithmetic::mul::{lemma_mul_inequality, lemma_mul_nonnegative};

/// Default sight radius of the observer, in tiles.
pub const SIGHT_RADIUS: i32 = 100;

/// Whether opaque tiles at the visibility boundary count as visible.
pub const FOV_LIGHT_WALLS: bool = true;

/// Squared Euclidean distance between two coordinates.
pub open spec fn dist2(x0: int, y0: int, x1: int, y1: int) -> int {
    (x1 - x0) * (x1 - x0) + (y1 - y0) * (y1 - y0)
}

/// Number of steps on the discretized ray: the Chebyshev distance.
pub open spec fn ray_len(ox: int, oy: int, tx: int, ty: int) -> int {
    vstd::math::max(vstd::math::abs(tx - ox) as int, vstd::math::abs(ty - oy) as int)
}

/// One axis of the ray at step `i` of `n`: the origin plus the rounded
/// interpolation `i * (t - o) / n`, rounding half away from the origin.
pub open spec fn ray_coord(o: int, t: int, i: int, n: int) -> int {
    if t >= o {
        o + (2 * i * (t - o) + n) / (2 * n)
    } else {
        o - (2 * i * (o - t) + n) / (2 * n)
    }
}

pub open spec fn ray_x(ox: int, oy: int, tx: int, ty: int, i: int) -> int {
    ray_coord(ox, tx, i, ray_len(ox, oy, tx, ty))
}

pub open spec fn ray_y(ox: int, oy: int, tx: int, ty: int, i: int) -> int {
    ray_coord(oy, ty, i, ray_len(ox, oy, tx, ty))
}

/// The tile under step `i` of the sight ray is opaque.
pub open spec fn ray_blocked_at(m: Grid, ox: int, oy: int, tx: int, ty: int, i: int) -> bool {
    m.tile_at(ray_x(ox, oy, tx, ty, i), ray_y(ox, oy, tx, ty, i)).block_sight
}

/// No opaque tile stands strictly between observer and target on the ray.
pub open spec fn path_clear(m: Grid, ox: int, oy: int, tx: int, ty: int) -> bool {
    forall|i: int|
        0 < i < ray_len(ox, oy, tx, ty) ==> !ray_blocked_at(m, ox, oy, tx, ty, i)
}

/// The target `(tx, ty)` is visible from the in-bounds observer `(ox, oy)`
/// under sight radius `radius`. `light_walls` chooses whether opaque tiles at
/// the visibility boundary count as visible; the observer's own tile always
/// does.
pub open spec fn spec_visible(
    m: Grid,
    ox: int,
    oy: int,
    radius: int,
    light_walls: bool,
    tx: int,
    ty: int,
) -> bool {
    &&& m.in_bounds(ox, oy)
    &&& m.in_bounds(tx, ty)
    &&& dist2(ox, oy, tx, ty) <= radius * radius
    &&& path_clear(m, ox, oy, tx, ty)
    &&& (light_walls || !m.tile_at(tx, ty).block_sight || (tx == ox && ty == oy))
}

/// Each ray coordinate stays between its two endpoints.
proof fn lemma_ray_coord_range(o: int, t: int, i: int, n: int)
    requires
        1 <= n,
        0 <= i <= n,
        vstd::math::abs(t - o) <= n,
    ensures
        vstd::math::min(o, t) <= ray_coord(o, t, i, n) <= vstd::math::max(o, t),
{
    let a = vstd::math::abs(t - o) as int;
    let num = 2 * i * a + n;
    let den = 2 * n;
    lemma_mul_nonnegative(2 * i, a);
    lemma_div_pos_is_pos(num, den);
    lemma_fundamental_div_mod(num, den);
    let q = num / den;
    assert(2 * i * a <= 2 * n * a) by {
        lemma_mul_inequality(i, n, 2 * a);
        assert(i * (2 * a) == 2 * i * a) by (nonlinear_arith);
        assert(n * (2 * a) == 2 * n * a) by (nonlinear_arith);
    }
    assert(num < den * (a + 1)) by (nonlinear_arith)
        requires
            num == 2 * i * a + n,
            den == 2 * n,
            2 * i * a <= 2 * n * a,
            n >= 1,
    ;
    assert(q <= a) by {
        if q >= a + 1 {
            lemma_mul_inequality(a + 1, q, den);
            assert(den * (a + 1) == (a + 1) * den) by (nonlinear_arith);
            assert(q * den == den * q) by (nonlinear_arith);
            assert(den * q <= num);
        }
    }
}

/// Every step of a ray between two in-bounds tiles is itself in bounds.
proof fn lemma_ray_point_in_bounds(m: Grid, ox: int, oy: int, tx: int, ty: int, i: int)
    requires
        m.wf(),
        m.in_bounds(ox, oy),
        m.in_bounds(tx, ty),
        0 <= i <= ray_len(ox, oy, tx, ty),
        ray_len(ox, oy, tx, ty) >= 1,
    ensures
        m.in_bounds(ray_x(ox, oy, tx, ty, i), ray_y(ox, oy, tx, ty, i)),
{
    let n = ray_len(ox, oy, tx, ty);
    lemma_ray_coord_range(ox, tx, i, n);
    lemma_ray_coord_range(oy, ty, i, n);
}

/// Two grids that agree on dimensions and opacity agree on visibility.
pub proof fn lemma_visible_same_sight(
    a: Grid,
    b: Grid,
    ox: int,
    oy: int,
    radius: int,
    light_walls: bool,
    tx: int,
    ty: int,
)
    requires
        a.wf(),
        b.wf(),
        a.same_dims(b),
        forall|x: int, y: int|
            a.in_bounds(x, y) ==> #[trigger] a.tile_at(x, y).block_sight == b.tile_at(
                x,
                y,
            ).block_sight,
    ensures
        spec_visible(a, ox, oy, radius, light_walls, tx, ty) == spec_visible(
            b,
            ox,
            oy,
            radius,
            light_walls,
            tx,
            ty,
        ),
{
    if a.in_bounds(ox, oy) && a.in_bounds(tx, ty) {
        let n = ray_len(ox, oy, tx, ty);
        assert forall|i: int| 0 < i < n implies ray_blocked_at(a, ox, oy, tx, ty, i)
            == ray_blocked_at(b, ox, oy, tx, ty, i) by {
            lemma_ray_point_in_bounds(a, ox, oy, tx, ty, i);
        }
        assert(path_clear(a, ox, oy, tx, ty) == path_clear(b, ox, oy, tx, ty));
    }
}

/// Law: the visible set never includes a tile behind an opaque tile that
/// stands strictly between it and the observer on the sight ray.
pub proof fn lemma_occlusion(
    m: Grid,
    ox: int,
    oy: int,
    radius: int,
    light_walls: bool,
    tx: int,
    ty: int,
    i: int,
)
    requires
        0 < i < ray_len(ox, oy, tx, ty),
        ray_blocked_at(m, ox, oy, tx, ty, i),
    ensures
        !spec_visible(m, ox, oy, radius, light_walls, tx, ty),
{
}

/// One axis of the ray at step `i` of `n`, executably.
fn ray_coord_step(o: i32, t: i32, i: i64, n: i64) -> (c: i32)
    requires
        0 <= o < MAX_DIM,
        0 <= t < MAX_DIM,
        1 <= n <= MAX_DIM,
        0 <= i <= n,
        vstd::math::abs(t as int - o as int) <= n,
    ensures
        c == ray_coord(o as int, t as int, i as int, n as int),
{
    proof {
        lemma_ray_coord_range(o as int, t as int, i as int, n as int);
        assert(0 <= 2 * i * vstd::math::abs(t as int - o as int) <= 2 * MAX_DIM * MAX_DIM)
            by (nonlinear_arith)
            requires
                0 <= i <= n,
                vstd::math::abs(t as int - o as int) <= n,
                1 <= n <= MAX_DIM,
        ;
    }
    if t >= o {
        let a = (t - o) as i64;
        let q = ((2 * i * a + n) as u64) / ((2 * n) as u64);
        o + (q as i32)
    } else {
        let a = (o - t) as i64;
        let q = ((2 * i * a + n) as u64) / ((2 * n) as u64);
        o - (q as i32)
    }
}

/// Is the target tile visible from the observer? Pure: the grid is only read.
pub fn is_visible(
    m: &Grid,
    ox: i32,
    oy: i32,
    radius: i32,
    light_walls: bool,
    tx: i32,
    ty: i32,
) -> (r: bool)
    requires
        m.wf(),
        m.in_bounds(ox as int, oy as int),
        radius >= 0,
    ensures
        r == spec_visible(*m, ox as int, oy as int, radius as int, light_walls, tx as int, ty as int),
{
    let w = m.width();
    let h = m.height();
    if tx < 0 || tx >= w || ty < 0 || ty >= h {
        return false;
    }
    let dx = (tx as i64) - (ox as i64);
    let dy = (ty as i64) - (oy as i64);
    proof {
        assert(0 <= dx * dx <= MAX_DIM * MAX_DIM && 0 <= dy * dy <= MAX_DIM * MAX_DIM)
            by (nonlinear_arith)
            requires
                -MAX_DIM <= dx <= MAX_DIM,
                -MAX_DIM <= dy <= MAX_DIM,
        ;
    }
    let d2 = dx * dx + dy * dy;
    proof {
        assert(0 <= (radius as i64) * (radius as i64) <= i64::MAX) by (nonlinear_arith)
            requires
                0 <= radius <= i32::MAX,
        ;
    }
    let r2 = (radius as i64) * (radius as i64);
    if d2 > r2 {
        return false;
    }
    let target = m.tile(tx, ty);
    if target.block_sight && !light_walls && !(tx == ox && ty == oy) {
        return false;
    }
    let adx = if dx < 0 { -dx } else { dx };
    let ady = if dy < 0 { -dy } else { dy };
    let n = if adx > ady { adx } else { ady };
    let ghost oxi = ox as int;
    let ghost oyi = oy as int;
    let ghost txi = tx as int;
    let ghost tyi = ty as int;
    assert(n == ray_len(oxi, oyi, txi, tyi));
    let mut i: i64 = 1;
    let mut clear = true;
    while i < n
        invariant
            m.wf(),
            m.in_bounds(oxi, oyi),
            m.in_bounds(txi, tyi),
            oxi == ox as int && oyi == oy as int && txi == tx as int && tyi == ty as int,
            n == ray_len(oxi, oyi, txi, tyi),
            n <= MAX_DIM,
            1 <= i <= n || (n < 1 && i == 1),
            vstd::math::abs(txi - oxi) <= n,
            vstd::math::abs(tyi - oyi) <= n,
            clear == (forall|j: int| 0 < j < i ==> !ray_blocked_at(*m, oxi, oyi, txi, tyi, j)),
        decreases n - i,
    {
        let xi = ray_coord_step(ox, tx, i, n);
        let yi = ray_coord_step(oy, ty, i, n);
        proof {
            lemma_ray_point_in_bounds(*m, oxi, oyi, txi, tyi, i as int);
        }
        let t = m.tile(xi, yi);
        if t.block_sight {
            clear = false;
            assert(ray_blocked_at(*m, oxi, oyi, txi, tyi, i as int));
        }
        i = i + 1;
    }
    clear
}

/// Compute the visible set of an observer and mark every visible tile as
/// explored; already-explored tiles stay explored (exploration is monotone).
/// Returns exactly the coordinates visible from `(ox, oy)`.
pub fn compute_visible(
    m: &mut Grid,
    ox: i32,
    oy: i32,
    radius: i32,
    light_walls: bool,
) -> (vis: Vec<(i32, i32)>)
    requires
        old(m).wf(),
        old(m).in_bounds(ox as int, oy as int),
        radius >= 0,
    ensures
        final(m).wf(),
        final(m).same_dims(*old(m)),
        forall|x: int, y: int|
            final(m).in_bounds(x, y) && old(m).tile_at(x, y).explored ==> final(m).tile_at(
                x,
                y,
            ).explored,
        forall|x: int, y: int|
            final(m).in_bounds(x, y) ==> final(m).tile_at(x, y) == tile_with_explored(
                old(m).tile_at(x, y),
                old(m).tile_at(x, y).explored || spec_visible(
                    *old(m),
                    ox as int,
                    oy as int,
                    radius as int,
                    light_walls,
                    x,
                    y,
                ),
            ),
        forall|p: (i32, i32)|
            #[trigger] vis@.contains(p) <==> spec_visible(
                *old(m),
                ox as int,
                oy as int,
                radius as int,
                light_walls,
                p.0 as int,
                p.1 as int,
            ),
        vis@.no_duplicates(),
{
    let w = m.width();
    let h = m.height();
    let mut vis: Vec<(i32, i32)> = Vec::new();
    let ghost m0 = *m;
    let mut x: i32 = 0;
    while x < w
        invariant
            m.wf(),
            m.same_dims(m0),
            m0.wf(),
            m0 == *old(m),
            m0.in_bounds(ox as int, oy as int),
            radius >= 0,
            w == m0.spec_width(),
            h == m0.spec_height(),
            0 <= x <= w,
            forall|a: int, b: int|
                m0.in_bounds(a, b) && a < x ==> #[trigger] m.tile_at(a, b) == tile_with_explored(
                    m0.tile_at(a, b),
                    m0.tile_at(a, b).explored || spec_visible(
                        m0,
                        ox as int,
                        oy as int,
                        radius as int,
                        light_walls,
                        a,
                        b,
                    ),
                ),
            forall|a: int, b: int|
                m0.in_bounds(a, b) && a >= x ==> #[trigger] m.tile_at(a, b) == m0.tile_at(a, b),
            forall|p: (i32, i32)|
                #[trigger] vis@.contains(p) <==> (p.0 < x && spec_visible(
                    m0,
                    ox as int,
                    oy as int,
                    radius as int,
                    light_walls,
                    p.0 as int,
                    p.1 as int,
                )),
            vis@.no_duplicates(),
        decreases w - x,
    {
        let mut y: i32 = 0;
        while y < h
            invariant
                m.wf(),
                m.same_dims(m0),
                m0.wf(),
                m0 == *old(m),
                m0.in_bounds(ox as int, oy as int),
                radius >= 0,
                w == m0.spec_width(),
                h == m0.spec_height(),
                0 <= x < w,
                0 <= y <= h,
                forall|a: int, b: int|
                    m0.in_bounds(a, b) && (a < x || (a == x && b < y)) ==> #[trigger] m.tile_at(
                        a,
                        b,
                    ) == tile_with_explored(
                        m0.tile_at(a, b),
                        m0.tile_at(a, b).explored || spec_visible(
                            m0,
                            ox as int,
                            oy as int,
                            radius as int,
                            light_walls,
                            a,
                            b,
                        ),
                    ),
                forall|a: int, b: int|
                    m0.in_bounds(a, b) && (a > x || (a == x && b >= y)) ==> #[trigger] m.tile_at(
                        a,
                        b,
                    ) == m0.tile_at(a, b),
                forall|p: (i32, i32)|
                    #[trigger] vis@.contains(p) <==> ((p.0 < x || (p.0 == x && p.1 < y))
                        && spec_visible(
                        m0,
                        ox as int,
                        oy as int,
                        radius as int,
                        light_walls,
                        p.0 as int,
                        p.1 as int,
                    )),
                vis@.no_duplicates(),
            decreases h - y,
        {
            proof {
                lemma_visible_same_sight(
                    *m,
                    m0,
                    ox as int,
                    oy as int,
                    radius as int,
                    light_walls,
                    x as int,
                    y as int,
                );
            }
            let v = is_visible(m, ox, oy, radius, light_walls, x, y);
            let ghost vis_old = vis@;
            if v {
                proof {
                    assert(!vis_old.contains((x, y)));
                }
                vis.push((x, y));
                proof {
                    lemma_push_contains(vis_old, (x, y));
                    lemma_push_no_duplicates(vis_old, (x, y));
                }
            }
            let mut t = m.tile(x, y);
            t.explored = t.explored || v;
            m.set_tile(x, y, t);
            y = y + 1;
        }
        x = x + 1;
    }
    vis
}

/// Pushing an element a sequence does not contain keeps it duplicate-free.
proof fn lemma_push_no_duplicates<T>(s: Seq<T>, v: T)
    requires
        s.no_duplicates(),
        !s.contains(v),
    ensures
        s.push(v).no_duplicates(),
{
    let t = s.push(v);
    assert forall|i: int, j: int|
        0 <= i < t.len() && 0 <= j < t.len() && i != j implies t[i] != t[j] by {
        if i < s.len() && j < s.len() {
            assert(t[i] == s[i] && t[j] == s[j]);
        } else if j == s.len() && i < s.len() {
            assert(t[j] == v && t[i] == s[i]);
            if s[i] == v {
                assert(s.contains(v));
            }
        } else if i == s.len() && j < s.len() {
            assert(t[i] == v && t[j] == s[j]);
            if s[j] == v {
                assert(s.contains(v));
            }
        }
    }
}

/// Pushing onto a sequence adds exactly one member.
proof fn lemma_push_contains<T>(s: Seq<T>, v: T)
    ensures
        forall|q: T| #[trigger] s.push(v).contains(q) <==> (s.contains(q) || q == v),
{
    assert forall|q: T| #[trigger] s.push(v).contains(q) implies (s.contains(q) || q == v) by {
        let i = choose|i: int| 0 <= i < s.push(v).len() && s.push(v)[i] == q;
        if i < s.len() {
            assert(s[i] == q);
        }
    }
    assert forall|q: T| (s.contains(q) || q == v) implies #[trigger] s.push(v).contains(q) by {
        if s.contains(q) {
            let i = choose|i: int| 0 <= i < s.len() && s[i] == q;
            assert(s.push(v)[i] == q);
        } else {
            assert(s.push(v)[s.len() as int] == q);
        }
    }
}

} // verus!
