//! Additive lighting over the grid.
//!
//! Each frame every tile's light is reset, then each emitter with a positive
//! radius adds `1 - distance / radius + jitter` (in fixed-point thousandths)
//! to every tile it illuminates: an occlusion-aware falloff, where the
//! illuminated set is the emitter's field of view. Contributions of several
//! emitters add linearly; clamping to the unit range happens only at display
//! time.

use vstd::prelude::*;

verus! {

use crate::fov::{dist2, spec_visible, is_visible, lemma_visible_same_sight};
use crate::map::{Grid, tile_with_light, MAX_DIM};
use crate::object::Object;
use vstd::arithmetic::div_mod::{
    lemma_div_pos_is_pos,
    lemma_div_is_ordered,
    lemma_div_multiples_vanish,
};

/// Default light radius of a torch, in tiles.
pub const TORCH_RADIUS: i32 = 5;

/// Standard deviation of the per-emitter light jitter, in thousandths.
pub const LIGHT_JITTER_STDDEV_MILLI: i64 = 50;

/// Largest accepted absolute per-emitter jitter, in thousandths.
pub const JITTER_LIMIT: i64 = 1000000;

/// Largest accepted number of simultaneous emitters.
pub const MAX_EMITTERS: usize = 1000000;

/// Strict bound on a single emitter's contribution to one tile.
pub const CONTRIB_LIMIT: i64 = 2000000;

/// Largest argument `isqrt` accepts.
pub const ISQRT_MAX_ARG: u64 = 0x1000000000000;

/// Integer square root: the largest `r` with `r * r <= n`.
pub open spec fn spec_isqrt(n: nat) -> nat
    decreases n,
{
    if n <= 0 {
        0
    } else {
        let r = spec_isqrt((n - 1) as nat);
        if (r + 1) * (r + 1) <= n {
            (r + 1) as nat
        } else {
            r
        }
    }
}

pub proof fn lemma_isqrt_bounds(n: nat)
    ensures
        (spec_isqrt(n) as int) * (spec_isqrt(n) as int) <= n as int,
        (n as int) < ((spec_isqrt(n) as int) + 1) * ((spec_isqrt(n) as int) + 1),
    decreases n,
{
    if n == 0 {
        assert(spec_isqrt(0nat) == 0);
    } else {
        lemma_isqrt_bounds((n - 1) as nat);
        let r = spec_isqrt((n - 1) as nat) as int;
        assert(r * r <= n - 1);
        assert(n - 1 < (r + 1) * (r + 1));
        if (r + 1) * (r + 1) <= n as int {
            assert(spec_isqrt(n) as int == r + 1);
            assert(n < (r + 2) * (r + 2)) by (nonlinear_arith)
                requires
                    n <= (r + 1) * (r + 1),
                    r >= 0,
            ;
        } else {
            assert(spec_isqrt(n) as int == r);
        }
    }
}

pub proof fn lemma_isqrt_unique(n: nat, r: nat)
    requires
        (r as int) * (r as int) <= n as int,
        (n as int) < ((r as int) + 1) * ((r as int) + 1),
    ensures
        r == spec_isqrt(n),
{
    lemma_isqrt_bounds(n);
    let s = spec_isqrt(n) as int;
    let ri = r as int;
    if ri < s {
        assert((ri + 1) * (ri + 1) <= s * s) by (nonlinear_arith)
            requires
                0 <= ri + 1 <= s,
        ;
    }
    if s < ri {
        assert((s + 1) * (s + 1) <= ri * ri) by (nonlinear_arith)
            requires
                0 <= s + 1 <= ri,
        ;
    }
}

pub proof fn lemma_isqrt_monotone(a: nat, b: nat)
    requires
        a <= b,
    ensures
        spec_isqrt(a) <= spec_isqrt(b),
{
    lemma_isqrt_bounds(a);
    lemma_isqrt_bounds(b);
    let x = spec_isqrt(a) as int;
    let y = spec_isqrt(b) as int;
    if y < x {
        assert((y + 1) * (y + 1) <= x * x) by (nonlinear_arith)
            requires
                0 <= y + 1 <= x,
        ;
    }
}

/// Integer square root by binary search.
pub fn isqrt(n: u64) -> (r: u64)
    requires
        n <= ISQRT_MAX_ARG,
    ensures
        r == spec_isqrt(n as nat),
        r <= 0x1000000,
{
    let mut lo: u64 = 0;
    let mut hi: u64 = 0x1000000;
    proof {
        assert((0x1000000 + 1) * (0x1000000 + 1) > ISQRT_MAX_ARG as int) by (nonlinear_arith);
    }
    while lo < hi
        invariant
            lo <= hi <= 0x1000000,
            lo * lo <= n,
            n < (hi + 1) * (hi + 1),
        decreases hi - lo,
    {
        let mid = lo + (hi - lo + 1) / 2;
        proof {
            assert(mid * mid <= 0x1000000 * 0x1000000) by (nonlinear_arith)
                requires
                    0 <= mid <= 0x1000000,
            ;
        }
        if mid * mid <= n {
            lo = mid;
        } else {
            hi = mid - 1;
        }
    }
    proof {
        lemma_isqrt_unique(n as nat, lo as nat);
    }
    lo
}

/// Distance between two coordinates in thousandths of a tile:
/// `floor(1000 * sqrt(dx^2 + dy^2))`.
pub open spec fn dist_milli(x0: int, y0: int, x1: int, y1: int) -> int {
    spec_isqrt((1000000 * dist2(x0, y0, x1, y1)) as nat) as int
}

/// Euclidean distance between two on-grid coordinates, in thousandths.
pub fn distance_milli(x0: i32, y0: i32, x1: i32, y1: i32) -> (d: i64)
    requires
        0 <= x0 < MAX_DIM,
        0 <= y0 < MAX_DIM,
        0 <= x1 < MAX_DIM,
        0 <= y1 < MAX_DIM,
    ensures
        d == dist_milli(x0 as int, y0 as int, x1 as int, y1 as int),
        0 <= d <= 0x1000000,
{
    let dx = (x1 as i64) - (x0 as i64);
    let dy = (y1 as i64) - (y0 as i64);
    proof {
        assert(0 <= dx * dx <= MAX_DIM * MAX_DIM && 0 <= dy * dy <= MAX_DIM * MAX_DIM)
            by (nonlinear_arith)
            requires
                -MAX_DIM <= dx <= MAX_DIM,
                -MAX_DIM <= dy <= MAX_DIM,
        ;
    }
    let d2 = dx * dx + dy * dy;
    let n = 1000000u64 * (d2 as u64);
    isqrt(n)  as i64
}

/// What one emitter at `(ex, ey)` with the given radius and jitter adds to
/// the tile `(x, y)`: the falloff `1000 - dist/radius + jitter` where the
/// tile is illuminated, nothing anywhere else. An emitter with radius 0 (or
/// an off-grid one) contributes exactly 0 to every tile.
pub open spec fn contribution(
    m: Grid,
    ex: int,
    ey: int,
    radius: int,
    jitter: int,
    light_walls: bool,
    x: int,
    y: int,
) -> int {
    if radius > 0 && spec_visible(m, ex, ey, radius, light_walls, x, y) {
        1000 - dist_milli(ex, ey, x, y) / radius + jitter
    } else {
        0
    }
}

/// A lit tile receives between `jitter` and `1000 + jitter`; any other tile
/// receives exactly 0.
pub proof fn lemma_contribution_bounds(
    m: Grid,
    ex: int,
    ey: int,
    radius: int,
    jitter: int,
    light_walls: bool,
    x: int,
    y: int,
)
    ensures
        contribution(m, ex, ey, radius, jitter, light_walls, x, y) == 0 || (jitter <= contribution(
            m,
            ex,
            ey,
            radius,
            jitter,
            light_walls,
            x,
            y,
        ) <= 1000 + jitter),
{
    if radius > 0 && spec_visible(m, ex, ey, radius, light_walls, x, y) {
        let d2 = dist2(ex, ey, x, y);
        let dist = dist_milli(ex, ey, x, y);
        assert(0 <= d2 <= radius * radius) by (nonlinear_arith)
            requires
                d2 == (x - ex) * (x - ex) + (y - ey) * (y - ey),
                d2 <= radius * radius,
        ;
        assert(1000000 * d2 <= 1000000 * (radius * radius));
        lemma_isqrt_monotone((1000000 * d2) as nat, (1000000 * (radius * radius)) as nat);
        assert((1000 * radius) * (1000 * radius) == 1000000 * (radius * radius))
            by (nonlinear_arith);
        assert(1000000 * (radius * radius) < (1000 * radius + 1) * (1000 * radius + 1))
            by (nonlinear_arith)
            requires
                radius > 0,
        ;
        lemma_isqrt_unique((1000000 * (radius * radius)) as nat, (1000 * radius) as nat);
        assert(dist <= 1000 * radius);
        lemma_div_is_ordered(dist, 1000 * radius, radius);
        lemma_div_multiples_vanish(1000, radius);
        assert((radius * 1000) / radius == 1000);
        assert(radius * 1000 == 1000 * radius);
        assert(dist / radius <= 1000);
        lemma_isqrt_bounds((1000000 * d2) as nat);
        lemma_div_pos_is_pos(dist, radius);
    }
}

/// Two grids that agree on dimensions and opacity receive equal
/// contributions everywhere.
pub proof fn lemma_contribution_same_sight(
    a: Grid,
    b: Grid,
    ex: int,
    ey: int,
    radius: int,
    jitter: int,
    light_walls: bool,
    x: int,
    y: int,
)
    requires
        a.wf(),
        b.wf(),
        a.same_dims(b),
        forall|i: int, j: int|
            a.in_bounds(i, j) ==> #[trigger] a.tile_at(i, j).block_sight == b.tile_at(
                i,
                j,
            ).block_sight,
    ensures
        contribution(a, ex, ey, radius, jitter, light_walls, x, y) == contribution(
            b,
            ex,
            ey,
            radius,
            jitter,
            light_walls,
            x,
            y,
        ),
{
    lemma_visible_same_sight(a, b, ex, ey, radius, light_walls, x, y);
}

/// Total light the first `k` emitters shed on the tile `(x, y)`: the plain
/// sum of their individual contributions.
pub open spec fn light_sum(
    m: Grid,
    es: Seq<Object>,
    js: Seq<i64>,
    light_walls: bool,
    x: int,
    y: int,
    k: int,
) -> int
    decreases k,
{
    if k <= 0 {
        0
    } else {
        light_sum(m, es, js, light_walls, x, y, k - 1) + contribution(
            m,
            es[k - 1].x as int,
            es[k - 1].y as int,
            es[k - 1].torch_distance as int,
            js[k - 1] as int,
            light_walls,
            x,
            y,
        )
    }
}

/// Total light all given emitters shed on the tile `(x, y)`.
pub open spec fn total_light(
    m: Grid,
    es: Seq<Object>,
    js: Seq<i64>,
    light_walls: bool,
    x: int,
    y: int,
) -> int {
    light_sum(m, es, js, light_walls, x, y, es.len() as int)
}

/// Law: lighting is additive. With exactly two emitters, the total on any
/// tile is the sum of the two individual contributions, not their maximum.
pub proof fn lemma_lighting_additive(
    m: Grid,
    es: Seq<Object>,
    js: Seq<i64>,
    light_walls: bool,
    x: int,
    y: int,
)
    requires
        es.len() == 2,
        js.len() == 2,
    ensures
        total_light(m, es, js, light_walls, x, y) == contribution(
            m,
            es[0].x as int,
            es[0].y as int,
            es[0].torch_distance as int,
            js[0] as int,
            light_walls,
            x,
            y,
        ) + contribution(
            m,
            es[1].x as int,
            es[1].y as int,
            es[1].torch_distance as int,
            js[1] as int,
            light_walls,
            x,
            y,
        ),
{
    assert(light_sum(m, es, js, light_walls, x, y, 0) == 0);
    assert(light_sum(m, es, js, light_walls, x, y, 1) == contribution(
        m,
        es[0].x as int,
        es[0].y as int,
        es[0].torch_distance as int,
        js[0] as int,
        light_walls,
        x,
        y,
    ));
    assert(light_sum(m, es, js, light_walls, x, y, 2) == light_sum(m, es, js, light_walls, x, y, 1)
        + contribution(
        m,
        es[1].x as int,
        es[1].y as int,
        es[1].torch_distance as int,
        js[1] as int,
        light_walls,
        x,
        y,
    ));
}

/// Law: an emitter shines with intensity `1000 + jitter` (that is,
/// `1 + jitter`) on its own tile.
pub proof fn lemma_emitter_self_intensity(
    m: Grid,
    ex: int,
    ey: int,
    radius: int,
    jitter: int,
    light_walls: bool,
)
    requires
        m.in_bounds(ex, ey),
        radius > 0,
    ensures
        contribution(m, ex, ey, radius, jitter, light_walls, ex, ey) == 1000 + jitter,
{
    assert(radius * radius >= 0) by (nonlinear_arith);
    assert(dist2(ex, ey, ex, ey) == 0);
    assert(spec_visible(m, ex, ey, radius, light_walls, ex, ey));
    assert(spec_isqrt(0nat) == 0);
    assert(dist_milli(ex, ey, ex, ey) == 0);
    vstd::arithmetic::div_mod::lemma_basic_div(0, radius);
}

/// Law: at or beyond its radius an emitter contributes at most the jitter,
/// and a radius-0 emitter contributes exactly 0 everywhere.
pub proof fn lemma_emitter_fringe(
    m: Grid,
    ex: int,
    ey: int,
    radius: int,
    jitter: int,
    light_walls: bool,
    x: int,
    y: int,
)
    ensures
        dist2(ex, ey, x, y) >= radius * radius ==> contribution(
            m,
            ex,
            ey,
            radius,
            jitter,
            light_walls,
            x,
            y,
        ) <= jitter || contribution(m, ex, ey, radius, jitter, light_walls, x, y) == 0,
        radius == 0 ==> contribution(m, ex, ey, radius, jitter, light_walls, x, y) == 0,
{
    if radius > 0 && spec_visible(m, ex, ey, radius, light_walls, x, y) && dist2(ex, ey, x, y)
        >= radius * radius {
        let d2 = dist2(ex, ey, x, y);
        assert(d2 == radius * radius);
        assert((1000 * radius) * (1000 * radius) == 1000000 * d2) by (nonlinear_arith)
            requires
                d2 == radius * radius,
        ;
        assert(1000000 * d2 < (1000 * radius + 1) * (1000 * radius + 1)) by (nonlinear_arith)
            requires
                d2 == radius * radius,
                radius > 0,
        ;
        lemma_isqrt_unique((1000000 * d2) as nat, (1000 * radius) as nat);
        lemma_div_multiples_vanish(1000, radius);
        assert(radius * 1000 == 1000 * radius);
        assert(dist_milli(ex, ey, x, y) / radius == 1000);
    }
}

/// The total over the first `k` emitters is bounded by `k` contributions.
pub proof fn lemma_light_sum_bounds(
    m: Grid,
    es: Seq<Object>,
    js: Seq<i64>,
    light_walls: bool,
    x: int,
    y: int,
    k: int,
)
    requires
        0 <= k,
        k <= js.len(),
        forall|i: int| 0 <= i < js.len() ==> -JITTER_LIMIT <= #[trigger] js[i] <= JITTER_LIMIT,
    ensures
        -(k * CONTRIB_LIMIT) <= light_sum(m, es, js, light_walls, x, y, k) <= k * CONTRIB_LIMIT,
    decreases k,
{
    if k > 0 {
        lemma_light_sum_bounds(m, es, js, light_walls, x, y, k - 1);
        lemma_contribution_bounds(
            m,
            es[k - 1].x as int,
            es[k - 1].y as int,
            es[k - 1].torch_distance as int,
            js[k - 1] as int,
            light_walls,
            x,
            y,
        );
    }
}

/// Add one emitter's light to every tile it illuminates; every other tile
/// field is left alone. An emitter without a positive radius adds nothing.
fn apply_emitter(m: &mut Grid, ex: i32, ey: i32, radius: i32, jitter: i64, light_walls: bool)
    requires
        old(m).wf(),
        old(m).in_bounds(ex as int, ey as int),
        -JITTER_LIMIT <= jitter <= JITTER_LIMIT,
        forall|x: int, y: int|
            old(m).in_bounds(x, y) ==> -0x2000000000000000 < #[trigger] old(m).tile_at(
                x,
                y,
            ).light_milli < 0x2000000000000000,
    ensures
        final(m).wf(),
        final(m).same_dims(*old(m)),
        forall|x: int, y: int|
            final(m).in_bounds(x, y) ==> final(m).tile_at(x, y) == tile_with_light(
                old(m).tile_at(x, y),
                old(m).tile_at(x, y).light_milli + contribution(
                    *old(m),
                    ex as int,
                    ey as int,
                    radius as int,
                    jitter as int,
                    light_walls,
                    x,
                    y,
                ),
            ),
{
    let ghost m0 = *old(m);
    if radius <= 0 {
        proof {
            assert forall|x: int, y: int| m.in_bounds(x, y) implies m.tile_at(x, y)
                == tile_with_light(
                m0.tile_at(x, y),
                m0.tile_at(x, y).light_milli + contribution(
                    m0,
                    ex as int,
                    ey as int,
                    radius as int,
                    jitter as int,
                    light_walls,
                    x,
                    y,
                ),
            ) by {
                assert(contribution(
                    m0,
                    ex as int,
                    ey as int,
                    radius as int,
                    jitter as int,
                    light_walls,
                    x,
                    y,
                ) == 0);
            }
        }
        return ;
    }
    let w = m.width();
    let h = m.height();
    let mut x: i32 = 0;
    while x < w
        invariant
            m.wf(),
            m.same_dims(m0),
            m0.wf(),
            m0 == *old(m),
            m0.in_bounds(ex as int, ey as int),
            radius >= 1,
            -JITTER_LIMIT <= jitter <= JITTER_LIMIT,
            forall|a: int, b: int|
                m0.in_bounds(a, b) ==> -0x2000000000000000 < #[trigger] m0.tile_at(
                    a,
                    b,
                ).light_milli < 0x2000000000000000,
            w == m0.spec_width(),
            h == m0.spec_height(),
            0 <= x <= w,
            forall|a: int, b: int|
                m0.in_bounds(a, b) && a < x ==> #[trigger] m.tile_at(a, b) == tile_with_light(
                    m0.tile_at(a, b),
                    m0.tile_at(a, b).light_milli + contribution(
                        m0,
                        ex as int,
                        ey as int,
                        radius as int,
                        jitter as int,
                        light_walls,
                        a,
                        b,
                    ),
                ),
            forall|a: int, b: int|
                m0.in_bounds(a, b) && a >= x ==> #[trigger] m.tile_at(a, b) == m0.tile_at(a, b),
        decreases w - x,
    {
        let mut y: i32 = 0;
        while y < h
            invariant
                m.wf(),
                m.same_dims(m0),
                m0.wf(),
                m0 == *old(m),
                m0.in_bounds(ex as int, ey as int),
                radius >= 1,
                -JITTER_LIMIT <= jitter <= JITTER_LIMIT,
                forall|a: int, b: int|
                    m0.in_bounds(a, b) ==> -0x2000000000000000 < #[trigger] m0.tile_at(
                        a,
                        b,
                    ).light_milli < 0x2000000000000000,
                w == m0.spec_width(),
                h == m0.spec_height(),
                0 <= x < w,
                0 <= y <= h,
                forall|a: int, b: int|
                    m0.in_bounds(a, b) && (a < x || (a == x && b < y)) ==> #[trigger] m.tile_at(
                        a,
                        b,
                    ) == tile_with_light(
                        m0.tile_at(a, b),
                        m0.tile_at(a, b).light_milli + contribution(
                            m0,
                            ex as int,
                            ey as int,
                            radius as int,
                            jitter as int,
                            light_walls,
                            a,
                            b,
                        ),
                    ),
                forall|a: int, b: int|
                    m0.in_bounds(a, b) && (a > x || (a == x && b >= y)) ==> #[trigger] m.tile_at(
                        a,
                        b,
                    ) == m0.tile_at(a, b),
            decreases h - y,
        {
            proof {
                lemma_visible_same_sight(
                    *m,
                    m0,
                    ex as int,
                    ey as int,
                    radius as int,
                    light_walls,
                    x as int,
                    y as int,
                );
                lemma_contribution_bounds(
                    m0,
                    ex as int,
                    ey as int,
                    radius as int,
                    jitter as int,
                    light_walls,
                    x as int,
                    y as int,
                );
            }
            let v = is_visible(m, ex, ey, radius, light_walls, x, y);
            let mut c: i64 = 0;
            if v {
                let dist = distance_milli(ex, ey, x, y);
                let q = ((dist as u64) / (radius as u64)) as i64;
                c = 1000 - q + jitter;
                proof {
                    assert(c == contribution(
                        m0,
                        ex as int,
                        ey as int,
                        radius as int,
                        jitter as int,
                        light_walls,
                        x as int,
                        y as int,
                    ));
                }
            }
            let mut t = m.tile(x, y);
            t.light_milli = t.light_milli + c;
            m.set_tile(x, y, t);
            y = y + 1;
        }
        x = x + 1;
    }
}

/// Accumulate the frame's lighting: reset every tile's light to zero, then
/// add each emitter's occlusion-aware falloff contribution. Totals are the
/// plain sum over emitters; nothing but the light field changes, so
/// exploration in particular is untouched.
pub fn accumulate_lighting(
    m: &mut Grid,
    emitters: &Vec<Object>,
    jitters: &Vec<i64>,
    light_walls: bool,
)
    requires
        old(m).wf(),
        emitters@.len() == jitters@.len(),
        emitters@.len() <= MAX_EMITTERS,
        forall|i: int|
            0 <= i < emitters@.len() ==> old(m).in_bounds(
                #[trigger] emitters@[i].x as int,
                emitters@[i].y as int,
            ),
        forall|i: int|
            0 <= i < jitters@.len() ==> -JITTER_LIMIT <= #[trigger] jitters@[i] <= JITTER_LIMIT,
    ensures
        final(m).wf(),
        final(m).same_dims(*old(m)),
        forall|x: int, y: int|
            final(m).in_bounds(x, y) ==> final(m).tile_at(x, y).explored == old(m).tile_at(
                x,
                y,
            ).explored,
        forall|x: int, y: int|
            final(m).in_bounds(x, y) ==> final(m).tile_at(x, y) == tile_with_light(
                old(m).tile_at(x, y),
                total_light(*old(m), emitters@, jitters@, light_walls, x, y),
            ),
{
    let ghost m0 = *old(m);
    m.clear_light();
    let n = emitters.len();
    let mut k: usize = 0;
    while k < n
        invariant
            m.wf(),
            m.same_dims(m0),
            m0.wf(),
            m0 == *old(m),
            n == emitters@.len(),
            emitters@.len() == jitters@.len(),
            n <= MAX_EMITTERS,
            forall|i: int|
                0 <= i < emitters@.len() ==> m0.in_bounds(
                    #[trigger] emitters@[i].x as int,
                    emitters@[i].y as int,
                ),
            forall|i: int|
                0 <= i < jitters@.len() ==> -JITTER_LIMIT <= #[trigger] jitters@[i]
                    <= JITTER_LIMIT,
            0 <= k <= n,
            forall|x: int, y: int|
                m0.in_bounds(x, y) ==> #[trigger] m.tile_at(x, y) == tile_with_light(
                    m0.tile_at(x, y),
                    light_sum(m0, emitters@, jitters@, light_walls, x, y, k as int),
                ),
        decreases n - k,
    {
        let e = emitters[k];
        let j = jitters[k];
        let ghost mprev = *m;
        proof {
            assert forall|x: int, y: int| mprev.in_bounds(x, y) implies -0x2000000000000000
                < #[trigger] mprev.tile_at(x, y).light_milli < 0x2000000000000000 by {
                lemma_light_sum_bounds(
                    m0,
                    emitters@,
                    jitters@,
                    light_walls,
                    x,
                    y,
                    k as int,
                );
            }
        }
        apply_emitter(m, e.x, e.y, e.torch_distance, j, light_walls);
        proof {
            assert forall|x: int, y: int| m0.in_bounds(x, y) implies #[trigger] m.tile_at(x, y)
                == tile_with_light(
                m0.tile_at(x, y),
                light_sum(m0, emitters@, jitters@, light_walls, x, y, (k + 1) as int),
            ) by {
                lemma_light_sum_bounds(m0, emitters@, jitters@, light_walls, x, y, k as int);
                lemma_contribution_same_sight(
                    mprev,
                    m0,
                    e.x as int,
                    e.y as int,
                    e.torch_distance as int,
                    j as int,
                    light_walls,
                    x,
                    y,
                );
            }
        }
        k = k + 1;
    }
}


} // verus!
