//! The grid of tiles that makes up the game world.
//!
//! Light intensity is carried in fixed-point thousandths: the value 1000
//! stands for full brightness 1.0. Display-time clamping to the unit range
//! happens in [`Tile::display_intensity`].

use vstd::prelude::*;

verus! {

use vstd::pervasive::VecAdditionalExecFns;

/// Largest accepted grid side length.
pub const MAX_DIM: i32 = 10000;

/// A tile of the map and its properties.
#[derive(Clone, Copy, Debug, PartialEq, Eq, Structural)]
pub struct Tile {
    /// Impassable to movement.
    pub blocked: bool,
    /// Has ever been visible to the observer.
    pub explored: bool,
    /// Opaque to vision.
    pub block_sight: bool,
    /// Accumulated light, in thousandths of full brightness; transient
    /// per-frame state, may be negative before clamping.
    pub light_milli: i64,
}

impl Tile {
    /// The tile value of a freshly carved floor.
    pub open spec fn empty_spec() -> Tile {
        Tile { blocked: false, explored: false, block_sight: false, light_milli: 0 }
    }

    /// The tile value of an uncarved wall.
    pub open spec fn wall_spec() -> Tile {
        Tile { blocked: true, explored: false, block_sight: true, light_milli: 0 }
    }

    pub fn empty() -> (t: Tile)
        ensures
            t == Tile::empty_spec(),
    {
        Tile { blocked: false, explored: false, block_sight: false, light_milli: 0 }
    }

    pub fn wall() -> (t: Tile)
        ensures
            t == Tile::wall_spec(),
    {
        Tile { blocked: true, explored: false, block_sight: true, light_milli: 0 }
    }

    /// Light intensity as shown: clamped to the unit range `[0, 1000]`.
    pub fn display_intensity(&self) -> (r: i64)
        ensures
            r == clamp_milli(self.light_milli as int),
    {
        if self.light_milli < 0 {
            0
        } else if self.light_milli > 1000 {
            1000
        } else {
            self.light_milli
        }
    }
}

/// The same tile with its light intensity replaced.
pub open spec fn tile_with_light(t: Tile, v: int) -> Tile {
    Tile { light_milli: v as i64, ..t }
}

/// The same tile with its explored flag replaced.
pub open spec fn tile_with_explored(t: Tile, e: bool) -> Tile {
    Tile { explored: e, ..t }
}

/// Clamp a fixed-point intensity to the displayable unit range.
pub open spec fn clamp_milli(v: int) -> int {
    if v < 0 {
        0
    } else if v > 1000 {
        1000
    } else {
        v
    }
}

/// A rectangular grid owning one [`Tile`] per coordinate `(x, y)` with
/// `0 <= x < width`, `0 <= y < height`, stored in a flat column-major buffer.
pub struct Grid {
    pub width: i32,
    pub height: i32,
    pub tiles: Vec<Tile>,
}

impl Grid {
    /// Well-formedness: positive bounded sides and a fully allocated buffer.
    pub open spec fn wf(self) -> bool {
        &&& 1 <= self.width <= MAX_DIM
        &&& 1 <= self.height <= MAX_DIM
        &&& self.tiles@.len() == self.width * self.height
    }

    pub open spec fn spec_width(self) -> int {
        self.width as int
    }

    pub open spec fn spec_height(self) -> int {
        self.height as int
    }

    pub open spec fn in_bounds(self, x: int, y: int) -> bool {
        0 <= x < self.spec_width() && 0 <= y < self.spec_height()
    }

    /// The tile at `(x, y)`.
    pub open spec fn tile_at(self, x: int, y: int) -> Tile {
        self.tiles@[x * self.spec_height() + y]
    }

    /// Two maps have the same dimensions.
    pub open spec fn same_dims(self, other: Grid) -> bool {
        self.spec_width() == other.spec_width() && self.spec_height() == other.spec_height()
    }

    proof fn lemma_index_in_range(self, x: int, y: int)
        requires
            self.wf(),
            self.in_bounds(x, y),
        ensures
            0 <= x * self.spec_height(),
            x * self.spec_height() + y < self.tiles@.len(),
    {
        let h = self.spec_height();
        assert(x * h + y < self.spec_width() * h) by (nonlinear_arith)
            requires
                0 <= x < self.spec_width(),
                0 <= y < h,
                h >= 1,
        ;
        assert(x * h >= 0) by (nonlinear_arith)
            requires
                x >= 0,
                h >= 1,
        ;
    }

    /// Distinct in-bounds coordinates land on distinct buffer slots.
    proof fn lemma_index_injective(self, x0: int, y0: int, x1: int, y1: int)
        requires
            self.wf(),
            self.in_bounds(x0, y0),
            self.in_bounds(x1, y1),
            (x0, y0) != (x1, y1),
        ensures
            x0 * self.spec_height() + y0 != x1 * self.spec_height() + y1,
    {
        let h = self.spec_height();
        assert(x0 * h + y0 != x1 * h + y1) by (nonlinear_arith)
            requires
                0 <= y0 < h,
                0 <= y1 < h,
                x0 >= 0,
                x1 >= 0,
                (x0, y0) != (x1, y1),
        ;
    }

    /// Flat buffer slot of the in-bounds coordinate `(x, y)`.
    fn index_of(&self, x: i32, y: i32) -> (i: usize)
        requires
            self.wf(),
            self.in_bounds(x as int, y as int),
        ensures
            i == x * self.spec_height() + y,
            i < self.tiles@.len(),
    {
        proof {
            self.lemma_index_in_range(x as int, y as int);
        }
        let n: usize = self.tiles.len();
        (x as usize) * (self.height as usize) + (y as usize)
    }

    /// Allocate a `width x height` grid with every tile a wall.
    pub fn new(width: i32, height: i32) -> (m: Grid)
        requires
            1 <= width <= MAX_DIM,
            1 <= height <= MAX_DIM,
        ensures
            m.wf(),
            m.spec_width() == width,
            m.spec_height() == height,
            forall|x: int, y: int|
                m.in_bounds(x, y) ==> m.tile_at(x, y) == Tile::wall_spec(),
    {
        proof {
            assert(0 <= width * height <= MAX_DIM * MAX_DIM) by (nonlinear_arith)
                requires
                    1 <= width <= MAX_DIM,
                    1 <= height <= MAX_DIM,
            ;
        }
        let n: usize = (width as usize) * (height as usize);
        let mut tiles: Vec<Tile> = Vec::new();
        let mut i: usize = 0;
        while i < n
            invariant
                i <= n,
                n == width * height,
                tiles@.len() == i,
                forall|j: int| 0 <= j < i ==> tiles@[j] == Tile::wall_spec(),
            decreases n - i,
        {
            tiles.push(Tile::wall());
            i = i + 1;
        }
        let m = Grid { width, height, tiles };
        proof {
            assert forall|x: int, y: int| m.in_bounds(x, y) implies m.tile_at(x, y)
                == Tile::wall_spec() by {
                m.lemma_index_in_range(x, y);
            }
        }
        m
    }

    pub fn width(&self) -> (w: i32)
        ensures
            w == self.spec_width(),
    {
        self.width
    }

    pub fn height(&self) -> (h: i32)
        ensures
            h == self.spec_height(),
    {
        self.height
    }

    /// O(1) coordinate lookup.
    pub fn tile(&self, x: i32, y: i32) -> (t: Tile)
        requires
            self.wf(),
            self.in_bounds(x as int, y as int),
        ensures
            t == self.tile_at(x as int, y as int),
    {
        let i = self.index_of(x, y);
        self.tiles[i]
    }

    /// Bounds-checked lookup: out-of-range coordinates are rejected
    /// deterministically with `None` rather than read out of place.
    pub fn get(&self, x: i32, y: i32) -> (r: Option<Tile>)
        requires
            self.wf(),
        ensures
            self.in_bounds(x as int, y as int) ==> r == Some(self.tile_at(x as int, y as int)),
            !self.in_bounds(x as int, y as int) ==> r is None,
    {
        if 0 <= x && x < self.width && 0 <= y && y < self.height {
            Some(self.tile(x, y))
        } else {
            None
        }
    }

    /// Replace the tile at `(x, y)`, leaving every other tile as it was.
    pub fn set_tile(&mut self, x: i32, y: i32, t: Tile)
        requires
            old(self).wf(),
            old(self).in_bounds(x as int, y as int),
        ensures
            final(self).wf(),
            final(self).same_dims(*old(self)),
            final(self).tile_at(x as int, y as int) == t,
            forall|a: int, b: int|
                final(self).in_bounds(a, b) && (a, b) != (x as int, y as int)
                    ==> final(self).tile_at(a, b) == old(self).tile_at(a, b),
    {
        let i = self.index_of(x, y);
        self.tiles.set(i, t);
        proof {
            assert forall|a: int, b: int|
                self.in_bounds(a, b) && (a, b) != (x as int, y as int) implies self.tile_at(a, b)
                == old(self).tile_at(a, b) by {
                self.lemma_index_in_range(a, b);
                self.lemma_index_injective(a, b, x as int, y as int);
            }
        }
    }

    /// Reset every tile's light to zero; nothing else changes. Run once per
    /// frame before lighting is re-accumulated.
    pub fn clear_light(&mut self)
        requires
            old(self).wf(),
        ensures
            final(self).wf(),
            final(self).same_dims(*old(self)),
            forall|x: int, y: int|
                final(self).in_bounds(x, y) ==> final(self).tile_at(x, y).explored == old(
                    self,
                ).tile_at(x, y).explored,
            forall|x: int, y: int|
                final(self).in_bounds(x, y) ==> final(self).tile_at(x, y) == tile_with_light(
                    old(self).tile_at(x, y),
                    0,
                ),
    {
        let n: usize = self.tiles.len();
        let mut i: usize = 0;
        while i < n
            invariant
                self.width == old(self).width,
                self.height == old(self).height,
                self.tiles@.len() == old(self).tiles@.len(),
                old(self).wf(),
                n == self.tiles@.len(),
                i <= n,
                forall|j: int|
                    0 <= j < i ==> self.tiles@[j] == tile_with_light(old(self).tiles@[j], 0),
                forall|j: int| i <= j < n ==> self.tiles@[j] == old(self).tiles@[j],
            decreases n - i,
        {
            let mut t = self.tiles[i];
            t.light_milli = 0;
            self.tiles.set(i, t);
            i = i + 1;
        }
        proof {
            assert forall|x: int, y: int| self.in_bounds(x, y) implies self.tile_at(x, y)
                == tile_with_light(old(self).tile_at(x, y), 0) by {
                self.lemma_index_in_range(x, y);
            }
        }
    }
}

} // verus!
