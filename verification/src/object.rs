//! A mobile entity on the grid: a position and a torch radius. The player,
//! a dropped torch, or any other point of interest; an entity with
//! `torch_distance > 0` emits light.

use vstd::prelude::*;

verus! {

use crate::map::Grid;

/// An entity standing on a tile of the grid.
#[derive(Clone, Copy, Debug, PartialEq, Eq, Structural)]
pub struct Object {
    pub x: i32,
    pub y: i32,
    /// Light radius in tiles; 0 means the object does not emit.
    pub torch_distance: i32,
}

impl Object {
    pub fn new(x: i32, y: i32) -> (o: Object)
        ensures
            o.x == x,
            o.y == y,
            o.torch_distance == 0,
    {
        Object { x, y, torch_distance: 0 }
    }

    /// Move by the given amount if the destination is not blocked; a move
    /// onto a blocked tile is rejected with no state change.
    pub fn move_by(&mut self, dx: i32, dy: i32, map: &Grid)
        requires
            map.wf(),
            map.in_bounds(old(self).x + dx, old(self).y + dy),
        ensures
            !map.tile_at(old(self).x + dx, old(self).y + dy).blocked ==> (final(self).x
                == old(self).x + dx && final(self).y == old(self).y + dy),
            map.tile_at(old(self).x + dx, old(self).y + dy).blocked ==> *final(self) == *old(
                self,
            ),
            final(self).torch_distance == old(self).torch_distance,
    {
        let nx = self.x + dx;
        let ny = self.y + dy;
        if !map.tile(nx, ny).blocked {
            self.x = nx;
            self.y = ny;
        }
    }
}

} // verus!
