//! Map tiles: square cells of the playing grid whose walls supply the
//! obstacle segments, and the rectangular boundary that encloses the
//! playable area.

use vstd::prelude::*;
use crate::rat::rat_int;
use crate::segment::{SegV, Segment};
use crate::vector::{PointV, Vector};

verus! {

/// Side length of one square tile, in world units.
pub const TILE_SIZE: i128 = 32;

/// Largest tile index whose edges stay inside the coordinate bound.
pub const TILE_POS_LIMIT: i128 = 2047;

/// What a tile holds.
#[derive(Clone, Copy, Debug, PartialEq, Eq, Structural)]
pub enum TileType {
    /// Open floor: rays pass through.
    Floor,
    /// An opaque wall: its four edges block sight.
    Wall,
}

/// One square cell of the map grid at integer grid position `(x, y)`,
/// centered at `(32x, 32y)` in world units.
#[derive(Clone, Copy, Debug, PartialEq, Eq, Structural)]
pub struct Tile {
    pub x: i128,
    pub y: i128,
    pub tile_type: TileType,
}

/// The model grid point `(x, y)`.
pub open spec fn grid_pt_v(x: int, y: int) -> PointV {
    PointV { x: rat_int(x), y: rat_int(y) }
}

impl Tile {
    /// The four edges of the tile's square, in order: top (left to
    /// right), right (top to bottom), bottom (right to left), left
    /// (bottom to top).
    pub fn get_edges(&self) -> (r: [Segment; 4])
        requires
            -TILE_POS_LIMIT <= self.x <= TILE_POS_LIMIT,
            -TILE_POS_LIMIT <= self.y <= TILE_POS_LIMIT,
        ensures
            r[0]@ == (SegV {
                a: grid_pt_v(32 * self.x - 16, 32 * self.y + 16),
                b: grid_pt_v(32 * self.x + 16, 32 * self.y + 16),
            }),
            r[1]@ == (SegV {
                a: grid_pt_v(32 * self.x + 16, 32 * self.y + 16),
                b: grid_pt_v(32 * self.x + 16, 32 * self.y - 16),
            }),
            r[2]@ == (SegV {
                a: grid_pt_v(32 * self.x + 16, 32 * self.y - 16),
                b: grid_pt_v(32 * self.x - 16, 32 * self.y - 16),
            }),
            r[3]@ == (SegV {
                a: grid_pt_v(32 * self.x - 16, 32 * self.y - 16),
                b: grid_pt_v(32 * self.x - 16, 32 * self.y + 16),
            }),
    {
        let cx: i128 = self.x * TILE_SIZE;
        let cy: i128 = self.y * TILE_SIZE;
        let lo_x: i128 = cx - 16;
        let hi_x: i128 = cx + 16;
        let lo_y: i128 = cy - 16;
        let hi_y: i128 = cy + 16;
        [
            Segment::new(Vector::new(lo_x, hi_y), Vector::new(hi_x, hi_y)),
            Segment::new(Vector::new(hi_x, hi_y), Vector::new(hi_x, lo_y)),
            Segment::new(Vector::new(hi_x, lo_y), Vector::new(lo_x, lo_y)),
            Segment::new(Vector::new(lo_x, lo_y), Vector::new(lo_x, hi_y)),
        ]
    }
}

/// The four edges of the rectangular playable-area boundary, from
/// `(0, 0)` to `(32 * width, 32 * height)` world units, walked around
/// counterclockwise starting along the bottom.
pub fn boundary_edges(width: i128, height: i128) -> (r: Vec<Segment>)
    requires
        1 <= width <= 2048,
        1 <= height <= 2048,
    ensures
        r@.len() == 4,
        r@[0]@ == (SegV { a: grid_pt_v(0, 0), b: grid_pt_v(32 * width, 0) }),
        r@[1]@ == (SegV {
            a: grid_pt_v(32 * width, 0),
            b: grid_pt_v(32 * width, 32 * height),
        }),
        r@[2]@ == (SegV {
            a: grid_pt_v(32 * width, 32 * height),
            b: grid_pt_v(0, 32 * height),
        }),
        r@[3]@ == (SegV { a: grid_pt_v(0, 32 * height), b: grid_pt_v(0, 0) }),
{
    let w: i128 = width * TILE_SIZE;
    let h: i128 = height * TILE_SIZE;
    let mut out: Vec<Segment> = Vec::new();
    out.push(Segment::new(Vector::new(0, 0), Vector::new(w, 0)));
    out.push(Segment::new(Vector::new(w, 0), Vector::new(w, h)));
    out.push(Segment::new(Vector::new(w, h), Vector::new(0, h)));
    out.push(Segment::new(Vector::new(0, h), Vector::new(0, 0)));
    out
}

} // verus!
