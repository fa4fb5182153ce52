//! Web-Mercator tiles: where a point falls in the tile pyramid.
//!
//! A point is given by its world pixel coordinates at a zoom level: at zoom
//! `z` the world is `2^z` tiles of 256 x 256 pixels on a side. The east-west
//! coordinate follows from the longitude by integer arithmetic; the
//! north-south one needs the Mercator function of the latitude, a
//! transcendental that the caller evaluates.

use vstd::prelude::*;

verus! {

/// Width of a tile, in pixels.
pub const TILE_W: u32 = 256;

/// Height of a tile, in pixels.
pub const TILE_H: u32 = 256;

/// The deepest zoom level handled.
pub const MAX_ZOOM: u32 = 22;

/// The zoom level that the frames are drawn at.
pub const MAP_ZOOM: u32 = 15;

/// Two to the power `e`.
pub open spec fn pow2(e: nat) -> nat
    decreases e,
{
    if e == 0 {
        1
    } else {
        2 * pow2((e - 1) as nat)
    }
}

/// The number of tiles on a side of the world at zoom `zoom`.
pub open spec fn tiles_across(zoom: nat) -> nat {
    pow2(zoom)
}

/// The number of pixels on a side of the world at zoom `zoom`.
pub open spec fn world_size(zoom: nat) -> nat {
    pow2(zoom) * 256
}

/// A point's tile and its pixel within that tile.
#[derive(Clone, Copy, Debug, PartialEq, Eq, Structural)]
pub struct TilePosition {
    pub tile_x: u32,
    pub tile_y: u32,
    pub px: u32,
    pub py: u32,
}

/// The tile position of world pixel `(wx, wy)`.
pub open spec fn position_of(wx: int, wy: int) -> TilePosition {
    TilePosition {
        tile_x: (wx / 256) as u32,
        tile_y: (wy / 256) as u32,
        px: (wx % 256) as u32,
        py: (wy % 256) as u32,
    }
}

/// The east-west world pixel of longitude `lon` (in units of 1e-7 degree)
/// at zoom `zoom`: `floor(world * (lon + 180) / 360)`, wrapped so that 180
/// degrees east is 180 degrees west.
pub open spec fn world_x_of(lon: int, zoom: nat) -> int {
    ((lon + 1_800_000_000) * world_size(zoom) / 3_600_000_000) % (world_size(zoom) as int)
}

proof fn lemma_pow2_bounds(e: nat)
    requires
        e <= 22,
    ensures
        1 <= pow2(e) <= 4_194_304,
{
    lemma_pow2_positive(e);
    lemma_pow2_bounds_below(e, 22);
    reveal_with_fuel(pow2, 23);
}

proof fn lemma_pow2_positive(e: nat)
    ensures
        pow2(e) >= 1,
    decreases e,
{
    if e > 0 {
        lemma_pow2_positive((e - 1) as nat);
    }
}

proof fn lemma_pow2_bounds_below(e: nat, m: nat)
    requires
        e <= m <= 22,
    ensures
        pow2(e) <= pow2(m),
    decreases m,
{
    if e < m {
        lemma_pow2_bounds_below(e, (m - 1) as nat);
    }
}

/// The number of tiles on a side of the world at zoom `zoom`.
pub fn tile_count(zoom: u32) -> (r: u64)
    requires
        zoom <= MAX_ZOOM,
    ensures
        r == tiles_across(zoom as nat),
        1 <= r <= 4_194_304,
{
    let mut r: u64 = 1;
    let mut e: u32 = 0;
    proof {
        lemma_pow2_bounds(zoom as nat);
    }
    while e < zoom
        invariant
            e <= zoom <= 22,
            r == pow2(e as nat),
        decreases zoom - e,
    {
        proof {
            lemma_pow2_bounds_below((e + 1) as nat, 22);
            lemma_pow2_bounds(22);
        }
        r = r * 2;
        e = e + 1;
    }
    proof {
        lemma_pow2_bounds(zoom as nat);
    }
    r
}

/// The east-west world pixel of longitude `lon` (1e-7 degree) at `zoom`.
pub fn longitude_to_world_x(lon: i64, zoom: u32) -> (r: u64)
    requires
        -1_800_000_000 <= lon <= 1_800_000_000,
        zoom <= MAX_ZOOM,
    ensures
        r == world_x_of(lon as int, zoom as nat),
        r < world_size(zoom as nat),
{
    let size = tile_count(zoom) * 256;
    let shifted = (lon + 1_800_000_000) as u64;
    assert(shifted * size <= 3_600_000_000 * 1_073_741_824) by (nonlinear_arith)
        requires
            shifted <= 3_600_000_000,
            size <= 1_073_741_824,
    ;
    let scaled = shifted * size / 3_600_000_000;
    scaled % size
}

/// The tile and in-tile pixel of world pixel `(world_x, world_y)` at `zoom`.
pub fn solve_tile(zoom: u32, world_x: u64, world_y: u64) -> (r: TilePosition)
    requires
        zoom <= MAX_ZOOM,
        world_x < world_size(zoom as nat),
        world_y < world_size(zoom as nat),
    ensures
        r == position_of(world_x as int, world_y as int),
        r.tile_x < tiles_across(zoom as nat),
        r.tile_y < tiles_across(zoom as nat),
        r.px < TILE_W,
        r.py < TILE_H,
{
    proof {
        lemma_pow2_bounds(zoom as nat);
    }
    TilePosition {
        tile_x: (world_x / 256) as u32,
        tile_y: (world_y / 256) as u32,
        px: (world_x % 256) as u32,
        py: (world_y % 256) as u32,
    }
}

/// Every point of the world resolves to a tile of the pyramid and a pixel
/// inside it: for a longitude in [-180, 180] degrees and any world row, the
/// tile indices are below `2^zoom` and the pixel is inside the tile.
pub proof fn lemma_tile_in_range(zoom: u32, lon: int, world_y: int)
    requires
        zoom <= MAX_ZOOM,
        -1_800_000_000 <= lon <= 1_800_000_000,
        0 <= world_y < world_size(zoom as nat),
    ensures
        ({
            let wx = world_x_of(lon, zoom as nat);
            let pos = position_of(wx, world_y);
            &&& 0 <= wx < world_size(zoom as nat)
            &&& pos.tile_x < tiles_across(zoom as nat)
            &&& pos.tile_y < tiles_across(zoom as nat)
            &&& pos.px < TILE_W
            &&& pos.py < TILE_H
        }),
{
    lemma_pow2_bounds(zoom as nat);
    let size = world_size(zoom as nat) as int;
    let wx = world_x_of(lon, zoom as nat);
    assert(0 <= wx < size) by {
        vstd::arithmetic::div_mod::lemma_mod_bound(
            (lon + 1_800_000_000) * world_size(zoom as nat) / 3_600_000_000,
            size,
        );
    }
}

} // verus!
