//! The viewport: a 256 x 256 map image stitched from the tiles around a fix,
//! with the fix at its centre.

use vstd::prelude::*;
use crate::projection::{
    MAX_ZOOM, TilePosition, TILE_H, TILE_W, tile_count, tiles_across, world_size,
};

verus! {

/// Width and height of the viewport, in pixels.
pub const VIEW_SIZE: u32 = 256;

/// Bytes of a viewport or of a tile image: 256 x 256 RGBA pixels.
pub const IMAGE_BYTES: usize = 262_144;

/// A tile of the pyramid.
#[derive(Clone, Copy, Debug, PartialEq, Eq, Structural)]
pub struct TileKey {
    pub zoom: u32,
    pub x: u32,
    pub y: u32,
}

/// A tile drawn into the viewport with its top left corner at
/// `(dest_x, dest_y)`.
#[derive(Clone, Copy, Debug, PartialEq, Eq, Structural)]
pub struct Placement {
    pub key: TileKey,
    pub dest_x: i32,
    pub dest_y: i32,
}

/// Which neighbour to take along one axis: the one before (`-1`) when the fix
/// lies in the first half of its tile, else the one after (`1`).
pub open spec fn side(p: int) -> int {
    if p < 128 {
        -1
    } else {
        1
    }
}

/// The tiles of the viewport around `pos` at `zoom`, in drawing order: the
/// fix's own tile, its east-west neighbour, and, where the north-south
/// neighbour exists, the diagonal neighbour and that one. The fix's own tile
/// is placed so that the fix lands on the viewport's centre; the others sit
/// one tile away from it. East-west the world wraps around.
pub open spec fn viewport_tiles(zoom: u32, pos: TilePosition) -> Seq<Placement> {
    let n = tiles_across(zoom as nat) as int;
    let sx = side(pos.px as int);
    let sy = side(pos.py as int);
    let nx = ((pos.tile_x + sx) % n) as u32;
    let ny = pos.tile_y + sy;
    let dx = 128 - pos.px;
    let dy = 128 - pos.py;
    let dx1 = dx + 256 * sx;
    let dy1 = dy + 256 * sy;
    let own = Placement {
        key: TileKey { zoom, x: pos.tile_x, y: pos.tile_y },
        dest_x: dx as i32,
        dest_y: dy as i32,
    };
    let across = Placement {
        key: TileKey { zoom, x: nx, y: pos.tile_y },
        dest_x: dx1 as i32,
        dest_y: dy as i32,
    };
    if 0 <= ny < n {
        seq![
            own,
            across,
            Placement { key: TileKey { zoom, x: nx, y: ny as u32 }, dest_x: dx1 as i32, dest_y: dy1 as i32 },
            Placement { key: TileKey { zoom, x: pos.tile_x, y: ny as u32 }, dest_x: dx as i32, dest_y: dy1 as i32 },
        ]
    } else {
        seq![own, across]
    }
}

/// A valid tile position at `zoom`.
pub open spec fn position_valid(zoom: u32, pos: TilePosition) -> bool {
    &&& zoom <= MAX_ZOOM
    &&& pos.tile_x < tiles_across(zoom as nat)
    &&& pos.tile_y < tiles_across(zoom as nat)
    &&& pos.px < TILE_W
    &&& pos.py < TILE_H
}

/// The tiles to draw for a fix at `pos`: see [`viewport_tiles`].
pub fn build_map_frame(zoom: u32, pos: TilePosition) -> (r: Vec<Placement>)
    requires
        position_valid(zoom, pos),
    ensures
        r@ == viewport_tiles(zoom, pos),
{
    let n = tile_count(zoom);
    let nx: u32 = if pos.px < 128 {
        if pos.tile_x == 0 {
            (n - 1) as u32
        } else {
            pos.tile_x - 1
        }
    } else {
        if pos.tile_x as u64 == n - 1 {
            0
        } else {
            pos.tile_x + 1
        }
    };
    proof {
        let ni = n as int;
        let t = pos.tile_x as int;
        if pos.px < 128 {
            if t == 0 {
                assert((t - 1) % ni == ni - 1) by (nonlinear_arith)
                    requires
                        t == 0,
                        ni >= 1,
                ;
            } else {
                assert((t - 1) % ni == t - 1) by (nonlinear_arith)
                    requires
                        1 <= t < ni,
                ;
            }
        } else {
            if t == ni - 1 {
                vstd::arithmetic::div_mod::lemma_mod_self_0(ni);
            } else {
                assert((t + 1) % ni == t + 1) by (nonlinear_arith)
                    requires
                        0 <= t,
                        t + 1 < ni,
                ;
            }
        }
        assert(nx == ((pos.tile_x + side(pos.px as int)) % ni) as u32);
    }
    let dx: i32 = 128 - pos.px as i32;
    let dy: i32 = 128 - pos.py as i32;
    let dx1: i32 = if pos.px < 128 {
        dx - 256
    } else {
        dx + 256
    };
    let dy1: i32 = if pos.py < 128 {
        dy - 256
    } else {
        dy + 256
    };
    let mut r: Vec<Placement> = Vec::new();
    r.push(Placement { key: TileKey { zoom, x: pos.tile_x, y: pos.tile_y }, dest_x: dx, dest_y: dy });
    r.push(Placement { key: TileKey { zoom, x: nx, y: pos.tile_y }, dest_x: dx1, dest_y: dy });
    let has_row = if pos.py < 128 {
        pos.tile_y > 0
    } else {
        (pos.tile_y as u64) + 1 < n
    };
    if has_row {
        let ny: u32 = if pos.py < 128 {
            pos.tile_y - 1
        } else {
            pos.tile_y + 1
        };
        r.push(Placement { key: TileKey { zoom, x: nx, y: ny }, dest_x: dx1, dest_y: dy1 });
        r.push(Placement { key: TileKey { zoom, x: pos.tile_x, y: ny }, dest_x: dx, dest_y: dy1 });
    }
    assert(r@ =~= viewport_tiles(zoom, pos));
    r
}

/// The placement covers viewport pixel `(u, v)`.
pub open spec fn covers(p: Placement, u: int, v: int) -> bool {
    &&& p.dest_x <= u < p.dest_x + 256
    &&& p.dest_y <= v < p.dest_y + 256
}

/// The last placement in drawing order that covers `(u, v)`: the one whose
/// pixel shows there.
pub open spec fn top_cover(ps: Seq<Placement>, u: int, v: int) -> Option<int>
    decreases ps.len(),
{
    if ps.len() == 0 {
        None
    } else if covers(ps.last(), u, v) {
        Some(ps.len() - 1)
    } else {
        top_cover(ps.drop_last(), u, v)
    }
}

/// The marker: the 4 x 4 square centred on the viewport's centre.
pub open spec fn in_marker(u: int, v: int) -> bool {
    &&& 126 <= u < 130
    &&& 126 <= v < 130
}

/// Channel `c` of the marker's colour, opaque red.
pub open spec fn marker_byte(c: int) -> u8 {
    if c == 1 || c == 2 {
        0
    } else {
        255
    }
}

/// Channel `c` of the background, opaque black.
pub open spec fn background_byte(c: int) -> u8 {
    if c == 3 {
        255
    } else {
        0
    }
}

/// The views of a sequence of images.
pub open spec fn images_view(imgs: Seq<Vec<u8>>) -> Seq<Seq<u8>> {
    imgs.map_values(|b: Vec<u8>| b@)
}

/// Byte `i` of the viewport drawn from the tiles `ps` with RGBA images
/// `imgs`, row by row from the top: the marker where it lies, else the pixel
/// of the topmost tile there, else the background.
pub open spec fn view_byte(ps: Seq<Placement>, imgs: Seq<Seq<u8>>, i: int) -> u8 {
    let u = (i / 4) % 256;
    let v = (i / 4) / 256;
    let c = i % 4;
    if in_marker(u, v) {
        marker_byte(c)
    } else {
        match top_cover(ps, u, v) {
            Some(k) => imgs[k][((v - ps[k].dest_y) * 256 + (u - ps[k].dest_x)) * 4 + c],
            None => background_byte(c),
        }
    }
}

fn find_top(tiles: &Vec<Placement>, u: i64, v: i64) -> (r: Option<usize>)
    ensures
        match top_cover(tiles@, u as int, v as int) {
            Some(k) => r is Some && r.unwrap() == k,
            None => r is None,
        },
        r matches Some(k) ==> k < tiles@.len() && covers(tiles@[k as int], u as int, v as int),
{
    let mut k: usize = tiles.len();
    assert(tiles@.take(k as int) =~= tiles@);
    while k > 0
        invariant
            k <= tiles@.len(),
            top_cover(tiles@, u as int, v as int) == top_cover(tiles@.take(k as int), u as int, v as int),
        decreases k,
    {
        let p = tiles[k - 1];
        assert(tiles@.take(k as int).last() == p);
        assert(tiles@.take(k as int).drop_last() =~= tiles@.take(k - 1));
        if p.dest_x as i64 <= u && u < p.dest_x as i64 + 256 && p.dest_y as i64 <= v && v
            < p.dest_y as i64 + 256 {
            return Some(k - 1);
        }
        k = k - 1;
    }
    None
}

/// Draws the viewport from the tiles `tiles` (as planned by
/// [`build_map_frame`]) and their decoded RGBA images, in the same order,
/// then the marker on the fix: see [`view_byte`].
pub fn compose_viewport(tiles: &Vec<Placement>, images: &Vec<Vec<u8>>) -> (r: Vec<u8>)
    requires
        images@.len() == tiles@.len(),
        forall|k: int| 0 <= k < images@.len() ==> (#[trigger] images@[k])@.len() == IMAGE_BYTES,
    ensures
        r@.len() == IMAGE_BYTES,
        forall|i: int|
            0 <= i < IMAGE_BYTES ==> #[trigger] r@[i] == view_byte(tiles@, images_view(images@), i),
{
    let mut out: Vec<u8> = Vec::new();
    let mut i: usize = 0;
    while i < IMAGE_BYTES
        invariant
            i <= IMAGE_BYTES,
            out@.len() == i,
            images@.len() == tiles@.len(),
            forall|k: int| 0 <= k < images@.len() ==> (#[trigger] images@[k])@.len() == IMAGE_BYTES,
            forall|j: int|
                0 <= j < i ==> #[trigger] out@[j] == view_byte(tiles@, images_view(images@), j),
        decreases IMAGE_BYTES - i,
    {
        let pix = i / 4;
        let u = (pix % 256) as i64;
        let v = (pix / 256) as i64;
        let c = i % 4;
        let b: u8 = if 126 <= u && u < 130 && 126 <= v && v < 130 {
            if c == 1 || c == 2 {
                0
            } else {
                255
            }
        } else {
            match find_top(tiles, u, v) {
                Some(k) => {
                    let p = tiles[k];
                    let tu = (u - p.dest_x as i64) as usize;
                    let tv = (v - p.dest_y as i64) as usize;
                    assert((tv * 256 + tu) * 4 + c < 262_144) by (nonlinear_arith)
                        requires
                            tv < 256,
                            tu < 256,
                            c < 4,
                    ;
                    assert(images_view(images@)[k as int] == images@[k as int]@);
                    images[k][(tv * 256 + tu) * 4 + c]
                },
                None => {
                    if c == 3 {
                        255
                    } else {
                        0
                    }
                },
            }
        };
        out.push(b);
        assert(out@[i as int] == view_byte(tiles@, images_view(images@), i as int));
        i = i + 1;
    }
    out
}

/// A blank frame: every byte zero, a fully transparent viewport.
pub fn blank_viewport() -> (r: Vec<u8>)
    ensures
        r@.len() == IMAGE_BYTES,
        forall|i: int| 0 <= i < IMAGE_BYTES ==> #[trigger] r@[i] == 0,
{
    let mut out: Vec<u8> = Vec::new();
    let mut i: usize = 0;
    while i < IMAGE_BYTES
        invariant
            i <= IMAGE_BYTES,
            out@.len() == i,
            forall|j: int| 0 <= j < i ==> #[trigger] out@[j] == 0,
        decreases IMAGE_BYTES - i,
    {
        out.push(0);
        i = i + 1;
    }
    out
}

/// Round trip through the viewport: a world pixel, resolved to its tile
/// position and drawn with the tiles planned for that position, lands exactly
/// on the viewport's centre, where the fix's own tile is the one shown.
pub proof fn lemma_fix_at_centre(zoom: u32, world_x: int, world_y: int)
    requires
        zoom <= MAX_ZOOM,
        0 <= world_x < world_size(zoom as nat),
        0 <= world_y < world_size(zoom as nat),
    ensures
        ({
            let pos = crate::projection::position_of(world_x, world_y);
            let ps = viewport_tiles(zoom, pos);
            &&& ps[0].key == (TileKey { zoom, x: pos.tile_x, y: pos.tile_y })
            &&& ps[0].dest_x + world_x % 256 == 128
            &&& ps[0].dest_y + world_y % 256 == 128
            &&& top_cover(ps, 128, 128) == Some(0int)
        }),
{
    let pos = crate::projection::position_of(world_x, world_y);
    let ps = viewport_tiles(zoom, pos);
    reveal_with_fuel(top_cover, 5);
    if ps.len() == 4 {
        assert(ps.drop_last() =~= seq![ps[0], ps[1], ps[2]]);
        assert(ps.drop_last().drop_last() =~= seq![ps[0], ps[1]]);
        assert(ps.drop_last().drop_last().drop_last() =~= seq![ps[0]]);
    } else {
        assert(ps.drop_last() =~= seq![ps[0]]);
    }
}

/// The viewport shows the world around the fix: every viewport pixel whose
/// world row exists is covered by a planned tile, and the tile and the pixel
/// within it are those of the world pixel at the same offset from the fix
/// (east-west wrapping around the world).
pub proof fn lemma_viewport_shows_world(zoom: u32, pos: TilePosition, u: int, v: int)
    requires
        position_valid(zoom, pos),
        0 <= u < 256,
        0 <= v < 256,
        0 <= pos.tile_y * 256 + pos.py - 128 + v < world_size(zoom as nat),
    ensures
        ({
            let ps = viewport_tiles(zoom, pos);
            let gx = pos.tile_x * 256 + pos.px - 128 + u;
            let gy = pos.tile_y * 256 + pos.py - 128 + v;
            let n = tiles_across(zoom as nat) as int;
            &&& top_cover(ps, u, v) is Some
            &&& ps[top_cover(ps, u, v).unwrap()].key == (TileKey {
                zoom,
                x: ((gx / 256) % n) as u32,
                y: (gy / 256) as u32,
            })
            &&& u - ps[top_cover(ps, u, v).unwrap()].dest_x == gx % 256
            &&& v - ps[top_cover(ps, u, v).unwrap()].dest_y == gy % 256
        }),
{
    let ps = viewport_tiles(zoom, pos);
    let n = tiles_across(zoom as nat) as int;
    let gx = pos.tile_x * 256 + pos.px - 128 + u;
    let gy = pos.tile_y * 256 + pos.py - 128 + v;
    let sx = side(pos.px as int);
    let sy = side(pos.py as int);
    let dx = 128 - pos.px;
    let dy = 128 - pos.py;
    let in_own_col = dx <= u < dx + 256;
    let in_own_row = dy <= v < dy + 256;
    reveal_with_fuel(top_cover, 5);
    if ps.len() == 4 {
        assert(ps.drop_last() =~= seq![ps[0], ps[1], ps[2]]);
        assert(ps.drop_last().drop_last() =~= seq![ps[0], ps[1]]);
        assert(ps.drop_last().drop_last().drop_last() =~= seq![ps[0]]);
    } else {
        assert(ps.drop_last() =~= seq![ps[0]]);
    }
    if in_own_col {
        assert(gx / 256 == pos.tile_x && gx % 256 == u - dx);
        assert((gx / 256) % n == pos.tile_x) by {
            vstd::arithmetic::div_mod::lemma_small_mod(pos.tile_x as nat, n as nat);
        }
    } else {
        assert(gx / 256 == pos.tile_x + sx && gx % 256 == u - dx - 256 * sx);
    }
    if in_own_row {
        assert(gy / 256 == pos.tile_y && gy % 256 == v - dy);
    } else {
        assert(gy / 256 == pos.tile_y + sy && gy % 256 == v - dy - 256 * sy);
        assert(0 <= pos.tile_y + sy < n);
    }
}

/// What the composed viewport shows: at every pixel off the marker whose
/// world row exists, channel `c` is that channel of the world pixel at the
/// same offset from the fix, read from the image of the tile that holds it.
pub proof fn lemma_viewport_pixel_is_world_pixel(
    zoom: u32,
    pos: TilePosition,
    imgs: Seq<Seq<u8>>,
    u: int,
    v: int,
    c: int,
)
    requires
        position_valid(zoom, pos),
        0 <= u < 256,
        0 <= v < 256,
        0 <= c < 4,
        !in_marker(u, v),
        0 <= pos.tile_y * 256 + pos.py - 128 + v < world_size(zoom as nat),
    ensures
        ({
            let ps = viewport_tiles(zoom, pos);
            let gx = pos.tile_x * 256 + pos.px - 128 + u;
            let gy = pos.tile_y * 256 + pos.py - 128 + v;
            let n = tiles_across(zoom as nat) as int;
            let k = top_cover(ps, u, v).unwrap();
            &&& ps[k].key == (TileKey { zoom, x: ((gx / 256) % n) as u32, y: (gy / 256) as u32 })
            &&& view_byte(ps, imgs, (v * 256 + u) * 4 + c) == imgs[k][((gy % 256) * 256 + gx
                % 256) * 4 + c]
        }),
{
    lemma_viewport_shows_world(zoom, pos, u, v);
    let i = (v * 256 + u) * 4 + c;
    assert(i / 4 == v * 256 + u && i % 4 == c) by (nonlinear_arith)
        requires
            i == (v * 256 + u) * 4 + c,
            0 <= c < 4,
            0 <= u,
            0 <= v,
    ;
    assert((v * 256 + u) % 256 == u && (v * 256 + u) / 256 == v) by (nonlinear_arith)
        requires
            0 <= u < 256,
            0 <= v,
    ;
}

} // verus!
