use dash_to_map::cache::{partial_tile_path, tile_path, tile_url, CacheStep, TileCache};
use dash_to_map::projection::{longitude_to_world_x, solve_tile, tile_count, TilePosition};
use dash_to_map::viewport::{
    blank_viewport, build_map_frame, compose_viewport, Placement, TileKey, IMAGE_BYTES,
};
use dash_to_map::writer::WriteLedger;

fn pos(tile_x: u32, tile_y: u32, px: u32, py: u32) -> TilePosition {
    TilePosition { tile_x, tile_y, px, py }
}

#[test]
fn tile_count_at_zoom() {
    assert_eq!(tile_count(0), 1);
    assert_eq!(tile_count(15), 32768);
}

#[test]
fn longitude_to_world_pixels() {
    assert_eq!(longitude_to_world_x(0, 15), 4_194_304);
    assert_eq!(longitude_to_world_x(-1_800_000_000, 15), 0);
    assert_eq!(longitude_to_world_x(1_800_000_000, 15), 0);
    assert_eq!(longitude_to_world_x(200_000_000, 15), 4_660_337);
}

#[test]
fn world_pixel_to_tile() {
    assert_eq!(solve_tile(15, 4_194_304, 100), pos(16384, 0, 0, 100));
    assert_eq!(solve_tile(15, 4_660_337, 3_000_000), pos(18204, 11718, 113, 192));
    let p = solve_tile(0, 255, 255);
    assert_eq!(p, pos(0, 0, 255, 255));
}

#[test]
fn viewport_tiles_in_drawing_order() {
    let r = build_map_frame(15, pos(5, 5, 10, 200));
    let key = |x, y| TileKey { zoom: 15, x, y };
    assert_eq!(
        r,
        vec![
            Placement { key: key(5, 5), dest_x: 118, dest_y: -72 },
            Placement { key: key(4, 5), dest_x: -138, dest_y: -72 },
            Placement { key: key(4, 6), dest_x: -138, dest_y: 184 },
            Placement { key: key(5, 6), dest_x: 118, dest_y: 184 },
        ]
    );
}

#[test]
fn fix_pixel_lands_on_the_centre() {
    let p = solve_tile(15, 4_660_337, 3_000_000);
    let r = build_map_frame(15, p);
    assert_eq!(r[0].dest_x + p.px as i32, 128);
    assert_eq!(r[0].dest_y + p.py as i32, 128);
}

#[test]
fn viewport_wraps_east_west() {
    let r = build_map_frame(15, pos(0, 9, 3, 130));
    assert_eq!(r[1].key.x, 32767);
    let r = build_map_frame(15, pos(32767, 9, 200, 130));
    assert_eq!(r[1].key.x, 0);
}

#[test]
fn viewport_at_the_top_edge_has_no_row_above() {
    let r = build_map_frame(15, pos(7, 0, 200, 20));
    assert_eq!(r.len(), 2);
    assert_eq!(r[1].key, TileKey { zoom: 15, x: 8, y: 0 });
}

#[test]
fn composed_viewport_shows_tiles_marker_and_background() {
    let tiles = build_map_frame(15, pos(7, 0, 200, 20));
    let images: Vec<Vec<u8>> = vec![vec![10; IMAGE_BYTES], vec![20; IMAGE_BYTES]];
    let out = compose_viewport(&tiles, &images);
    assert_eq!(out.len(), IMAGE_BYTES);
    let at = |u: usize, v: usize, c: usize| out[(v * 256 + u) * 4 + c];
    assert_eq!((at(128, 128, 0), at(128, 128, 1), at(128, 128, 2), at(128, 128, 3)), (255, 0, 0, 255));
    assert_eq!(at(0, 200, 0), 10);
    assert_eq!(at(255, 200, 2), 20);
    assert_eq!((at(10, 10, 0), at(10, 10, 3)), (0, 255));
}

#[test]
fn composed_viewport_reads_the_right_tile_pixel() {
    let tiles = build_map_frame(15, pos(5, 5, 128, 128));
    let mut own = vec![0u8; IMAGE_BYTES];
    own[(0 * 256 + 0) * 4] = 77;
    let images: Vec<Vec<u8>> = vec![own, vec![1; IMAGE_BYTES], vec![2; IMAGE_BYTES], vec![3; IMAGE_BYTES]];
    let out = compose_viewport(&tiles, &images);
    assert_eq!(out[0], 77);
    assert_eq!(out[(255 * 256 + 255) * 4], 0);
}

#[test]
fn blank_viewport_is_transparent() {
    let b = blank_viewport();
    assert_eq!(b.len(), IMAGE_BYTES);
    assert!(b.iter().all(|x| *x == 0));
}

#[test]
fn cache_paths_and_url() {
    let key = TileKey { zoom: 15, x: 3, y: 40 };
    assert_eq!(tile_path("/tmp/cache", key), "/tmp/cache/15/3/40.webp");
    assert_eq!(partial_tile_path("c", key), "c/15/3/40.webp.part");
    assert_eq!(
        tile_url("https://maps.geoapify.com/v1/", key, "KEY"),
        "https://maps.geoapify.com/v1/tile/osm-carto/15/3/40.png?apiKey=KEY"
    );
}

#[test]
fn tile_is_fetched_once() {
    let key = TileKey { zoom: 15, x: 1, y: 2 };
    let other = TileKey { zoom: 15, x: 2, y: 1 };
    let mut cache = TileCache::new();
    assert_eq!(cache.request(key), CacheStep::Fetch);
    assert_eq!(cache.request(key), CacheStep::Wait);
    assert_eq!(cache.request(other), CacheStep::Fetch);
    cache.complete(key);
    assert_eq!(cache.request(key), CacheStep::Ready);
    assert_eq!(cache.request(key), CacheStep::Ready);
    assert_eq!(cache.request(other), CacheStep::Wait);
}

#[test]
fn abandoned_fetch_is_retried() {
    let key = TileKey { zoom: 15, x: 1, y: 2 };
    let mut cache = TileCache::new();
    assert_eq!(cache.request(key), CacheStep::Fetch);
    cache.abandon(key);
    assert_eq!(cache.request(key), CacheStep::Fetch);
}

#[test]
fn ledger_counts_writes() {
    let mut l = WriteLedger::new();
    assert!(l.all_durable());
    l.dispatch();
    l.dispatch();
    assert!(l.pending());
    l.settle(true);
    assert!(!l.all_durable());
    l.settle(false);
    assert!(!l.pending());
    assert!(l.any_failed());
    assert!(!l.all_durable());
}
