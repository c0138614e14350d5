use model_imagery_server::entity::{
    can_plan, level_shift_fits, plan_tile_requests, request_level, store_fetched_images,
};
use model_imagery_server::raster::{blank_tile_image, RasterImage};
use model_imagery_server::tile::{find_value, tile_coordinates, Tile, Tiles, MIN_SENTINEL};
use std::sync::Arc;

fn grid_tiles(x0: u32, y0: u32, x1: u32, y1: u32, layers: u32) -> Tiles<()> {
    let mut tiles = Tiles::new(15, layers);
    for (x, y) in tile_coordinates(x0, y0, x1, y1) {
        tiles.push(Tile::new(x, y, 15, (), layers as usize));
    }
    tiles
}

#[test]
fn tile_coordinates_column_by_column() {
    assert_eq!(
        tile_coordinates(3, 7, 4, 9),
        vec![(3, 7), (3, 8), (3, 9), (4, 7), (4, 8), (4, 9)]
    );
    assert!(tile_coordinates(5, 0, 4, 0).is_empty());
    assert!(tile_coordinates(0, 5, 0, 4).is_empty());
    assert_eq!(tile_coordinates(u32::MAX, 0, u32::MAX, 0), vec![(u32::MAX, 0)]);
}

#[test]
fn grid_layout_after_push_finish() {
    let mut tiles = grid_tiles(54500, 9825, 54506, 9827, 3);
    tiles.push_finish();
    assert_eq!(tiles.data.len(), 21);
    assert_eq!(tiles.x_num, 7);
    assert_eq!(tiles.y_num, 3);
    assert_eq!(tiles.layer_num, 3);
    assert_eq!(tiles.level, 15);
    assert_eq!(tiles.minx + tiles.x_num - 1, tiles.maxx);
    assert_eq!(tiles.miny + tiles.y_num - 1, tiles.maxy);
    assert_eq!(tiles.data[0].images.len(), 3);
    for x in 0..tiles.x_num {
        for y in 0..tiles.y_num {
            let tile = &tiles.data[(x * tiles.y_num + y) as usize];
            assert_eq!(tile.x, tiles.minx + x);
            assert_eq!(tile.y, tiles.miny + y);
        }
    }
}

#[test]
fn find_value_uses_the_sentinel() {
    let empty: Vec<Tile<()>> = Vec::new();
    assert_eq!(find_value(&empty), (MIN_SENTINEL, MIN_SENTINEL, 0, 0));
    let big = vec![Tile::new(1_500_000_000, 2, 0, (), 0), Tile::new(1_500_000_001, 1, 0, (), 0)];
    assert_eq!(find_value(&big), (MIN_SENTINEL, 1, 1_500_000_001, 2));
}

#[test]
fn debug_string_of_tiles() {
    let mut tiles = grid_tiles(13625, 2456, 13626, 2456, 3);
    tiles.push_finish();
    assert_eq!(
        tiles.debug_string(),
        "Tiles = tile_num:2 img_num:6 size:2x1 level:15 leftTop:(13625,2456) rightBottom:(13626,2456)"
    );
    assert_eq!(tiles.len(), 2);
}

#[test]
fn request_level_shifts_and_wraps() {
    assert_eq!(request_level(13, 1), 14);
    assert_eq!(request_level(13, -13), 0);
    assert_eq!(request_level(0, -1), u32::MAX);
    assert_eq!(request_level(u32::MAX, 1), 0);
    assert!(level_shift_fits(13, 1));
    assert!(!level_shift_fits(i32::MAX as u32, 1));
    assert!(level_shift_fits(i32::MAX as u32 + 1, 1));
}

#[test]
fn plan_requests_tile_by_tile() {
    let tiles = grid_tiles(10, 20, 11, 20, 2);
    let urls = vec![
        "http://a/{z}/{x}/{y}".to_string(),
        "http://b/{x}-{y}@{z}".to_string(),
    ];
    assert!(can_plan(&tiles, &urls, 1));
    let plan = plan_tile_requests(&tiles, &urls, 1);
    let got: Vec<(usize, usize, String)> =
        plan.into_iter().map(|r| (r.tile_index, r.layer_index, r.url)).collect();
    assert_eq!(
        got,
        vec![
            (0, 0, "http://a/16/10/20".to_string()),
            (0, 1, "http://b/10-20@16".to_string()),
            (1, 0, "http://a/16/11/20".to_string()),
            (1, 1, "http://b/11-20@16".to_string()),
        ]
    );
    assert!(!can_plan(&tiles, &vec!["http://t{3-3}/".to_string()], 0));
}

#[test]
fn store_fetched_images_later_wins() {
    let mut tiles = grid_tiles(0, 0, 1, 0, 2);
    let a: Arc<RasterImage> = Arc::new(blank_tile_image(1));
    let b: Arc<RasterImage> = Arc::new(blank_tile_image(2));
    store_fetched_images(&mut tiles, vec![(1, 0, a.clone()), (1, 0, b.clone()), (0, 1, a.clone())]);
    assert!(tiles.data[0].images[0].is_none());
    assert_eq!(tiles.data[0].images[1].as_ref().unwrap().dimensions(), (1, 1));
    assert_eq!(tiles.data[1].images[0].as_ref().unwrap().dimensions(), (2, 2));
    assert!(tiles.data[1].images[1].is_none());
}

#[test]
fn store_fetched_images_in_any_order_fills_alike() {
    let a: Arc<RasterImage> = Arc::new(blank_tile_image(1));
    let b: Arc<RasterImage> = Arc::new(blank_tile_image(2));
    let c: Arc<RasterImage> = Arc::new(blank_tile_image(3));
    let items = vec![(0, 0, a.clone()), (1, 1, b.clone()), (0, 1, c.clone())];
    let mut first = grid_tiles(0, 0, 1, 0, 2);
    store_fetched_images(&mut first, items.clone());
    let mut second = grid_tiles(0, 0, 1, 0, 2);
    store_fetched_images(&mut second, items.into_iter().rev().collect());
    for t in 0..2 {
        for j in 0..2 {
            match (&first.data[t].images[j], &second.data[t].images[j]) {
                (Some(p), Some(q)) => assert!(Arc::ptr_eq(p, q)),
                (None, None) => {}
                _ => panic!("slot ({}, {}) differs", t, j),
            }
        }
    }
    assert!(first.data[1].images[0].is_none());
}

#[test]
fn planned_requests_name_distinct_slots() {
    let tiles = grid_tiles(3, 4, 5, 6, 3);
    let urls = vec![
        "http://a/{z}/{x}/{y}".to_string(),
        "http://b/{z}/{x}/{y}".to_string(),
        "http://c/{z}/{x}/{y}".to_string(),
    ];
    let plan = plan_tile_requests(&tiles, &urls, 0);
    assert_eq!(plan.len(), 27);
    let mut slots: Vec<(usize, usize)> = plan.iter().map(|r| (r.tile_index, r.layer_index)).collect();
    slots.sort();
    slots.dedup();
    assert_eq!(slots.len(), 27);
}
