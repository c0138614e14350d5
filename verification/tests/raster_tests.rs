use image::{ImageFormat, Rgba, RgbaImage};
use model_imagery_server::entity::{can_merge, store_fetched_images, FetchImageError, GetMapUserError};
use model_imagery_server::raster::{
    blank_tile_image, clip, image_or_blank, load_tile_image, merge_layers, merge_tile,
    png_bytes, ClipRect, RasterImage,
};
use model_imagery_server::tile::{tile_coordinates, Tile, Tiles};
use std::io::Cursor;
use std::sync::Arc;

fn png_of(img: &RgbaImage) -> Vec<u8> {
    let mut bytes = Vec::new();
    img.write_to(&mut Cursor::new(&mut bytes), ImageFormat::Png).unwrap();
    bytes
}

fn solid(size: u32, p: [u8; 4]) -> Arc<RasterImage> {
    let img = RgbaImage::from_pixel(size, size, Rgba(p));
    Arc::new(load_tile_image(&png_of(&img)).unwrap())
}

fn grid(nx: u32, ny: u32, layers: u32) -> Tiles<()> {
    let mut tiles = Tiles::new(3, layers);
    for (x, y) in tile_coordinates(0, 0, nx - 1, ny - 1) {
        tiles.push(Tile::new(x, y, 3, (), layers as usize));
    }
    tiles.push_finish();
    tiles
}

#[test]
fn load_and_encode_images() {
    let img = solid(3, [1, 2, 3, 4]);
    assert_eq!(img.dimensions(), (3, 3));
    assert_eq!(img.pixel(2, 1), (1, 2, 3, 4));
    let bytes = png_bytes(&img).unwrap();
    let back = load_tile_image(&bytes).unwrap();
    assert_eq!(back.pixel(0, 0), (1, 2, 3, 4));
    assert!(matches!(load_tile_image(&vec![1, 2, 3]), Err(FetchImageError::LoadError)));
}

#[test]
fn blank_when_fetch_failed() {
    let img = image_or_blank(Err(FetchImageError::NetError), 4);
    assert_eq!(img.dimensions(), (4, 4));
    assert_eq!(img.pixel(3, 3), (0, 0, 0, 0));
    let ok = image_or_blank(Ok(blank_tile_image(2)), 4);
    assert_eq!(ok.dimensions(), (2, 2));
}

#[test]
fn merge_places_tiles_and_stacks_layers() {
    let mut tiles = grid(2, 2, 2);
    let red = solid(2, [255, 0, 0, 255]);
    let green = solid(3, [0, 255, 0, 255]);
    let clear = solid(2, [9, 9, 9, 0]);
    store_fetched_images(
        &mut tiles,
        vec![
            (0, 0, red.clone()),
            (1, 1, green.clone()),
            (2, 0, green.clone()),
            (2, 1, red.clone()),
            (3, 0, red.clone()),
            (3, 1, clear.clone()),
        ],
    );
    assert!(can_merge(&tiles, 2));
    let merged = merge_layers(&tiles, 2);
    assert_eq!(merged.dimensions(), (4, 4));
    // tile (0,0): red only
    assert_eq!(merged.pixel(1, 1), (255, 0, 0, 255));
    // tile (0,1): green in the second layer
    assert_eq!(merged.pixel(0, 3), (0, 255, 0, 255));
    // tile (1,0): green then red on top
    assert_eq!(merged.pixel(3, 0), (255, 0, 0, 255));
    // tile (1,1): red, then a fully transparent layer that changes nothing
    assert_eq!(merged.pixel(2, 2), (255, 0, 0, 255));
}

#[test]
fn merge_leaves_empty_tiles_transparent() {
    let tiles = grid(1, 1, 1);
    let merged = merge_layers(&tiles, 3);
    assert_eq!(merged.dimensions(), (3, 3));
    assert_eq!(merged.pixel(2, 2), (0, 0, 0, 0));
}

#[test]
fn can_merge_refuses_small_images() {
    let mut tiles = grid(1, 1, 1);
    store_fetched_images(&mut tiles, vec![(0, 0, solid(1, [1, 1, 1, 255]))]);
    assert!(!can_merge(&tiles, 2));
    assert!(can_merge(&tiles, 1));
    let short: Tiles<()> = Tiles::new(0, 0);
    let mut wide = short;
    wide.x_num = 1;
    wide.y_num = 1;
    assert!(!can_merge(&wide, 1));
}

#[test]
fn clip_cuts_a_block() {
    let mut tiles = grid(2, 1, 1);
    store_fetched_images(
        &mut tiles,
        vec![(0, 0, solid(2, [10, 0, 0, 255])), (1, 0, solid(2, [20, 0, 0, 255]))],
    );
    let merged = merge_layers(&tiles, 2);
    let cut = clip(&merged, 1, 1, 2, 1);
    assert_eq!(cut.dimensions(), (2, 1));
    assert_eq!(cut.pixel(0, 0), (10, 0, 0, 255));
    assert_eq!(cut.pixel(1, 0), (20, 0, 0, 255));
    let whole = merge_tile(&tiles, 2, 1, ClipRect { x: 1, y: 0, width: 3, height: 2 }).unwrap();
    assert_eq!(whole.dimensions(), (3, 2));
    assert_eq!(whole.pixel(0, 1), (10, 0, 0, 255));
    assert_eq!(whole.pixel(2, 1), (20, 0, 0, 255));
}

#[test]
fn user_error_codes_and_messages() {
    assert_eq!(GetMapUserError::InternalError.status_code(), 500);
    assert_eq!(GetMapUserError::NotFound.status_code(), 404);
    assert_eq!(GetMapUserError::ParamsError.status_code(), 404);
    assert_eq!(GetMapUserError::FetchImageError.status_code(), 404);
    assert_eq!(GetMapUserError::ParamsError.message(), "参数错误，请修正参数.");
    assert_eq!(FetchImageError::NetError.message(), "网络错误,请检查网络!");
}

#[test]
fn fetched_image_is_kept_whatever_the_tile_size() {
    let fetched = blank_tile_image(3);
    let img = image_or_blank(Ok(fetched), u32::MAX);
    assert_eq!(img.dimensions(), (3, 3));
}

#[test]
fn can_merge_refuses_a_picture_too_large_to_allocate() {
    let tiles = grid(1, 1, 1);
    assert!(!can_merge(&tiles, 1 << 31));
    assert!(!can_merge(&tiles, u32::MAX));
}

#[test]
fn decoded_size_is_width_then_height() {
    let img = RgbaImage::from_pixel(5, 2, Rgba([9, 9, 9, 255]));
    let decoded = load_tile_image(&png_of(&img)).unwrap();
    assert_eq!(decoded.dimensions(), (5, 2));
    let window = clip(&decoded, 1, 0, 3, 2);
    assert_eq!(window.dimensions(), (3, 2));
}
