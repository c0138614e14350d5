//! RGBA images, held by the `image` crate, and the two operations of the
//! library on them: laying the layers of each tile over one another into one
//! picture of the whole grid, and cutting a rectangle out of it.
use crate::entity::{FetchImageError, GetMapUserError};
use crate::tile::{Tile, Tiles};
use image::Pixel;
use std::sync::Arc;
use vstd::prelude::*;

verus! {

/// An RGBA pixel as its four channels: red, green, blue, alpha.
pub type RgbaPixel = (u8, u8, u8, u8);

/// A fully transparent black pixel, what a new image holds.
pub open spec fn transparent() -> RgbaPixel {
    (0u8, 0u8, 0u8, 0u8)
}

/// An 8-bit RGBA image of the `image` crate (`image::RgbaImage`).
#[verifier::external_body]
pub struct RasterImage {
    img: image::RgbaImage,
}

/// What the pixels of an image hold, by (column, row).
pub uninterp spec fn image_pixels(img: RasterImage) -> Map<(u32, u32), RgbaPixel>;

/// The (width, height) of an image.
pub uninterp spec fn image_size(img: RasterImage) -> (u32, u32);

/// What `Pixel::blend` of the `image` crate makes of pixel `dst` when `src`
/// is laid over it.
pub uninterp spec fn blended(dst: RgbaPixel, src: RgbaPixel) -> RgbaPixel;

/// A `width` by `height` RGBA buffer can be allocated. `ImageBuffer::new`
/// computes its length as `4 * width`, then that times `height`, each step
/// with `checked_mul` on `usize`, and panics where either step overflows; the
/// `Vec` it then allocates panics where it exceeds `isize::MAX` bytes.
pub open spec fn buffer_fits(width: int, height: int) -> bool {
    &&& 4 * width <= usize::MAX
    &&& 4 * width * height <= isize::MAX
}

/// An image of `width` by `height` transparent pixels (`ImageBuffer::new`),
/// which panics where the buffer does not fit (see `buffer_fits`).
#[verifier::external_body]
fn new_image(width: u32, height: u32) -> (r: RasterImage)
    requires
        buffer_fits(width as int, height as int),
    ensures
        image_size(r) == (width, height),
        forall|x: u32, y: u32| x < width && y < height ==> #[trigger] image_pixels(r)[(x, y)]
            == transparent(),
{
    RasterImage { img: image::RgbaImage::new(width, height) }
}

/// The (width, height) of an image (`ImageBuffer::dimensions`). Every
/// `ImageBuffer` holds a buffer of `4 * width * height` bytes, which its
/// constructors check as `buffer_fits` states it, so the size of any image
/// fits.
#[verifier::external_body]
fn dimensions_of(img: &RasterImage) -> (r: (u32, u32))
    ensures
        r == image_size(*img),
        buffer_fits(r.0 as int, r.1 as int),
{
    img.img.dimensions()
}

/// The pixel at (`x`, `y`) (`ImageBuffer::get_pixel`), which panics out of
/// bounds.
#[verifier::external_body]
fn get_pixel(img: &RasterImage, x: u32, y: u32) -> (r: RgbaPixel)
    requires
        x < image_size(*img).0,
        y < image_size(*img).1,
    ensures
        r == image_pixels(*img)[(x, y)],
{
    let p = img.img.get_pixel(x, y);
    (p.0[0], p.0[1], p.0[2], p.0[3])
}

/// Writes the pixel at (`x`, `y`) (`ImageBuffer::put_pixel`), which panics
/// out of bounds; the size and the other pixels stay.
#[verifier::external_body]
fn put_pixel(img: &mut RasterImage, x: u32, y: u32, p: RgbaPixel)
    requires
        x < image_size(*old(img)).0,
        y < image_size(*old(img)).1,
    ensures
        image_size(*final(img)) == image_size(*old(img)),
        image_pixels(*final(img)) == image_pixels(*old(img)).insert((x, y), p),
{
    img.img.put_pixel(x, y, image::Rgba([p.0, p.1, p.2, p.3]));
}

/// Lays pixel `src` over pixel `dst` with `Pixel::blend` (source-over alpha
/// compositing in floating point). The contract names the result, and
/// states the two cases the crate decides before any arithmetic: a fully
/// transparent `src` leaves `dst`, a fully opaque one replaces it.
#[verifier::external_body]
fn blend_pixels(dst: RgbaPixel, src: RgbaPixel) -> (r: RgbaPixel)
    ensures
        r == blended(dst, src),
        src.3 == 0 ==> r == dst,
        src.3 == 255 ==> r == src,
{
    let mut d = image::Rgba([dst.0, dst.1, dst.2, dst.3]);
    d.blend(&image::Rgba([src.0, src.1, src.2, src.3]));
    (d.0[0], d.0[1], d.0[2], d.0[3])
}

/// Whether `image::load_from_memory` decodes `bytes`, and the (width,
/// height) of the image it then gives, or `None` where the bytes cannot be
/// decoded.
pub uninterp spec fn decoded_size(bytes: Seq<u8>) -> Option<(u32, u32)>;

/// What PNG encoding (`ImageBuffer::write_to` with `ImageFormat::Png`)
/// makes of an image of the given size and pixels, or `None` where the
/// encoder fails.
pub uninterp spec fn png_encoding(size: (u32, u32), pixels: Map<(u32, u32), RgbaPixel>) -> Option<
    Seq<u8>,
>;

/// Decodes an image file held in memory (`image::load_from_memory`) and
/// converts it to 8-bit RGBA (`DynamicImage::into_rgba8`). The contract ties
/// whether it decodes, and the size, to the bytes through the name
/// `decoded_size`. The pixels are left unsaid: the JPEG decoder picks its
/// inverse DCT and colour conversion by the processor's features at run
/// time, and those may round differently.
#[verifier::external_body]
fn decode_image(bytes: &Vec<u8>) -> (r: Option<RasterImage>)
    ensures
        match r {
            Some(img) => decoded_size(bytes@) == Some(image_size(img)),
            None => decoded_size(bytes@) is None,
        },
{
    match image::load_from_memory(bytes.as_slice()) {
        Ok(d) => Some(RasterImage { img: d.into_rgba8() }),
        Err(_) => None,
    }
}

/// Encodes an image as PNG (`ImageBuffer::write_to` with
/// `ImageFormat::Png`). The contract ties the bytes to the image through the
/// name `png_encoding`.
#[verifier::external_body]
fn encode_png(img: &RasterImage) -> (r: Option<Vec<u8>>)
    ensures
        match r {
            Some(b) => png_encoding(image_size(*img), image_pixels(*img)) == Some(b@),
            None => png_encoding(image_size(*img), image_pixels(*img)) is None,
        },
{
    let mut bytes: Vec<u8> = Vec::new();
    match img.img.write_to(&mut std::io::Cursor::new(&mut bytes), image::ImageFormat::Png) {
        Ok(_) => Some(bytes),
        Err(_) => None,
    }
}

impl RasterImage {
    /// The (width, height) of the image.
    pub fn dimensions(&self) -> (r: (u32, u32))
        ensures
            r == image_size(*self),
            buffer_fits(r.0 as int, r.1 as int),
    {
        dimensions_of(self)
    }

    /// The pixel at (`x`, `y`).
    pub fn pixel(&self, x: u32, y: u32) -> (r: RgbaPixel)
        requires
            x < image_size(*self).0,
            y < image_size(*self).1,
        ensures
            r == image_pixels(*self)[(x, y)],
    {
        get_pixel(self, x, y)
    }
}

/// A transparent square image of side `tile_size`: what stands for a tile
/// whose image could not be fetched or decoded.
pub fn blank_tile_image(tile_size: u32) -> (r: RasterImage)
    requires
        buffer_fits(tile_size as int, tile_size as int),
    ensures
        image_size(r) == (tile_size, tile_size),
        forall|x: u32, y: u32| x < tile_size && y < tile_size ==> #[trigger] image_pixels(r)[(x, y)]
            == transparent(),
{
    new_image(tile_size, tile_size)
}

/// Decodes the bytes of a fetched tile image; a file that cannot be decoded
/// is a `LoadError`.
pub fn load_tile_image(bytes: &Vec<u8>) -> (r: Result<RasterImage, FetchImageError>)
    ensures
        match r {
            Ok(img) => decoded_size(bytes@) == Some(image_size(img)),
            Err(e) => decoded_size(bytes@) is None && e == FetchImageError::LoadError,
        },
{
    match decode_image(bytes) {
        Some(img) => Ok(img),
        None => Err(FetchImageError::LoadError),
    }
}

/// The image of a fetched tile: the decoded image, whatever the tile size, or
/// a blank tile where the fetch or the decoding failed.
pub fn image_or_blank(fetched: Result<RasterImage, FetchImageError>, tile_size: u32) -> (r:
    RasterImage)
    requires
        fetched is Err ==> buffer_fits(tile_size as int, tile_size as int),
    ensures
        fetched is Ok ==> r == fetched->Ok_0,
        fetched is Err ==> image_size(r) == (tile_size, tile_size) && forall|x: u32, y: u32|
            x < tile_size && y < tile_size ==> #[trigger] image_pixels(r)[(x, y)] == transparent(),
{
    match fetched {
        Ok(img) => img,
        Err(_) => blank_tile_image(tile_size),
    }
}

/// The PNG bytes of an image; an encoder failure is an `InternalError`.
pub fn png_bytes(img: &RasterImage) -> (r: Result<Vec<u8>, GetMapUserError>)
    ensures
        match r {
            Ok(b) => png_encoding(image_size(*img), image_pixels(*img)) == Some(b@),
            Err(e) => png_encoding(image_size(*img), image_pixels(*img)) is None && e
                == GetMapUserError::InternalError,
        },
{
    match encode_png(img) {
        Some(bytes) => Ok(bytes),
        None => Err(GetMapUserError::InternalError),
    }
}

} // verus!

verus! {

/// The layers `images` laid in order over a pixel `base`, at (`px`, `py`) of
/// each layer; empty slots are skipped.
pub open spec fn layered_over(
    base: RgbaPixel,
    images: Seq<Option<Arc<RasterImage>>>,
    px: u32,
    py: u32,
) -> RgbaPixel
    decreases images.len(),
{
    if images.len() == 0 {
        base
    } else {
        let below = layered_over(base, images.drop_last(), px, py);
        match images.last() {
            Some(img) => blended(below, image_pixels(*img)[(px, py)]),
            None => below,
        }
    }
}

/// Every image of `images` is at least `ts` wide and high.
pub open spec fn images_cover(images: Seq<Option<Arc<RasterImage>>>, ts: u32) -> bool {
    forall|l: int|
        0 <= l < images.len() ==> (#[trigger] images[l] matches Some(img) ==> image_size(*img).0
            >= ts && image_size(*img).1 >= ts)
}

/// The tiles can be merged into one picture of `tile_size` pixels per tile:
/// its sides fit in a `u32` and its bytes in memory, the grid's tiles all
/// stand in `data`, and every image of them covers a whole tile.
pub open spec fn mergeable<G>(tiles: Tiles<G>, tile_size: u32) -> bool {
    &&& tiles.x_num * tile_size <= u32::MAX
    &&& tiles.y_num * tile_size <= u32::MAX
    &&& buffer_fits(tiles.x_num * tile_size, tiles.y_num * tile_size)
    &&& tiles.x_num * tiles.y_num <= u32::MAX + 1
    &&& tiles.data@.len() >= tiles.x_num * tiles.y_num
    &&& forall|k: int|
        0 <= k < tiles.x_num * tiles.y_num ==> images_cover(#[trigger] tiles.data@[k].images@, tile_size)
}

/// The pixel at (`x`, `y`) of the merged picture: the layers of the tile of
/// grid column `x / tile_size` and row `y / tile_size`, laid over a
/// transparent pixel, at the same place within the tile.
pub open spec fn merged_pixel<G>(tiles: Tiles<G>, tile_size: u32, x: u32, y: u32) -> RgbaPixel {
    layered_over(
        transparent(),
        tiles.data@[(x / tile_size) * tiles.y_num + y / tile_size].images@,
        (x % tile_size) as u32,
        (y % tile_size) as u32,
    )
}

/// `x` lies in the `c`-th band of width `ts` exactly when `x / ts == c`, and
/// then its place in the band is `x % ts`.
proof fn lemma_band(x: int, ts: int, c: int)
    requires
        ts > 0,
        x >= 0,
        c >= 0,
    ensures
        (c * ts <= x < c * ts + ts) <==> x / ts == c,
        x / ts == c ==> x % ts == x - c * ts,
{
    vstd::arithmetic::div_mod::lemma_fundamental_div_mod(x, ts);
    vstd::arithmetic::mul::lemma_mul_is_commutative(ts, x / ts);
    if c * ts <= x < c * ts + ts {
        vstd::arithmetic::div_mod::lemma_fundamental_div_mod_converse(x, ts, c, x - c * ts);
    }
    if x / ts == c {
        vstd::arithmetic::div_mod::lemma_mod_bound(x, ts);
    }
}

/// Lays the first `ts` by `ts` pixels of `src` over the block of `dst` whose
/// top left corner is (`ox`, `oy`).
fn blend_block(dst: &mut RasterImage, src: &RasterImage, ox: u32, oy: u32, ts: u32)
    requires
        ox + ts <= image_size(*old(dst)).0,
        oy + ts <= image_size(*old(dst)).1,
        image_size(*src).0 >= ts,
        image_size(*src).1 >= ts,
    ensures
        image_size(*final(dst)) == image_size(*old(dst)),
        forall|x: u32, y: u32|
            x < image_size(*old(dst)).0 && y < image_size(*old(dst)).1 ==> #[trigger] image_pixels(
                *final(dst),
            )[(x, y)] == if ox <= x < ox + ts && oy <= y < oy + ts {
                blended(
                    image_pixels(*old(dst))[(x, y)],
                    image_pixels(*src)[((x - ox) as u32, (y - oy) as u32)],
                )
            } else {
                image_pixels(*old(dst))[(x, y)]
            },
{
    let ghost before = image_pixels(*dst);
    let ghost size = image_size(*dst);
    let mut px: u32 = 0;
    while px < ts
        invariant
            px <= ts,
            ox + ts <= size.0,
            oy + ts <= size.1,
            image_size(*src).0 >= ts,
            image_size(*src).1 >= ts,
            image_size(*dst) == size,
            forall|x: u32, y: u32|
                x < size.0 && y < size.1 ==> #[trigger] image_pixels(*dst)[(x, y)] == if ox <= x
                    < ox + px && oy <= y < oy + ts {
                    blended(before[(x, y)], image_pixels(*src)[((x - ox) as u32, (y - oy) as u32)])
                } else {
                    before[(x, y)]
                },
        decreases ts - px,
    {
        let mut py: u32 = 0;
        while py < ts
            invariant
                px < ts,
                py <= ts,
                ox + ts <= size.0,
                oy + ts <= size.1,
                image_size(*src).0 >= ts,
                image_size(*src).1 >= ts,
                image_size(*dst) == size,
                forall|x: u32, y: u32|
                    x < size.0 && y < size.1 ==> #[trigger] image_pixels(*dst)[(x, y)] == if (ox <= x
                        < ox + px && oy <= y < oy + ts) || (x == ox + px && oy <= y < oy + py) {
                        blended(
                            before[(x, y)],
                            image_pixels(*src)[((x - ox) as u32, (y - oy) as u32)],
                        )
                    } else {
                        before[(x, y)]
                    },
            decreases ts - py,
        {
            let below = get_pixel(dst, ox + px, oy + py);
            let top = get_pixel(src, px, py);
            let p = blend_pixels(below, top);
            put_pixel(dst, ox + px, oy + py, p);
            py += 1;
        }
        px += 1;
    }
}

/// Lays the images of `layers`, in order, over the block of `dst` whose top
/// left corner is (`ox`, `oy`).
fn blend_layers(
    dst: &mut RasterImage,
    layers: &Vec<Option<Arc<RasterImage>>>,
    ox: u32,
    oy: u32,
    ts: u32,
)
    requires
        ox + ts <= image_size(*old(dst)).0,
        oy + ts <= image_size(*old(dst)).1,
        images_cover(layers@, ts),
    ensures
        image_size(*final(dst)) == image_size(*old(dst)),
        forall|x: u32, y: u32|
            x < image_size(*old(dst)).0 && y < image_size(*old(dst)).1 ==> #[trigger] image_pixels(
                *final(dst),
            )[(x, y)] == if ox <= x < ox + ts && oy <= y < oy + ts {
                layered_over(
                    image_pixels(*old(dst))[(x, y)],
                    layers@,
                    (x - ox) as u32,
                    (y - oy) as u32,
                )
            } else {
                image_pixels(*old(dst))[(x, y)]
            },
{
    let ghost before = image_pixels(*dst);
    let ghost size = image_size(*dst);
    let mut l: usize = 0;
    while l < layers.len()
        invariant
            l <= layers.len(),
            ox + ts <= size.0,
            oy + ts <= size.1,
            images_cover(layers@, ts),
            image_size(*dst) == size,
            forall|x: u32, y: u32|
                x < size.0 && y < size.1 ==> #[trigger] image_pixels(*dst)[(x, y)] == if ox <= x
                    < ox + ts && oy <= y < oy + ts {
                    layered_over(before[(x, y)], layers@.take(l as int), (x - ox) as u32, (y - oy) as u32)
                } else {
                    before[(x, y)]
                },
        decreases layers.len() - l,
    {
        proof {
            assert(layers@.take(l as int + 1).drop_last() =~= layers@.take(l as int));
            assert(layers@.take(l as int + 1).last() == layers@[l as int]);
        }
        match &layers[l] {
            Some(img) => {
                assert(layers@[l as int] matches Some(i) ==> image_size(*i).0 >= ts);
                blend_block(dst, &**img, ox, oy, ts);
            },
            None => {},
        }
        l += 1;
    }
    assert(layers@.take(layers.len() as int) =~= layers@);
}

} // verus!

verus! {

/// Where a merged picture is cut: the top left corner and the size.
#[derive(Clone, Copy)]
pub struct ClipRect {
    pub x: u32,
    pub y: u32,
    pub width: u32,
    pub height: u32,
}

/// The grid cell (`cx`, `cy`) comes before the cell of pixel (`x`, `y`) when
/// the cells are visited column by column.
pub open spec fn cell_done(x: u32, y: u32, ts: u32, cx: int, cy: int) -> bool {
    (x / ts) < cx || ((x / ts) == cx && (y / ts) < cy)
}

/// Lays the layers of every tile of the grid into one picture of
/// `tile_size` pixels per tile: the tile of grid column `i` and row `j` fills
/// the block whose top left corner is (`i * tile_size`, `j * tile_size`).
pub fn merge_layers<G>(tiles: &Tiles<G>, tile_size: u32) -> (r: RasterImage)
    requires
        mergeable(*tiles, tile_size),
    ensures
        image_size(r) == ((tiles.x_num * tile_size) as u32, (tiles.y_num * tile_size) as u32),
        forall|x: u32, y: u32|
            x < tiles.x_num * tile_size && y < tiles.y_num * tile_size ==> #[trigger] image_pixels(
                r,
            )[(x, y)] == merged_pixel(*tiles, tile_size, x, y),
{
    let x_num = tiles.x_num;
    let y_num = tiles.y_num;
    let img_width = x_num * tile_size;
    let img_height = y_num * tile_size;
    let mut merged = new_image(img_width, img_height);
    proof {
        assert forall|x: u32, y: u32| x < img_width && y < img_height implies !cell_done(
            x,
            y,
            tile_size,
            0,
            0,
        ) by {
            if tile_size > 0 {
                vstd::arithmetic::div_mod::lemma_div_pos_is_pos(x as int, tile_size as int);
                vstd::arithmetic::div_mod::lemma_div_pos_is_pos(y as int, tile_size as int);
            } else {
                assert(img_width == 0) by (nonlinear_arith)
                    requires
                        img_width == x_num * tile_size,
                        tile_size == 0,
                ;
            }
        }
    }
    let mut cx: u32 = 0;
    while cx < x_num
        invariant
            mergeable(*tiles, tile_size),
            x_num == tiles.x_num,
            y_num == tiles.y_num,
            img_width == x_num * tile_size,
            img_height == y_num * tile_size,
            cx <= x_num,
            image_size(merged) == (img_width, img_height),
            forall|x: u32, y: u32|
                x < img_width && y < img_height ==> #[trigger] image_pixels(merged)[(x, y)] == if cell_done(
                    x,
                    y,
                    tile_size,
                    cx as int,
                    0,
                ) {
                    merged_pixel(*tiles, tile_size, x, y)
                } else {
                    transparent()
                },
        decreases x_num - cx,
    {
        proof {
            assert(cx * tile_size + tile_size <= x_num * tile_size) by (nonlinear_arith)
                requires
                    cx < x_num,
            ;
        }
        let offset_x = cx * tile_size;
        let mut cy: u32 = 0;
        while cy < y_num
            invariant
                mergeable(*tiles, tile_size),
                x_num == tiles.x_num,
                y_num == tiles.y_num,
                img_width == x_num * tile_size,
                img_height == y_num * tile_size,
                cx < x_num,
                cy <= y_num,
                offset_x == cx * tile_size,
                offset_x + tile_size <= img_width,
                image_size(merged) == (img_width, img_height),
                forall|x: u32, y: u32|
                    x < img_width && y < img_height ==> #[trigger] image_pixels(merged)[(x, y)]
                        == if cell_done(x, y, tile_size, cx as int, cy as int) {
                        merged_pixel(*tiles, tile_size, x, y)
                    } else {
                        transparent()
                    },
            decreases y_num - cy,
        {
            proof {
                assert(cy * tile_size + tile_size <= y_num * tile_size) by (nonlinear_arith)
                    requires
                        cy < y_num,
                ;
                assert(cx as int * y_num + cy < x_num as int * y_num) by (nonlinear_arith)
                    requires
                        cx < x_num,
                        cy < y_num,
                ;
            }
            let offset_y = cy * tile_size;
            let index: u64 = (cx as u64) * (y_num as u64) + (cy as u64);
            let tile = &tiles.data[index as usize];
            let ghost before = image_pixels(merged);
            proof {
                assert(images_cover(tiles.data@[index as int].images@, tile_size));
            }
            blend_layers(&mut merged, &tile.images, offset_x, offset_y, tile_size);
            proof {
                assert forall|x: u32, y: u32| x < img_width && y < img_height implies #[trigger] image_pixels(
                    merged,
                )[(x, y)] == if cell_done(x, y, tile_size, cx as int, cy as int + 1) {
                    merged_pixel(*tiles, tile_size, x, y)
                } else {
                    transparent()
                } by {
                    if tile_size > 0 {
                        lemma_band(x as int, tile_size as int, cx as int);
                        lemma_band(y as int, tile_size as int, cy as int);
                    } else {
                        assert(img_width == 0) by (nonlinear_arith)
                            requires
                                img_width == x_num * tile_size,
                                tile_size == 0,
                        ;
                    }
                }
            }
            cy += 1;
        }
        proof {
            assert forall|x: u32, y: u32| x < img_width && y < img_height implies #[trigger] image_pixels(
                merged,
            )[(x, y)] == if cell_done(x, y, tile_size, cx as int + 1, 0) {
                merged_pixel(*tiles, tile_size, x, y)
            } else {
                transparent()
            } by {
                if tile_size > 0 {
                    vstd::arithmetic::div_mod::lemma_div_is_ordered(y as int, img_height as int, tile_size as int);
                    vstd::arithmetic::div_mod::lemma_div_by_multiple(y_num as int, tile_size as int);
                    vstd::arithmetic::div_mod::lemma_fundamental_div_mod(y as int, tile_size as int);
                    if y / tile_size == y_num {
                        assert(y >= y_num * tile_size) by (nonlinear_arith)
                            requires
                                y / tile_size == y_num,
                                y == tile_size * (y / tile_size) + y % tile_size,
                                y % tile_size >= 0,
                        ;
                    }
                }
            }
        }
        cx += 1;
    }
    proof {
        assert forall|x: u32, y: u32| x < img_width && y < img_height implies #[trigger] image_pixels(
            merged,
        )[(x, y)] == merged_pixel(*tiles, tile_size, x, y) by {
            if tile_size > 0 {
                vstd::arithmetic::div_mod::lemma_fundamental_div_mod(x as int, tile_size as int);
                if x / tile_size >= x_num {
                    assert(x >= x_num * tile_size) by (nonlinear_arith)
                        requires
                            x / tile_size >= x_num,
                            x == tile_size * (x / tile_size) + x % tile_size,
                            x % tile_size >= 0,
                    ;
                }
            } else {
                assert(img_width == 0) by (nonlinear_arith)
                    requires
                        img_width == x_num * tile_size,
                        tile_size == 0,
                ;
            }
        }
    }
    merged
}

/// The `width` by `height` block of `img` whose top left corner is
/// (`x`, `y`), as a new image.
pub fn clip(img: &RasterImage, x: u32, y: u32, width: u32, height: u32) -> (r: RasterImage)
    requires
        x + width <= image_size(*img).0,
        y + height <= image_size(*img).1,
    ensures
        image_size(r) == (width, height),
        forall|i: u32, j: u32|
            i < width && j < height ==> #[trigger] image_pixels(r)[(i, j)] == image_pixels(
                *img,
            )[((x + i) as u32, (y + j) as u32)],
{
    let (iw, ih) = dimensions_of(img);
    proof {
        assert(4 * width * height <= 4 * iw * ih) by (nonlinear_arith)
            requires
                width <= iw,
                height <= ih,
        ;
    }
    let mut out = new_image(width, height);
    let mut i: u32 = 0;
    while i < width
        invariant
            i <= width,
            x + width <= image_size(*img).0,
            y + height <= image_size(*img).1,
            image_size(out) == (width, height),
            forall|a: u32, b: u32|
                a < i && b < height ==> #[trigger] image_pixels(out)[(a, b)] == image_pixels(
                    *img,
                )[((x + a) as u32, (y + b) as u32)],
        decreases width - i,
    {
        let mut j: u32 = 0;
        while j < height
            invariant
                i < width,
                j <= height,
                x + width <= image_size(*img).0,
                y + height <= image_size(*img).1,
                image_size(out) == (width, height),
                forall|a: u32, b: u32|
                    (a < i && b < height) || (a == i && b < j) ==> #[trigger] image_pixels(out)[(a, b)]
                        == image_pixels(*img)[((x + a) as u32, (y + b) as u32)],
            decreases height - j,
        {
            let p = get_pixel(img, x + i, y + j);
            put_pixel(&mut out, i, j, p);
            j += 1;
        }
        i += 1;
    }
    out
}

/// The merged picture of the tiles, cut to `clip_rect`.
pub fn merge_tile<G>(tiles: &Tiles<G>, tile_size: u32, imagery_layer_num: u32, clip_rect: ClipRect) -> (r:
    Option<RasterImage>)
    requires
        mergeable(*tiles, tile_size),
        clip_rect.x + clip_rect.width <= tiles.x_num * tile_size,
        clip_rect.y + clip_rect.height <= tiles.y_num * tile_size,
    ensures
        r is Some,
        image_size(r->0) == (clip_rect.width, clip_rect.height),
        forall|i: u32, j: u32|
            i < clip_rect.width && j < clip_rect.height ==> #[trigger] image_pixels(r->0)[(i, j)]
                == merged_pixel(*tiles, tile_size, (clip_rect.x + i) as u32, (clip_rect.y + j) as u32),
{
    let merged = merge_layers(tiles, tile_size);
    Some(clip(&merged, clip_rect.x, clip_rect.y, clip_rect.width, clip_rect.height))
}

} // verus!

verus! {

/// Layers are composed through the `image` crate's blend, bottom to top: no
/// layer leaves the base pixel, an empty slot changes nothing, and a present
/// layer's pixel is blended (`Pixel::blend`, for every alpha) over what the
/// layers below it made.
pub proof fn lemma_layers_blend_in_order(
    base: RgbaPixel,
    images: Seq<Option<Arc<RasterImage>>>,
    img: Arc<RasterImage>,
    px: u32,
    py: u32,
)
    ensures
        layered_over(base, Seq::empty(), px, py) == base,
        layered_over(base, images.push(None), px, py) == layered_over(base, images, px, py),
        layered_over(base, images.push(Some(img)), px, py) == blended(
            layered_over(base, images, px, py),
            image_pixels(*img)[(px, py)],
        ),
{
    assert(images.push(None).drop_last() =~= images);
    assert(images.push(Some(img)).drop_last() =~= images);
}

/// The pixel (`px`, `py`) of the tile of grid column `i` and row `j`, in
/// the merged picture, stands at (`i * tile_size + px`, `j * tile_size + py`)
/// and is that tile's layers laid over a fully transparent pixel.
pub proof fn lemma_merged_pixel_of_cell<G>(
    tiles: Tiles<G>,
    tile_size: u32,
    i: int,
    j: int,
    px: u32,
    py: u32,
)
    requires
        0 <= i,
        0 <= j,
        px < tile_size,
        py < tile_size,
        i * tile_size + px <= u32::MAX,
        j * tile_size + py <= u32::MAX,
    ensures
        merged_pixel(tiles, tile_size, (i * tile_size + px) as u32, (j * tile_size + py) as u32)
            == layered_over((0u8, 0u8, 0u8, 0u8), tiles.data@[i * tiles.y_num + j].images@, px, py),
{
    let x = i * tile_size + px;
    let y = j * tile_size + py;
    vstd::arithmetic::div_mod::lemma_fundamental_div_mod_converse(x, tile_size as int, i, px as int);
    vstd::arithmetic::div_mod::lemma_fundamental_div_mod_converse(y, tile_size as int, j, py as int);
}

} // verus!
