//! The imagery tiles that cover a model tile.
//!
//! The tiles of one imagery level that a rectangle touches form a grid of
//! columns `x` and rows `y`. They are kept column by column: the tile of
//! column `i` and row `j` of the grid stands at `i * y_num + j`. Each tile has
//! one image slot per requested layer; its placement in the merged picture
//! (`geometry`) is computed by the caller.
use crate::raster::RasterImage;
use crate::text::{decimal, push_decimal, push_str, string_of};
use std::sync::Arc;
use vstd::prelude::*;

verus! {

/// What the minimum of an empty set of tiles is taken to be.
pub const MIN_SENTINEL: u32 = 999999999;

/// One imagery tile: its column, row and level, where it is drawn
/// (`geometry`), and one image slot per layer.
pub struct Tile<G> {
    pub x: u32,
    pub y: u32,
    pub level: u32,
    pub geometry: G,
    pub images: Vec<Option<Arc<RasterImage>>>,
}

/// The tiles that cover a rectangle at one level, with the bounds of their
/// grid.
pub struct Tiles<G> {
    pub data: Vec<Tile<G>>,
    pub minx: u32,
    pub miny: u32,
    pub maxx: u32,
    pub maxy: u32,
    pub x_num: u32,
    pub y_num: u32,
    pub level: u32,
    pub layer_num: u32,
}

/// The least column of `s`, or `MIN_SENTINEL` where that is less.
pub open spec fn min_x<G>(s: Seq<Tile<G>>) -> u32
    decreases s.len(),
{
    if s.len() == 0 {
        MIN_SENTINEL
    } else if s.last().x < min_x(s.drop_last()) {
        s.last().x
    } else {
        min_x(s.drop_last())
    }
}

/// The least row of `s`, or `MIN_SENTINEL` where that is less.
pub open spec fn min_y<G>(s: Seq<Tile<G>>) -> u32
    decreases s.len(),
{
    if s.len() == 0 {
        MIN_SENTINEL
    } else if s.last().y < min_y(s.drop_last()) {
        s.last().y
    } else {
        min_y(s.drop_last())
    }
}

/// The greatest column of `s` (zero for none).
pub open spec fn max_x<G>(s: Seq<Tile<G>>) -> u32
    decreases s.len(),
{
    if s.len() == 0 {
        0
    } else if s.last().x > max_x(s.drop_last()) {
        s.last().x
    } else {
        max_x(s.drop_last())
    }
}

/// The greatest row of `s` (zero for none).
pub open spec fn max_y<G>(s: Seq<Tile<G>>) -> u32
    decreases s.len(),
{
    if s.len() == 0 {
        0
    } else if s.last().y > max_y(s.drop_last()) {
        s.last().y
    } else {
        max_y(s.drop_last())
    }
}

/// The grid bounds of `s` can be counted: the least column and row are not
/// above the greatest, and the grid is at most `u32::MAX` wide and high.
pub open spec fn finishable<G>(s: Seq<Tile<G>>) -> bool {
    &&& min_x(s) <= max_x(s)
    &&& min_y(s) <= max_y(s)
    &&& max_x(s) - min_x(s) < u32::MAX
    &&& max_y(s) - min_y(s) < u32::MAX
}

/// `coords` runs over the grid of `nx` columns from `x0` and `ny` rows from
/// `y0`, column by column.
pub open spec fn is_grid(coords: Seq<(u32, u32)>, x0: u32, y0: u32, nx: nat, ny: nat) -> bool {
    &&& coords.len() == nx * ny
    &&& forall|k: int|
        0 <= k < coords.len() ==> #[trigger] coords[k] == ((x0 + k / (ny as int)) as u32, (y0 + k % (
        ny as int)) as u32)
}

/// The (column, row) of each tile.
pub open spec fn coords_of<G>(s: Seq<Tile<G>>) -> Seq<(u32, u32)> {
    s.map_values(|t: Tile<G>| (t.x, t.y))
}

impl<G> Tile<G> {
    /// A tile with `layer_num` empty image slots.
    pub fn new(x: u32, y: u32, level: u32, geometry: G, layer_num: usize) -> (r: Self)
        ensures
            r.x == x,
            r.y == y,
            r.level == level,
            r.geometry == geometry,
            r.images@.len() == layer_num,
            forall|j: int| 0 <= j < layer_num ==> r.images@[j] is None,
    {
        let mut images: Vec<Option<Arc<RasterImage>>> = Vec::new();
        let mut j: usize = 0;
        while j < layer_num
            invariant
                j <= layer_num,
                images@.len() == j,
                forall|i: int| 0 <= i < j ==> images@[i] is None,
            decreases layer_num - j,
        {
            images.push(None);
            j += 1;
        }
        Tile { x, y, level, geometry, images }
    }
}

/// The least column, least row, greatest column and greatest row of the
/// tiles; the least are `MIN_SENTINEL` where no tile is below it.
pub fn find_value<G>(tiles: &Vec<Tile<G>>) -> (r: (u32, u32, u32, u32))
    ensures
        r == (min_x(tiles@), min_y(tiles@), max_x(tiles@), max_y(tiles@)),
{
    let mut minx: u32 = MIN_SENTINEL;
    let mut miny: u32 = MIN_SENTINEL;
    let mut maxx: u32 = 0;
    let mut maxy: u32 = 0;
    let mut i: usize = 0;
    while i < tiles.len()
        invariant
            i <= tiles.len(),
            minx == min_x(tiles@.take(i as int)),
            miny == min_y(tiles@.take(i as int)),
            maxx == max_x(tiles@.take(i as int)),
            maxy == max_y(tiles@.take(i as int)),
        decreases tiles.len() - i,
    {
        let tile = &tiles[i];
        proof {
            let s = tiles@.take(i as int + 1);
            assert(s.drop_last() =~= tiles@.take(i as int));
            assert(s.last() == tiles@[i as int]);
        }
        if tile.x > maxx {
            maxx = tile.x;
        }
        if tile.y > maxy {
            maxy = tile.y;
        }
        if tile.x < minx {
            minx = tile.x;
        }
        if tile.y < miny {
            miny = tile.y;
        }
        i += 1;
    }
    assert(tiles@.take(tiles.len() as int) =~= tiles@);
    (minx, miny, maxx, maxy)
}

/// The tiles of the grid from column `x0` to `x1` and row `y0` to `y1`
/// (both inclusive), column by column; none where `x1 < x0` or `y1 < y0`.
pub fn tile_coordinates(x0: u32, y0: u32, x1: u32, y1: u32) -> (r: Vec<(u32, u32)>)
    ensures
        x0 <= x1 && y0 <= y1 ==> is_grid(r@, x0, y0, (x1 - x0 + 1) as nat, (y1 - y0 + 1) as nat),
        !(x0 <= x1 && y0 <= y1) ==> r@.len() == 0,
{
    let mut out: Vec<(u32, u32)> = Vec::new();
    if x1 < x0 || y1 < y0 {
        return out;
    }
    let nx: u64 = (x1 - x0) as u64 + 1;
    let ny: u64 = (y1 - y0) as u64 + 1;
    let mut i: u64 = 0;
    while i < nx
        invariant
            nx == x1 - x0 + 1,
            ny == y1 - y0 + 1,
            x0 <= x1,
            y0 <= y1,
            i <= nx,
            out@.len() == i * ny,
            forall|k: int|
                0 <= k < out@.len() ==> #[trigger] out@[k] == ((x0 + k / (ny as int)) as u32, (y0 + k
                    % (ny as int)) as u32),
        decreases nx - i,
    {
        let mut j: u64 = 0;
        while j < ny
            invariant
                nx == x1 - x0 + 1,
                ny == y1 - y0 + 1,
                x0 <= x1,
                y0 <= y1,
                i < nx,
                j <= ny,
                out@.len() == i * ny + j,
                forall|k: int|
                    0 <= k < out@.len() ==> #[trigger] out@[k] == ((x0 + k / (ny as int)) as u32, (y0
                        + k % (ny as int)) as u32),
            decreases ny - j,
        {
            let ghost k = out@.len() as int;
            out.push((x0 + i as u32, y0 + j as u32));
            proof {
                vstd::arithmetic::div_mod::lemma_fundamental_div_mod_converse(
                    k,
                    ny as int,
                    i as int,
                    j as int,
                );
            }
            j += 1;
        }
        proof {
            vstd::arithmetic::mul::lemma_mul_is_distributive_add_other_way(
                ny as int,
                i as int,
                1,
            );
        }
        i += 1;
    }
    out
}

impl<G> Tiles<G> {
    /// No tiles yet, for `layer_num` layers at `level`.
    pub fn new(level: u32, layer_num: u32) -> (r: Self)
        ensures
            r.data@.len() == 0,
            r.level == level,
            r.layer_num == layer_num,
            r.minx == 0 && r.miny == 0 && r.maxx == 0 && r.maxy == 0,
            r.x_num == 0 && r.y_num == 0,
    {
        Tiles {
            data: Vec::new(),
            minx: 0,
            miny: 0,
            maxx: 0,
            maxy: 0,
            x_num: 0,
            y_num: 0,
            level,
            layer_num,
        }
    }

    /// Adds a tile at the end.
    pub fn push(&mut self, tile: Tile<G>)
        ensures
            final(self).data@ == old(self).data@.push(tile),
            final(self).minx == old(self).minx,
            final(self).miny == old(self).miny,
            final(self).maxx == old(self).maxx,
            final(self).maxy == old(self).maxy,
            final(self).x_num == old(self).x_num,
            final(self).y_num == old(self).y_num,
            final(self).level == old(self).level,
            final(self).layer_num == old(self).layer_num,
    {
        self.data.push(tile);
    }

    /// The number of tiles.
    pub fn len(&self) -> (r: usize)
        ensures
            r == self.data@.len(),
    {
        self.data.len()
    }

    /// Records the bounds of the grid once every tile is in.
    pub fn push_finish(&mut self)
        requires
            finishable(old(self).data@),
        ensures
            final(self).data@ == old(self).data@,
            final(self).level == old(self).level,
            final(self).layer_num == old(self).layer_num,
            final(self).minx == min_x(old(self).data@),
            final(self).miny == min_y(old(self).data@),
            final(self).maxx == max_x(old(self).data@),
            final(self).maxy == max_y(old(self).data@),
            final(self).x_num == max_x(old(self).data@) - min_x(old(self).data@) + 1,
            final(self).y_num == max_y(old(self).data@) - min_y(old(self).data@) + 1,
    {
        let (minx, miny, maxx, maxy) = find_value(&self.data);
        self.minx = minx;
        self.miny = miny;
        self.maxx = maxx;
        self.maxy = maxy;
        self.x_num = maxx - minx + 1;
        self.y_num = maxy - miny + 1;
    }

    /// Puts a fetched image into slot `layer_index` of tile `tile_index`.
    pub fn set_image(&mut self, tile_index: usize, layer_index: usize, img: Arc<RasterImage>)
        requires
            tile_index < old(self).data@.len(),
            layer_index < old(self).data@[tile_index as int].images@.len(),
        ensures
            final(self).data@.len() == old(self).data@.len(),
            forall|t: int|
                0 <= t < old(self).data@.len() && t != tile_index ==> #[trigger] final(self).data@[t]
                    == old(self).data@[t],
            final(self).data@[tile_index as int].x == old(self).data@[tile_index as int].x,
            final(self).data@[tile_index as int].y == old(self).data@[tile_index as int].y,
            final(self).data@[tile_index as int].level == old(self).data@[tile_index as int].level,
            final(self).data@[tile_index as int].geometry == old(
                self,
            ).data@[tile_index as int].geometry,
            final(self).data@[tile_index as int].images@ == old(
                self,
            ).data@[tile_index as int].images@.update(layer_index as int, Some(img)),
            final(self).minx == old(self).minx,
            final(self).miny == old(self).miny,
            final(self).maxx == old(self).maxx,
            final(self).maxy == old(self).maxy,
            final(self).x_num == old(self).x_num,
            final(self).y_num == old(self).y_num,
            final(self).level == old(self).level,
            final(self).layer_num == old(self).layer_num,
    {
        let tile = &mut self.data[tile_index];
        tile.images.set(layer_index, Some(img));
    }
}

} // verus!

verus! {

/// The bounds of the tiles have been recorded, as `push_finish` records them.
pub open spec fn bounds_recorded<G>(t: Tiles<G>) -> bool {
    &&& t.minx == min_x(t.data@)
    &&& t.miny == min_y(t.data@)
    &&& t.maxx == max_x(t.data@)
    &&& t.maxy == max_y(t.data@)
    &&& t.x_num == max_x(t.data@) - min_x(t.data@) + 1
    &&& t.y_num == max_y(t.data@) - min_y(t.data@) + 1
}

/// The least and greatest columns and rows bound every tile, and are taken by
/// some tile (the least unless it is `MIN_SENTINEL`, the greatest unless it is
/// zero).
pub proof fn lemma_extremes<G>(s: Seq<Tile<G>>)
    ensures
        min_x(s) <= MIN_SENTINEL,
        min_y(s) <= MIN_SENTINEL,
        forall|k: int|
            0 <= k < s.len() ==> min_x(s) <= #[trigger] s[k].x && s[k].x <= max_x(s) && min_y(s)
                <= s[k].y && s[k].y <= max_y(s),
        min_x(s) == MIN_SENTINEL || exists|k: int| 0 <= k < s.len() && #[trigger] s[k].x == min_x(s),
        min_y(s) == MIN_SENTINEL || exists|k: int| 0 <= k < s.len() && #[trigger] s[k].y == min_y(s),
        max_x(s) == 0 || exists|k: int| 0 <= k < s.len() && #[trigger] s[k].x == max_x(s),
        max_y(s) == 0 || exists|k: int| 0 <= k < s.len() && #[trigger] s[k].y == max_y(s),
    decreases s.len(),
{
    if s.len() > 0 {
        let d = s.drop_last();
        lemma_extremes(d);
        assert forall|k: int| 0 <= k < d.len() implies #[trigger] s[k] == d[k] by {}
        let n = s.len() - 1;
        assert(s[n] == s.last());
        if min_x(s) != MIN_SENTINEL && min_x(s) != s.last().x {
            let k = choose|k: int| 0 <= k < d.len() && #[trigger] d[k].x == min_x(d);
            assert(s[k].x == min_x(s));
        }
        if min_y(s) != MIN_SENTINEL && min_y(s) != s.last().y {
            let k = choose|k: int| 0 <= k < d.len() && #[trigger] d[k].y == min_y(d);
            assert(s[k].y == min_y(s));
        }
        if max_x(s) != 0 && max_x(s) != s.last().x {
            let k = choose|k: int| 0 <= k < d.len() && #[trigger] d[k].x == max_x(d);
            assert(s[k].x == max_x(s));
        }
        if max_y(s) != 0 && max_y(s) != s.last().y {
            let k = choose|k: int| 0 <= k < d.len() && #[trigger] d[k].y == max_y(d);
            assert(s[k].y == max_y(s));
        }
    }
}

/// Tiles pushed column by column over a grid whose first column and row are
/// at most `MIN_SENTINEL`, once their bounds are recorded, span exactly that
/// grid, and the tile of grid column `i` and row `j` stands at
/// `i * y_num + j`, at column `minx + i` and row `miny + j`.
pub proof fn lemma_grid_layout<G>(tiles: Tiles<G>, x0: u32, y0: u32, x1: u32, y1: u32)
    requires
        x0 <= x1,
        y0 <= y1,
        x0 <= MIN_SENTINEL,
        y0 <= MIN_SENTINEL,
        is_grid(coords_of(tiles.data@), x0, y0, (x1 - x0 + 1) as nat, (y1 - y0 + 1) as nat),
        bounds_recorded(tiles),
    ensures
        finishable(tiles.data@),
        tiles.minx == x0,
        tiles.miny == y0,
        tiles.maxx == x1,
        tiles.maxy == y1,
        tiles.x_num == x1 - x0 + 1,
        tiles.y_num == y1 - y0 + 1,
        tiles.data@.len() == tiles.x_num * tiles.y_num,
        forall|i: int, j: int|
            0 <= i < tiles.x_num && 0 <= j < tiles.y_num ==> {
                &&& #[trigger] tiles.data@[i * tiles.y_num + j].x == tiles.minx + i
                &&& tiles.data@[i * tiles.y_num + j].y == tiles.miny + j
            },
{
    let s = tiles.data@;
    let nx = (x1 - x0 + 1) as int;
    let ny = (y1 - y0 + 1) as int;
    lemma_extremes(s);
    let c = coords_of(s);
    assert(s.len() == nx * ny);
    assert forall|k: int| 0 <= k < s.len() implies x0 <= #[trigger] s[k].x <= x1 && y0 <= s[k].y
        <= y1 by {
        assert(c[k] == (s[k].x, s[k].y));
        vstd::arithmetic::div_mod::lemma_div_pos_is_pos(k, ny);
        vstd::arithmetic::div_mod::lemma_mod_bound(k, ny);
        vstd::arithmetic::div_mod::lemma_div_is_ordered(k, nx * ny - 1, ny);
        vstd::arithmetic::mul::lemma_mul_is_distributive_sub_other_way(ny, nx, 1);
        vstd::arithmetic::div_mod::lemma_fundamental_div_mod_converse(nx * ny - 1, ny, nx - 1, ny - 1);
    }
    assert(nx * ny >= 1) by (nonlinear_arith)
        requires
            nx >= 1,
            ny >= 1,
    ;
    vstd::arithmetic::div_mod::lemma_fundamental_div_mod_converse(0, ny, 0, 0);
    assert(c[0] == (s[0].x, s[0].y));
    assert(s[0].y == y0);
    let last = nx * ny - 1;
    vstd::arithmetic::mul::lemma_mul_is_distributive_sub_other_way(ny, nx, 1);
    vstd::arithmetic::div_mod::lemma_fundamental_div_mod_converse(last, ny, nx - 1, ny - 1);
    assert(c[last] == (s[last].x, s[last].y));
    assert(s[last].y == y1);
    assert(s[last].x == x1);
    assert(min_x(s) == x0);
    if min_y(s) != MIN_SENTINEL {
        let k = choose|k: int| 0 <= k < s.len() && #[trigger] s[k].y == min_y(s);
        assert(x0 <= s[k].x);
    }
    assert(min_y(s) == y0);
    assert(max_x(s) == x1);
    if max_y(s) != 0 {
        let k = choose|k: int| 0 <= k < s.len() && #[trigger] s[k].y == max_y(s);
        assert(x0 <= s[k].x);
    }
    assert(max_y(s) == y1);
    assert forall|i: int, j: int| 0 <= i < tiles.x_num && 0 <= j < tiles.y_num implies {
        &&& #[trigger] tiles.data@[i * tiles.y_num + j].x == tiles.minx + i
        &&& tiles.data@[i * tiles.y_num + j].y == tiles.miny + j
    } by {
        let k = i * ny + j;
        vstd::arithmetic::div_mod::lemma_fundamental_div_mod_converse(k, ny, i, j);
        assert(k < nx * ny) by (nonlinear_arith)
            requires
                k == i * ny + j,
                0 <= i < nx,
                0 <= j < ny,
        ;
        assert(c[k] == (s[k].x, s[k].y));
    }
}

} // verus!

verus! {

/// The one-line description of a set of tiles:
/// `Tiles = tile_num:N img_num:M size:WxH level:L leftTop:(X,Y) rightBottom:(X,Y)`,
/// where `M` is the number of tiles times the number of layers.
pub open spec fn tiles_description<G>(t: Tiles<G>) -> Seq<char> {
    "Tiles = tile_num:"@ + decimal(t.data@.len()) + " img_num:"@ + decimal(
        t.data@.len() * (t.layer_num as nat),
    ) + " size:"@ + decimal(t.x_num as nat) + "x"@ + decimal(t.y_num as nat) + " level:"@
        + decimal(t.level as nat) + " leftTop:("@ + decimal(t.minx as nat) + ","@ + decimal(
        t.miny as nat,
    ) + ") rightBottom:("@ + decimal(t.maxx as nat) + ","@ + decimal(t.maxy as nat) + ")"@
}

impl<G> Tiles<G> {
    /// The one-line description of the tiles, as they are logged.
    pub fn debug_string(&self) -> (r: String)
        requires
            self.data@.len() * self.layer_num <= usize::MAX,
        ensures
            r@ == tiles_description(*self),
    {
        let n = self.data.len();
        let mut out: Vec<char> = Vec::new();
        push_str(&mut out, "Tiles = tile_num:");
        push_decimal(&mut out, n as u64);
        push_str(&mut out, " img_num:");
        push_decimal(&mut out, (n * (self.layer_num as usize)) as u64);
        push_str(&mut out, " size:");
        push_decimal(&mut out, self.x_num as u64);
        push_str(&mut out, "x");
        push_decimal(&mut out, self.y_num as u64);
        push_str(&mut out, " level:");
        push_decimal(&mut out, self.level as u64);
        push_str(&mut out, " leftTop:(");
        push_decimal(&mut out, self.minx as u64);
        push_str(&mut out, ",");
        push_decimal(&mut out, self.miny as u64);
        push_str(&mut out, ") rightBottom:(");
        push_decimal(&mut out, self.maxx as u64);
        push_str(&mut out, ",");
        push_decimal(&mut out, self.maxy as u64);
        push_str(&mut out, ")");
        assert(out@ =~= tiles_description(*self));
        string_of(&out)
    }
}

} // verus!
