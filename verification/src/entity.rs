//! The `getMap` request: its parameters, its errors, and the decisions taken
//! between receiving it and answering it.
use crate::raster::{image_size, images_cover, mergeable, RasterImage};
use crate::tile::Tiles;
use crate::url_template::{is_request_url, is_valid_url_template, make_request_url, url_template_ok};
use std::sync::Arc;
use vstd::prelude::*;

verus! {

/// The side of a tile image, in pixels, where the request names none.
pub const DEFAULT_TILE_SIZE: u32 = 256;

/// The EPSG code of the geographic (longitude, latitude) tiling scheme.
pub const EPSG_GEOGRAPHIC: u32 = 4326;

/// Why a `getMap` request failed, as the user is told.
#[derive(Debug, Clone, Copy, PartialEq, Eq, Structural)]
pub enum GetMapUserError {
    InternalError,
    NotFound,
    ParamsError,
    FetchImageError,
}

/// Why a tile image could not be had.
#[derive(Debug, Clone, Copy, PartialEq, Eq, Structural)]
pub enum FetchImageError {
    NetError,
    LoadError,
}

} // verus!

verus! {

/// The tiling scheme a request's tiles follow.
#[derive(Debug, Clone, Copy, PartialEq, Eq, Structural)]
pub enum TilingSchemeKind {
    /// Longitude and latitude, two tiles wide at level 0 (EPSG:4326).
    Geographic,
    /// Web Mercator, one tile at level 0 (EPSG:3857).
    WebMercator,
}

/// The parameters of a `getMap` request: the EPSG code of the tiling
/// scheme, the highest level, the rectangle (`west,south,east,north` in
/// radians), the comma separated layer URL templates, and the shift from the
/// computed level to the level that is requested.
#[derive(Debug, Clone)]
pub struct GetMapParams {
    pub epsg: u32,
    pub max_level: u32,
    pub bbox: String,
    pub url: String,
    pub level_offset: i32,
}

impl GetMapUserError {
    /// The HTTP status code the error is answered with.
    pub fn status_code(&self) -> (r: u16)
        ensures
            r == match *self {
                GetMapUserError::InternalError => 500u16,
                _ => 404u16,
            },
    {
        match self {
            GetMapUserError::InternalError => 500,
            GetMapUserError::NotFound => 404,
            GetMapUserError::ParamsError => 404,
            GetMapUserError::FetchImageError => 404,
        }
    }

    /// The text the user is shown.
    pub fn message(&self) -> (r: String)
        ensures
            r@ == match *self {
                GetMapUserError::InternalError => "服务器内部错误，请稍后再试."@,
                GetMapUserError::NotFound => "没找到图片，请更换图层或区域."@,
                GetMapUserError::ParamsError => "参数错误，请修正参数."@,
                GetMapUserError::FetchImageError => "图片请求失败."@,
            },
    {
        match self {
            GetMapUserError::InternalError => String::from_str("服务器内部错误，请稍后再试."),
            GetMapUserError::NotFound => String::from_str("没找到图片，请更换图层或区域."),
            GetMapUserError::ParamsError => String::from_str("参数错误，请修正参数."),
            GetMapUserError::FetchImageError => String::from_str("图片请求失败."),
        }
    }
}

impl FetchImageError {
    /// The text the error is logged with.
    pub fn message(&self) -> (r: String)
        ensures
            r@ == match *self {
                FetchImageError::NetError => "网络错误,请检查网络!"@,
                FetchImageError::LoadError => "加载错误,请检查图片格式"@,
            },
    {
        match self {
            FetchImageError::NetError => String::from_str("网络错误,请检查网络!"),
            FetchImageError::LoadError => String::from_str("加载错误,请检查图片格式"),
        }
    }
}

/// The tiling scheme of an EPSG code: geographic for 4326, Web Mercator for
/// any other.
pub fn tiling_scheme_for(epsg: u32) -> (r: TilingSchemeKind)
    ensures
        r == if epsg == EPSG_GEOGRAPHIC {
            TilingSchemeKind::Geographic
        } else {
            TilingSchemeKind::WebMercator
        },
{
    if epsg == EPSG_GEOGRAPHIC {
        TilingSchemeKind::Geographic
    } else {
        TilingSchemeKind::WebMercator
    }
}

/// A level read as an `i32` (`level as i32`): levels above `i32::MAX` wrap
/// to negative values.
pub open spec fn level_as_i32(level: u32) -> int {
    if level <= i32::MAX {
        level as int
    } else {
        level as int - 0x1_0000_0000
    }
}

/// Shifting `level` by `offset` stays within `i32`.
pub open spec fn level_shift_ok(level: u32, offset: i32) -> bool {
    i32::MIN <= level_as_i32(level) + offset <= i32::MAX
}

/// The level that is requested for a tile of `level`:
/// `((level as i32) + offset) as u32`, a negative sum wrapping to the top of
/// the `u32` range.
pub open spec fn shifted_level(level: u32, offset: i32) -> u32 {
    let s = level_as_i32(level) + offset;
    if s >= 0 {
        s as u32
    } else {
        (s + 0x1_0000_0000) as u32
    }
}

/// A level can be shifted by any offset, of either sign, as long as the
/// `i32` sum of the level (read as `level as i32`) and the offset does not
/// overflow; the requested level is then that sum read back as a `u32`, that
/// is `level + offset` modulo 2^32.
pub proof fn lemma_level_shift(level: u32, offset: i32)
    ensures
        level <= i32::MAX ==> (level_shift_ok(level, offset) <==> level + offset <= i32::MAX),
        level > i32::MAX ==> (level_shift_ok(level, offset) <==> level + offset >= 0x8000_0000),
        level_shift_ok(level, offset) ==> shifted_level(level, offset) as int == (level + offset)
            % 0x1_0000_0000,
        level_shift_ok(level, offset) && 0 <= level + offset <= i32::MAX ==> shifted_level(
            level,
            offset,
        ) == level + offset,
{
}

/// The level that is requested for a tile of `level`, shifted by
/// `level_offset`.
pub fn request_level(level: u32, level_offset: i32) -> (r: u32)
    requires
        level_shift_ok(level, level_offset),
    ensures
        r == shifted_level(level, level_offset),
{
    let as_signed: i32 = if level <= 2147483647u32 {
        level as i32
    } else {
        ((level - 2147483648u32) as i32) - 2147483647i32 - 1i32
    };
    let s: i32 = as_signed + level_offset;
    if s >= 0 {
        s as u32
    } else {
        ((s + 2147483647i32 + 1i32) as u32) + 2147483648u32
    }
}

/// The tile size of a request, and whether it can go on: a request that
/// names no layer is a `ParamsError`; the tile size is the requested one, or
/// the configured default.
pub fn check_request(urls: &Vec<String>, tile_size: Option<u32>, default_tile_size: u32) -> (r: Result<
    u32,
    GetMapUserError,
>)
    ensures
        urls@.len() == 0 ==> r == Err::<u32, GetMapUserError>(GetMapUserError::ParamsError),
        urls@.len() > 0 ==> r == Ok::<u32, GetMapUserError>(
            match tile_size {
                Some(t) => t,
                None => default_tile_size,
            },
        ),
{
    if urls.len() == 0 {
        return Err(GetMapUserError::ParamsError);
    }
    match tile_size {
        Some(t) => Ok(t),
        None => Ok(default_tile_size),
    }
}

} // verus!

verus! {

/// One image to fetch: the layer `layer_index` of tile `tile_index`, at
/// `url`.
pub struct TileRequest {
    pub tile_index: usize,
    pub layer_index: usize,
    pub url: String,
}

/// The request URLs of every layer of every tile, tile by tile and, within a
/// tile, layer by layer: the request for layer `j` of tile `t` stands at
/// `t * urls.len() + j`, and its URL is one the layer's template gives for
/// the tile's column and row at the shifted level.
pub fn plan_tile_requests<G>(tiles: &Tiles<G>, urls: &Vec<String>, level_offset: i32) -> (r: Vec<
    TileRequest,
>)
    requires
        forall|j: int| 0 <= j < urls@.len() ==> url_template_ok(#[trigger] urls@[j]@),
        forall|t: int|
            0 <= t < tiles.data@.len() ==> level_shift_ok(
                #[trigger] tiles.data@[t].level,
                level_offset,
            ),
    ensures
        r@.len() == tiles.data@.len() * urls@.len(),
        forall|t: int, j: int|
            0 <= t < tiles.data@.len() && 0 <= j < urls@.len() ==> {
                let q = #[trigger] r@[t * urls@.len() + j];
                &&& q.tile_index == t
                &&& q.layer_index == j
                &&& is_request_url(
                    urls@[j]@,
                    tiles.data@[t].x,
                    tiles.data@[t].y,
                    shifted_level(tiles.data@[t].level, level_offset),
                    q.url@,
                )
            },
        forall|a: int, b: int|
            #![trigger r@[a], r@[b]]
            0 <= a < b < r@.len() ==> !(r@[a].tile_index == r@[b].tile_index && r@[a].layer_index
                == r@[b].layer_index),
{
    let n = urls.len();
    let mut out: Vec<TileRequest> = Vec::new();
    let mut t: usize = 0;
    while t < tiles.data.len()
        invariant
            n == urls@.len(),
            t <= tiles.data@.len(),
            forall|j: int| 0 <= j < urls@.len() ==> url_template_ok(#[trigger] urls@[j]@),
            forall|t: int|
                0 <= t < tiles.data@.len() ==> level_shift_ok(
                    #[trigger] tiles.data@[t].level,
                    level_offset,
                ),
            out@.len() == t * n,
            forall|a: int, j: int|
                0 <= a < t && 0 <= j < n ==> {
                    let q = #[trigger] out@[a * n + j];
                    &&& q.tile_index == a
                    &&& q.layer_index == j
                    &&& is_request_url(
                        urls@[j]@,
                        tiles.data@[a].x,
                        tiles.data@[a].y,
                        shifted_level(tiles.data@[a].level, level_offset),
                        q.url@,
                    )
                },
        decreases tiles.data@.len() - t,
    {
        let tile = &tiles.data[t];
        let level = request_level(tile.level, level_offset);
        let mut j: usize = 0;
        while j < n
            invariant
                n == urls@.len(),
                t < tiles.data@.len(),
                *tile == tiles.data@[t as int],
                level == shifted_level(tile.level, level_offset),
                j <= n,
                forall|j: int| 0 <= j < urls@.len() ==> url_template_ok(#[trigger] urls@[j]@),
                out@.len() == t * n + j,
                forall|a: int, k: int|
                    0 <= a <= t && 0 <= k < n && a * n + k < out@.len() ==> {
                        let q = #[trigger] out@[a * n + k];
                        &&& q.tile_index == a
                        &&& q.layer_index == k
                        &&& is_request_url(
                            urls@[k]@,
                            tiles.data@[a].x,
                            tiles.data@[a].y,
                            shifted_level(tiles.data@[a].level, level_offset),
                            q.url@,
                        )
                    },
            decreases n - j,
        {
            let url = make_request_url(&urls[j], tile.x, tile.y, level).unwrap();
            let ghost before = out@;
            out.push(TileRequest { tile_index: t, layer_index: j, url });
            proof {
                assert forall|a: int, k: int|
                    0 <= a <= t && 0 <= k < n && a * n + k < out@.len() implies {
                        let q = #[trigger] out@[a * n + k];
                        &&& q.tile_index == a
                        &&& q.layer_index == k
                        &&& is_request_url(
                            urls@[k]@,
                            tiles.data@[a].x,
                            tiles.data@[a].y,
                            shifted_level(tiles.data@[a].level, level_offset),
                            q.url@,
                        )
                    } by {
                    if a * n + k == t * n + j {
                        if a < t {
                            assert(a * n + k < t * n) by (nonlinear_arith)
                                requires
                                    a < t,
                                    0 <= k < n,
                            ;
                        } else {
                            assert(a == t);
                        }
                    } else {
                        assert(out@[a * n + k] == before[a * n + k]);
                    }
                }
            }
            j += 1;
        }
        proof {
            assert((t + 1) * n == t * n + n) by (nonlinear_arith);
            assert forall|a: int, k: int| 0 <= a < t + 1 && 0 <= k < n implies {
                let q = #[trigger] out@[a * n + k];
                &&& q.tile_index == a
                &&& q.layer_index == k
                &&& is_request_url(
                    urls@[k]@,
                    tiles.data@[a].x,
                    tiles.data@[a].y,
                    shifted_level(tiles.data@[a].level, level_offset),
                    q.url@,
                )
            } by {
                assert(a * n + k < (t + 1) * n) by (nonlinear_arith)
                    requires
                        a < t + 1,
                        0 <= k < n,
                ;
            }
        }
        t += 1;
    }
    proof {
        let nt = tiles.data@.len() as int;
        assert forall|a: int, b: int|
            #![trigger out@[a], out@[b]]
            0 <= a < b < out@.len() implies !(out@[a].tile_index == out@[b].tile_index
                && out@[a].layer_index == out@[b].layer_index) by {
            lemma_grid_index(a, nt, n as int);
            lemma_grid_index(b, nt, n as int);
            assert(out@[(a / n as int) * n + a % n as int] == out@[a]);
            assert(out@[(b / n as int) * n + b % n as int] == out@[b]);
        }
    }
    out
}

/// An index below `nt * n` is the index `t * n + j` of one (row `t`,
/// column `j`) of a grid of `nt` rows of `n`.
proof fn lemma_grid_index(k: int, nt: int, n: int)
    requires
        0 <= nt,
        0 <= k < nt * n,
    ensures
        n > 0,
        k == (k / n) * n + k % n,
        0 <= k / n < nt,
        0 <= k % n < n,
{
    if n <= 0 {
        assert(nt * n <= 0) by (nonlinear_arith)
            requires
                n <= 0,
                nt >= 0,
        ;
    }
    vstd::arithmetic::div_mod::lemma_fundamental_div_mod(k, n);
    vstd::arithmetic::div_mod::lemma_mod_bound(k, n);
    vstd::arithmetic::div_mod::lemma_div_pos_is_pos(k, n);
    vstd::arithmetic::mul::lemma_mul_is_commutative(k / n, n);
    assert(k / n < nt) by (nonlinear_arith)
        requires
            n > 0,
            k < nt * n,
            k == n * (k / n) + k % n,
            0 <= k % n,
    ;
}

} // verus!

verus! {

/// The image that the last of the `fetched` items naming layer `j` of tile
/// `t` brings, if any does.
pub open spec fn fetched_for(fetched: Seq<(usize, usize, Arc<RasterImage>)>, t: int, j: int) -> Option<
    Arc<RasterImage>,
>
    decreases fetched.len(),
{
    if fetched.len() == 0 {
        None
    } else if fetched.last().0 == t && fetched.last().1 == j {
        Some(fetched.last().2)
    } else {
        fetched_for(fetched.drop_last(), t, j)
    }
}

/// Every fetched item names an existing slot.
pub open spec fn fetched_fit<G>(tiles: Tiles<G>, fetched: Seq<(usize, usize, Arc<RasterImage>)>) -> bool {
    forall|k: int|
        0 <= k < fetched.len() ==> (#[trigger] fetched[k]).0 < tiles.data@.len() && fetched[k].1
            < tiles.data@[fetched[k].0 as int].images@.len()
}

/// Tiles that differ at most in what their image slots hold.
pub open spec fn same_but_images<G>(a: Tiles<G>, b: Tiles<G>) -> bool {
    &&& a.data@.len() == b.data@.len()
    &&& forall|t: int|
        0 <= t < a.data@.len() ==> {
            &&& (#[trigger] a.data@[t]).x == b.data@[t].x
            &&& a.data@[t].y == b.data@[t].y
            &&& a.data@[t].level == b.data@[t].level
            &&& a.data@[t].geometry == b.data@[t].geometry
            &&& a.data@[t].images@.len() == b.data@[t].images@.len()
        }
    &&& a.minx == b.minx && a.miny == b.miny && a.maxx == b.maxx && a.maxy == b.maxy
    &&& a.x_num == b.x_num && a.y_num == b.y_num
    &&& a.level == b.level && a.layer_num == b.layer_num
}

/// Puts each fetched image (tile index, layer index, image) into its slot, in
/// order; a slot named twice keeps the later image, a slot named by no item
/// keeps what it held.
pub fn store_fetched_images<G>(tiles: &mut Tiles<G>, fetched: Vec<(usize, usize, Arc<RasterImage>)>)
    requires
        fetched_fit(*old(tiles), fetched@),
    ensures
        same_but_images(*final(tiles), *old(tiles)),
        forall|t: int, j: int|
            0 <= t < old(tiles).data@.len() && 0 <= j < old(tiles).data@[t].images@.len()
                ==> #[trigger] final(tiles).data@[t].images@[j] == match fetched_for(fetched@, t, j) {
                Some(img) => Some(img),
                None => old(tiles).data@[t].images@[j],
            },
{
    let ghost all = fetched@;
    let ghost start = *tiles;
    for item in it: fetched.into_iter()
        invariant
            it.seq() == all,
            fetched_fit(start, all),
            same_but_images(*tiles, start),
            forall|t: int, j: int|
                0 <= t < start.data@.len() && 0 <= j < start.data@[t].images@.len() ==> #[trigger] tiles.data@[t].images@[j]
                    == match fetched_for(all.take(it.index() as int), t, j) {
                    Some(img) => Some(img),
                    None => start.data@[t].images@[j],
                },
    {
        let ghost k = it.index() as int;
        proof {
            assert(all[k] == item);
            assert(all.take(k + 1).drop_last() =~= all.take(k));
            assert(all.take(k + 1).last() == item);
        }
        tiles.set_image(item.0, item.1, item.2);
    }
    proof {
        assert(all.take(all.len() as int) =~= all);
    }
}

/// No two fetched items name the same slot.
pub open spec fn distinct_slots(fetched: Seq<(usize, usize, Arc<RasterImage>)>) -> bool {
    forall|a: int, b: int|
        #![trigger fetched[a], fetched[b]]
        0 <= a < b < fetched.len() ==> !(fetched[a].0 == fetched[b].0 && fetched[a].1
            == fetched[b].1)
}

/// Where no two items name the same slot, a slot gets the image of the one
/// item that names it, and keeps what it held where none does.
pub proof fn lemma_fetched_for_unique(fetched: Seq<(usize, usize, Arc<RasterImage>)>, t: int, j: int)
    requires
        distinct_slots(fetched),
    ensures
        fetched_for(fetched, t, j) is None <==> forall|k: int|
            0 <= k < fetched.len() ==> !((#[trigger] fetched[k]).0 == t && fetched[k].1 == j),
        forall|k: int|
            0 <= k < fetched.len() && (#[trigger] fetched[k]).0 == t && fetched[k].1 == j
                ==> fetched_for(fetched, t, j) == Some(fetched[k].2),
    decreases fetched.len(),
{
    if fetched.len() > 0 {
        let rest = fetched.drop_last();
        assert(distinct_slots(rest)) by {
            assert forall|a: int, b: int| 0 <= a < b < rest.len() implies !(rest[a].0 == rest[b].0
                && rest[a].1 == rest[b].1) by {
                assert(rest[a] == fetched[a] && rest[b] == fetched[b]);
            }
        }
        lemma_fetched_for_unique(rest, t, j);
        let n = fetched.len() - 1;
        assert forall|k: int| 0 <= k < n implies #[trigger] fetched[k] == rest[k] by {}
        if fetched.last().0 == t && fetched.last().1 == j {
            assert forall|k: int|
                0 <= k < fetched.len() && (#[trigger] fetched[k]).0 == t && fetched[k].1 == j
                    implies k == n by {
                if k < n {
                    assert(!(fetched[k].0 == fetched[n].0 && fetched[k].1 == fetched[n].1));
                }
            }
        }
    }
}

/// An item that stands at two positions is counted at least twice.
proof fn lemma_count_two<A>(s: Seq<A>, p: int, q: int)
    requires
        0 <= p < q < s.len(),
        s[p] == s[q],
    ensures
        s.to_multiset().count(s[p]) >= 2,
    decreases s.len(),
{
    broadcast use vstd::seq_lib::group_to_multiset_ensures;

    let rest = s.drop_last();
    assert(s =~= rest.push(s.last()));
    if q == s.len() - 1 {
        assert(rest[p] == s[p]);
        assert(rest.contains(s[p]));
    } else {
        assert(rest[p] == s[p] && rest[q] == s[q]);
        lemma_count_two(rest, p, q);
    }
}

/// Where no two items name the same slot, no item is counted twice.
proof fn lemma_count_at_most_one(s: Seq<(usize, usize, Arc<RasterImage>)>, x: (usize, usize, Arc<RasterImage>))
    requires
        distinct_slots(s),
    ensures
        s.to_multiset().count(x) <= 1,
    decreases s.len(),
{
    broadcast use vstd::seq_lib::group_to_multiset_ensures;

    if s.len() > 0 {
        let rest = s.drop_last();
        assert(s =~= rest.push(s.last()));
        assert(distinct_slots(rest)) by {
            assert forall|a: int, b: int| 0 <= a < b < rest.len() implies !(rest[a].0 == rest[b].0
                && rest[a].1 == rest[b].1) by {
                assert(rest[a] == s[a] && rest[b] == s[b]);
            }
        }
        lemma_count_at_most_one(rest, x);
        if s.last() == x && rest.contains(x) {
            let i = choose|i: int| 0 <= i < rest.len() && rest[i] == x;
            assert(s[i] == rest[i]);
            assert(!(s[i].0 == s[s.len() - 1].0 && s[i].1 == s[s.len() - 1].1));
        }
    }
}

/// The order in which the fetched images arrive does not matter: where no
/// two items name the same slot, any reordering of them fills every slot
/// alike.
pub proof fn lemma_fetch_order_irrelevant(
    a: Seq<(usize, usize, Arc<RasterImage>)>,
    b: Seq<(usize, usize, Arc<RasterImage>)>,
    t: int,
    j: int,
)
    requires
        distinct_slots(a),
        a.to_multiset() == b.to_multiset(),
    ensures
        distinct_slots(b),
        fetched_for(a, t, j) == fetched_for(b, t, j),
{
    broadcast use vstd::seq_lib::group_to_multiset_ensures;

    assert forall|x: (usize, usize, Arc<RasterImage>)| a.contains(x) <==> b.contains(x) by {
        vstd::seq_lib::to_multiset_contains(a, x);
        vstd::seq_lib::to_multiset_contains(b, x);
    }
    assert(distinct_slots(b)) by {
        assert forall|p: int, q: int| 0 <= p < q < b.len() implies !(b[p].0 == b[q].0 && b[p].1
            == b[q].1) by {
            if b[p].0 == b[q].0 && b[p].1 == b[q].1 {
                assert(b.contains(b[p]) && b.contains(b[q]));
                let pa = choose|i: int| 0 <= i < a.len() && a[i] == b[p];
                let qa = choose|i: int| 0 <= i < a.len() && a[i] == b[q];
                if pa == qa {
                    // the same item twice in `b` would be counted twice
                    assert(b[p] == b[q]);
                    lemma_count_two(b, p, q);
                    lemma_count_at_most_one(a, b[p]);
                } else if pa < qa {
                    assert(!(a[pa].0 == a[qa].0 && a[pa].1 == a[qa].1));
                } else {
                    assert(!(a[qa].0 == a[pa].0 && a[qa].1 == a[pa].1));
                }
            }
        }
    }
    lemma_fetched_for_unique(a, t, j);
    lemma_fetched_for_unique(b, t, j);
    if fetched_for(a, t, j) is Some {
        let k = choose|k: int| 0 <= k < a.len() && (#[trigger] a[k]).0 == t && a[k].1 == j;
        assert(a.contains(a[k]));
        let kb = choose|i: int| 0 <= i < b.len() && b[i] == a[k];
        assert(b[kb].0 == t && b[kb].1 == j);
    } else if fetched_for(b, t, j) is Some {
        let k = choose|k: int| 0 <= k < b.len() && (#[trigger] b[k]).0 == t && b[k].1 == j;
        assert(b.contains(b[k]));
        let ka = choose|i: int| 0 <= i < a.len() && a[i] == b[k];
        assert(a[ka].0 == t && a[ka].1 == j);
    }
}

/// Whether the tiles can be merged into one picture of `tile_size` pixels
/// per tile.
pub fn can_merge<G>(tiles: &Tiles<G>, tile_size: u32) -> (r: bool)
    ensures
        r == mergeable(*tiles, tile_size),
{
    proof {
        assert(tiles.x_num * tile_size <= 0xffff_ffff * 0xffff_ffff) by (nonlinear_arith);
        assert(tiles.y_num * tile_size <= 0xffff_ffff * 0xffff_ffff) by (nonlinear_arith);
        assert(tiles.x_num * tiles.y_num <= 0xffff_ffff * 0xffff_ffff) by (nonlinear_arith);
    }
    let w: u64 = (tiles.x_num as u64) * (tile_size as u64);
    let h: u64 = (tiles.y_num as u64) * (tile_size as u64);
    if w > 4294967295u64 || h > 4294967295u64 {
        return false;
    }
    proof {
        assert(4 * w * h <= 4 * 0xffff_ffff * 0xffff_ffff) by (nonlinear_arith)
            requires
                w <= 0xffff_ffff,
                h <= 0xffff_ffff,
        ;
    }
    let bytes: u128 = 4u128 * (w as u128) * (h as u128);
    if 4u128 * (w as u128) > usize::MAX as u128 || bytes > isize::MAX as u128 {
        return false;
    }
    let cells64: u64 = (tiles.x_num as u64) * (tiles.y_num as u64);
    if cells64 > 4294967296u64 {
        return false;
    }
    if (tiles.data.len() as u64) < cells64 {
        return false;
    }
    let cells: usize = cells64 as usize;
    let mut k: usize = 0;
    while k < cells
        invariant
            cells == tiles.x_num * tiles.y_num,
            cells <= tiles.data@.len(),
            k <= cells,
            forall|i: int| 0 <= i < k ==> images_cover(#[trigger] tiles.data@[i].images@, tile_size),
        decreases cells - k,
    {
        let images = &tiles.data[k].images;
        let mut l: usize = 0;
        while l < images.len()
            invariant
                k < cells,
                cells == tiles.x_num * tiles.y_num,
                cells <= tiles.data@.len(),
                *images == tiles.data@[k as int].images,
                l <= images@.len(),
                forall|m: int|
                    0 <= m < l ==> (#[trigger] images@[m] matches Some(img) ==> image_size(*img).0
                        >= tile_size && image_size(*img).1 >= tile_size),
            decreases images@.len() - l,
        {
            match &images[l] {
                Some(img) => {
                    let (iw, ih) = img.dimensions();
                    if iw < tile_size || ih < tile_size {
                        assert(!images_cover(tiles.data@[k as int].images@, tile_size));
                        return false;
                    }
                },
                None => {},
            }
            l += 1;
        }
        k += 1;
    }
    true
}

} // verus!

verus! {

/// Whether shifting `level` by `level_offset` stays within `i32`.
pub fn level_shift_fits(level: u32, level_offset: i32) -> (r: bool)
    ensures
        r == level_shift_ok(level, level_offset),
{
    let as_signed: i64 = if level <= 2147483647u32 {
        level as i64
    } else {
        (level as i64) - 4294967296i64
    };
    let s: i64 = as_signed + (level_offset as i64);
    -2147483648i64 <= s && s <= 2147483647i64
}

/// Whether the request URLs of the tiles can be planned: every layer
/// template can be turned into URLs, and every tile's level can be shifted.
pub fn can_plan<G>(tiles: &Tiles<G>, urls: &Vec<String>, level_offset: i32) -> (r: bool)
    ensures
        r == ((forall|j: int| 0 <= j < urls@.len() ==> url_template_ok(#[trigger] urls@[j]@))
            && (forall|t: int|
            0 <= t < tiles.data@.len() ==> level_shift_ok(
                #[trigger] tiles.data@[t].level,
                level_offset,
            ))),
{
    let mut j: usize = 0;
    while j < urls.len()
        invariant
            j <= urls@.len(),
            forall|i: int| 0 <= i < j ==> url_template_ok(#[trigger] urls@[i]@),
        decreases urls@.len() - j,
    {
        if !is_valid_url_template(&urls[j]) {
            return false;
        }
        j += 1;
    }
    let mut t: usize = 0;
    while t < tiles.data.len()
        invariant
            t <= tiles.data@.len(),
            forall|i: int| 0 <= i < urls@.len() ==> url_template_ok(#[trigger] urls@[i]@),
            forall|i: int|
                0 <= i < t ==> level_shift_ok(#[trigger] tiles.data@[i].level, level_offset),
        decreases tiles.data@.len() - t,
    {
        if !level_shift_fits(tiles.data[t].level, level_offset) {
            return false;
        }
        t += 1;
    }
    true
}

} // verus!
