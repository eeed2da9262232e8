use vstd::prelude::*;

use crate::region::ImageRegion;
use itertools::Itertools;

verus! {

/// The rows of `tile` that belong to image line `y` of a tile row of height `th`:
/// a tile of height `th` is `tile.len() / th` pixels wide.
pub open spec fn tile_line<T>(tile: Seq<T>, th: nat, y: nat) -> Seq<T> {
    let tw = tile.len() / th;
    tile.subrange((tw * y) as int, (tw * y + tw) as int)
}

/// Line `y` of every tile of `row`, one after another.
pub open spec fn row_line<T>(row: Seq<Seq<T>>, th: nat, y: nat) -> Seq<T>
    decreases row.len(),
{
    if row.len() == 0 {
        Seq::empty()
    } else {
        row_line(row.drop_last(), th, y) + tile_line(row.last(), th, y)
    }
}

/// The first `n` lines of a row of tiles of height `th`.
pub open spec fn row_lines<T>(row: Seq<Seq<T>>, th: nat, n: nat) -> Seq<T>
    decreases n,
{
    if n == 0 {
        Seq::empty()
    } else {
        row_lines(row, th, (n - 1) as nat) + row_line(row, th, (n - 1) as nat)
    }
}

/// The height of a row of tiles: the pixel count of its first tile divided by the
/// tile size, with the count taken as a `u32`.
pub open spec fn row_height<T>(row: Seq<Seq<T>>, tile_size: u32) -> nat {
    ((row[0].len() as u32) / tile_size) as nat
}

/// The image that rows of `num_tiles_hor` tiles form, rows from top to bottom.
pub open spec fn assembled<T>(tiles: Seq<Seq<T>>, num_tiles_hor: nat, tile_size: u32) -> Seq<T>
    decreases tiles.len(),
{
    if tiles.len() == 0 || num_tiles_hor == 0 {
        Seq::empty()
    } else {
        let k = if num_tiles_hor < tiles.len() { num_tiles_hor as int } else { tiles.len() as int };
        let row = tiles.take(k);
        row_lines(row, row_height(row, tile_size), row_height(row, tile_size))
            + assembled(tiles.skip(k), num_tiles_hor, tile_size)
    }
}

/// The views of a vector of pixel vectors.
pub open spec fn views<T>(tiles: Seq<Vec<T>>) -> Seq<Seq<T>> {
    tiles.map_values(|t: Vec<T>| t@)
}

/// Renders an image in square tiles of (at most) `tile_size` pixels per side.
pub struct TiledScheduler {
    tile_size: u32,
}

/// `v` clamped to `lo ..= hi`.
pub open spec fn clamp_int(v: int, lo: int, hi: int) -> int {
    if v < lo {
        lo
    } else if v > hi {
        hi
    } else {
        v
    }
}

/// `a / b` rounded up.
pub open spec fn ceil_div(a: int, b: int) -> int {
    (a + b - 1) / b
}

/// The tile size that fits an image: at least 1 and at most the smaller side.
pub open spec fn clamped_tile_size(tile_size: int, width: int, height: int) -> int {
    clamp_int(tile_size, 1, if height < width { height } else { width })
}

/// The tile size that fits an image is the requested size where a full tile of it
/// fits the image both ways, and otherwise the nearest size that does: 1 for a
/// request below 1, the smaller side for a request above it.
pub proof fn law_clamped_tile_size(tile_size: int, width: int, height: int)
    requires
        width >= 1,
        height >= 1,
    ensures
        1 <= clamped_tile_size(tile_size, width, height) <= width,
        clamped_tile_size(tile_size, width, height) <= height,
        1 <= tile_size <= width && tile_size <= height ==> clamped_tile_size(tile_size, width, height)
            == tile_size,
        tile_size < 1 ==> clamped_tile_size(tile_size, width, height) == 1,
        tile_size > width || tile_size > height ==> clamped_tile_size(tile_size, width, height) == (if width
            <= height {
            width
        } else {
            height
        }),
{
}

/// The tiles of an image, as a grid in row-major order: tile `k` is in tile row
/// `k / num_tiles_hor` and tile column `k % num_tiles_hor`; tiles at the right and
/// bottom edges are cut to fit the image.
pub open spec fn tile_region(k: int, num_tiles_hor: int, ts: int, width: int, height: int) -> (
    int,
    int,
    int,
    int,
) {
    let xi = k % num_tiles_hor;
    let yi = k / num_tiles_hor;
    let x0 = xi * ts;
    let y0 = yi * ts;
    let w = if width - x0 < ts { width - x0 } else { ts };
    let h = if height - y0 < ts { height - y0 } else { ts };
    (x0, x0 + w, y0, y0 + h)
}

/// How an image of a given size is cut into tiles.
pub struct TileLayout {
    /// The side of a full tile.
    pub tile_size: u32,
    /// The number of tiles in one row of tiles.
    pub num_tiles_hor: u32,
    /// The number of rows of tiles.
    pub num_tiles_ver: u32,
    /// The tiles, row by row, each row from left to right.
    pub tiles: Vec<ImageRegion>,
}

/// The tile grid `(row, column)` pairs in row-major order, collected from
/// `Itertools::cartesian_product` of `0..rows` and `0..cols`. Trusted: the contract
/// claims that the product yields `rows * cols` pairs, pair `k` being
/// `(k / cols, k % cols)`, which is the order in which itertools' `Product` walks
/// the inner range once for each item of the outer one.
#[verifier::external_body]
fn grid_pairs(rows: u32, cols: u32) -> (pairs: Vec<(u32, u32)>)
    requires
        rows * cols <= usize::MAX,
    ensures
        pairs@.len() == rows * cols,
        forall|k: int|
            0 <= k < pairs@.len() ==> #[trigger] pairs@[k] == ((k / cols as int) as u32, (k
                % cols as int) as u32),
{
    (0..rows).cartesian_product(0..cols).collect()
}

impl TiledScheduler {
    pub fn new(tile_size: u32) -> (r: Self)
        ensures
            r.tile_size() == tile_size,
    {
        TiledScheduler { tile_size }
    }

    pub closed spec fn tile_size(&self) -> u32 {
        self.tile_size
    }

    /// Cuts an image of the given size into tiles. The tile size is clamped to at
    /// least 1 and at most the smaller side of the image, so at least one tile fits
    /// entirely into the image.
    pub fn layout_tiles(&self, image_width: u32, image_height: u32) -> (r: TileLayout)
        requires
            image_width >= 1,
            image_height >= 1,
            image_width * image_height <= usize::MAX,
        ensures
            r.tile_size == clamped_tile_size(self.tile_size() as int, image_width as int, image_height as int),
            // A full tile fits the image both ways.
            1 <= r.tile_size <= image_width,
            r.tile_size <= image_height,
            // The tiles of a row (column) just cover the image's width (height).
            (r.num_tiles_hor - 1) * r.tile_size < image_width <= r.num_tiles_hor * r.tile_size,
            (r.num_tiles_ver - 1) * r.tile_size < image_height <= r.num_tiles_ver * r.tile_size,
            r.num_tiles_hor == ceil_div(image_width as int, r.tile_size as int),
            r.num_tiles_ver == ceil_div(image_height as int, r.tile_size as int),
            r.tiles@.len() == r.num_tiles_ver * r.num_tiles_hor,
            forall|k: int|
                0 <= k < r.tiles@.len() ==> {
                    let t = tile_region(k, r.num_tiles_hor as int, r.tile_size as int, image_width as int, image_height as int);
                    &&& (#[trigger] r.tiles@[k]).x.0 == t.0
                    &&& r.tiles@[k].x.1 == t.1
                    &&& r.tiles@[k].y.0 == t.2
                    &&& r.tiles@[k].y.1 == t.3
                },
    {
        let smaller = if image_height < image_width { image_height } else { image_width };
        let tile_size_clamped = if self.tile_size < 1 {
            1
        } else if self.tile_size > smaller {
            smaller
        } else {
            self.tile_size
        };
        proof {
            lemma_ceil_div(image_height as int, tile_size_clamped as int);
            lemma_ceil_div(image_width as int, tile_size_clamped as int);
        }
        let num_tiles_ver = if image_height % tile_size_clamped == 0 {
            image_height / tile_size_clamped
        } else {
            image_height / tile_size_clamped + 1
        };
        let num_tiles_hor = if image_width % tile_size_clamped == 0 {
            image_width / tile_size_clamped
        } else {
            image_width / tile_size_clamped + 1
        };
        proof {
            assert(num_tiles_ver * num_tiles_hor <= image_width * image_height) by (nonlinear_arith)
                requires
                    1 <= num_tiles_ver <= image_height,
                    1 <= num_tiles_hor <= image_width,
            ;
        }
        let pairs = grid_pairs(num_tiles_ver, num_tiles_hor);
        let mut tiles: Vec<ImageRegion> = Vec::new();
        let mut k: usize = 0;
        while k < pairs.len()
            invariant
                k <= pairs@.len(),
                pairs@.len() == num_tiles_ver * num_tiles_hor,
                tiles@.len() == k,
                1 <= tile_size_clamped <= image_width,
                tile_size_clamped <= image_height,
                num_tiles_hor == ceil_div(image_width as int, tile_size_clamped as int),
                num_tiles_ver == ceil_div(image_height as int, tile_size_clamped as int),
                (num_tiles_hor - 1) * tile_size_clamped < image_width,
                (num_tiles_ver - 1) * tile_size_clamped < image_height,
                num_tiles_hor >= 1,
                forall|k: int|
                    0 <= k < pairs@.len() ==> #[trigger] pairs@[k] == ((k / num_tiles_hor as int) as u32, (k
                        % num_tiles_hor as int) as u32),
                forall|j: int|
                    0 <= j < k ==> {
                        let t = tile_region(j, num_tiles_hor as int, tile_size_clamped as int, image_width as int, image_height as int);
                        &&& (#[trigger] tiles@[j]).x.0 == t.0
                        &&& tiles@[j].x.1 == t.1
                        &&& tiles@[j].y.0 == t.2
                        &&& tiles@[j].y.1 == t.3
                    },
            decreases pairs@.len() - k,
        {
            let (yi, xi) = pairs[k];
            proof {
                let ki = k as int;
                let nh = num_tiles_hor as int;
                assert(0 <= ki % nh < nh) by {
                    vstd::arithmetic::div_mod::lemma_mod_pos_bound(ki, nh);
                }
                assert(0 <= ki / nh < num_tiles_ver) by {
                    vstd::arithmetic::div_mod::lemma_div_pos_is_pos(ki, nh);
                    vstd::arithmetic::mul::lemma_mul_is_commutative(num_tiles_ver as int, nh);
                    vstd::arithmetic::div_mod::lemma_multiply_divide_lt(ki, nh, num_tiles_ver as int);
                }
                assert(xi * tile_size_clamped < image_width) by {
                    vstd::arithmetic::mul::lemma_mul_inequality(xi as int, nh - 1, tile_size_clamped as int);
                }
                assert(yi * tile_size_clamped < image_height) by {
                    vstd::arithmetic::mul::lemma_mul_inequality(yi as int, num_tiles_ver - 1, tile_size_clamped as int);
                }
            }
            let tile_x = xi * tile_size_clamped;
            let tile_y = yi * tile_size_clamped;
            let rest_w = image_width - tile_x;
            let rest_h = image_height - tile_y;
            let tile_width = if rest_w < tile_size_clamped { rest_w } else { tile_size_clamped };
            let tile_height = if rest_h < tile_size_clamped { rest_h } else { tile_size_clamped };
            tiles.push(ImageRegion::new(tile_x, tile_y, tile_width, tile_height));
            k += 1;
        }
        TileLayout { tile_size: tile_size_clamped, num_tiles_hor, num_tiles_ver, tiles }
    }
}

/// `a / b` rounded up equals the quotient, plus one when there is a remainder, and
/// the last multiple before it lies below `a`.
proof fn lemma_ceil_div(a: int, b: int)
    requires
        a >= 1,
        b >= 1,
    ensures
        ceil_div(a, b) == a / b + if a % b == 0 { 0int } else { 1int },
        1 <= ceil_div(a, b) <= a,
        (ceil_div(a, b) - 1) * b < a,
        a <= ceil_div(a, b) * b,
{
    vstd::arithmetic::div_mod::lemma_fundamental_div_mod(a, b);
    vstd::arithmetic::div_mod::lemma_mod_pos_bound(a, b);
    let q = a / b;
    let r = a % b;
    if r == 0 {
        assert(a == q * b) by (nonlinear_arith)
            requires
                a == b * q + r,
                r == 0,
        ;
        vstd::arithmetic::div_mod::lemma_fundamental_div_mod_converse(a + b - 1, b, q, b - 1);
        assert(q >= 1) by (nonlinear_arith)
            requires
                a == q * b,
                a >= 1,
                b >= 1,
        ;
        assert((q - 1) * b < a) by (nonlinear_arith)
            requires
                a == q * b,
                b >= 1,
        ;
        assert(q <= a) by (nonlinear_arith)
            requires
                a == q * b,
                b >= 1,
                q >= 1,
        ;
    } else {
        assert(a + b - 1 == (q + 1) * b + (r - 1)) by (nonlinear_arith)
            requires
                a == b * q + r,
        ;
        vstd::arithmetic::div_mod::lemma_fundamental_div_mod_converse(a + b - 1, b, q + 1, r - 1);
        assert(q * b < a) by (nonlinear_arith)
            requires
                a == b * q + r,
                r > 0,
        ;
        assert(a <= (q + 1) * b) by (nonlinear_arith)
            requires
                a == b * q + r,
                r < b,
        ;
        assert(q >= 0) by {
            vstd::arithmetic::div_mod::lemma_div_pos_is_pos(a, b);
        }
        assert(q + 1 <= a) by (nonlinear_arith)
            requires
                a == b * q + r,
                r > 0,
                q >= 0,
                b >= 1,
        ;
    }
}

/// `n / d * y + n / d <= n` for `y < d`: line `y` of a tile lies inside it.
proof fn lemma_line_in_tile(n: int, d: int, y: int)
    requires
        n >= 0,
        d >= 1,
        0 <= y < d,
    ensures
        0 <= (n / d) * y,
        (n / d) * y + n / d <= n,
{
    let w = n / d;
    vstd::arithmetic::div_mod::lemma_fundamental_div_mod(n, d);
    vstd::arithmetic::div_mod::lemma_div_pos_is_pos(n, d);
    vstd::arithmetic::div_mod::lemma_mod_pos_bound(n, d);
    assert(w * y + w <= n) by (nonlinear_arith)
        requires
            n == d * w + n % d,
            n % d >= 0,
            w >= 0,
            y + 1 <= d,
    ;
    assert(0 <= w * y) by (nonlinear_arith)
        requires
            w >= 0,
            y >= 0,
    ;
}

/// Appends line `y` of every tile in `tiles[start..end]` to `out`.
fn push_row_line<T: Copy>(out: &mut Vec<T>, tiles: &Vec<Vec<T>>, start: usize, end: usize, tile_height: u32, y: u32)
    requires
        start <= end <= tiles@.len(),
        y < tile_height,
    ensures
        final(out)@ == old(out)@ + row_line(views(tiles@).subrange(start as int, end as int), tile_height as nat, y as nat),
{
    let ghost row = views(tiles@).subrange(start as int, end as int);
    let ghost base = out@;
    let mut j = start;
    while j < end
        invariant
            start <= j <= end <= tiles@.len(),
            y < tile_height,
            row == views(tiles@).subrange(start as int, end as int),
            out@ == base + row_line(row.take(j - start), tile_height as nat, y as nat),
        decreases end - j,
    {
        let tile = &tiles[j];
        let tile_len = tile.len();
        let tile_width = tile_len / tile_height as usize;
        proof {
            lemma_line_in_tile(tile@.len() as int, tile_height as int, y as int);
        }
        let begin_idx = tile_width * y as usize;
        let ghost before = out@;
        let mut m: usize = 0;
        while m < tile_width
            invariant
                0 <= begin_idx + tile_width <= tile@.len(),
                tile_len == tile@.len(),
                m <= tile_width,
                out@ == before + tile@.subrange(begin_idx as int, begin_idx + m),
            decreases tile_width - m,
        {
            assert(begin_idx + m < tile@.len());
            out.push(tile[begin_idx + m]);
            assert(out@ =~= before + tile@.subrange(begin_idx as int, begin_idx + m + 1));
            m += 1;
        }
        proof {
            assert(row[j - start] == tile@);
            assert(row.take(j + 1 - start).drop_last() =~= row.take(j - start));
            assert(tile_line(tile@, tile_height as nat, y as nat) =~= tile@.subrange(begin_idx as int, begin_idx + tile_width));
        }
        assert(out@ =~= base + row_line(row.take(j + 1 - start), tile_height as nat, y as nat));
        j += 1;
    }
    assert(row.take(end - start) =~= row);
}

/// The pixels of one row of tiles, line by line: first line 0 of every tile, then
/// line 1 of every tile, and so on. A tile of the row is `len / tile_height` pixels
/// wide.
fn flatten_tilerow<T: Copy>(tiles: &Vec<Vec<T>>, start: usize, end: usize, tile_height: u32) -> (r: Vec<T>)
    requires
        start <= end <= tiles@.len(),
    ensures
        r@ == row_lines(views(tiles@).subrange(start as int, end as int), tile_height as nat, tile_height as nat),
{
    let ghost row = views(tiles@).subrange(start as int, end as int);
    let mut flattened_colors: Vec<T> = Vec::new();
    let mut y: u32 = 0;
    while y < tile_height
        invariant
            start <= end <= tiles@.len(),
            y <= tile_height,
            row == views(tiles@).subrange(start as int, end as int),
            flattened_colors@ == row_lines(row, tile_height as nat, y as nat),
        decreases tile_height - y,
    {
        push_row_line(&mut flattened_colors, tiles, start, end, tile_height, y);
        y += 1;
    }
    flattened_colors
}

/// Assembles rendered tiles, given row by row with `num_tiles_hor` tiles per row,
/// back into the full image. A row's height is the pixel count of its first tile
/// divided by `tile_size_clamped`.
pub fn assemble_tiles<T: Copy>(rendered_tiles: Vec<Vec<T>>, num_tiles_hor: usize, tile_size_clamped: u32) -> (r: Vec<T>)
    requires
        num_tiles_hor > 0,
        rendered_tiles@.len() > 0 ==> tile_size_clamped > 0,
    ensures
        r@ == assembled(views(rendered_tiles@), num_tiles_hor as nat, tile_size_clamped),
{
    let ghost all = views(rendered_tiles@);
    let mut image: Vec<T> = Vec::new();
    let mut start: usize = 0;
    let n = rendered_tiles.len();
    assert(all.skip(0) =~= all);
    while start < n
        invariant
            start <= n == rendered_tiles@.len(),
            num_tiles_hor > 0,
            n > 0 ==> tile_size_clamped > 0,
            all == views(rendered_tiles@),
            assembled(all, num_tiles_hor as nat, tile_size_clamped) == image@ + assembled(
                all.skip(start as int),
                num_tiles_hor as nat,
                tile_size_clamped,
            ),
        decreases n - start,
    {
        let end = if n - start > num_tiles_hor { start + num_tiles_hor } else { n };
        // The first tile in every row has full width, so its pixel count divided by
        // the tile size is the pixel height of the row.
        let tile_height = rendered_tiles[start].len() as u32 / tile_size_clamped;
        let mut row_pixels = flatten_tilerow(&rendered_tiles, start, end, tile_height);
        proof {
            let rest = all.skip(start as int);
            let k = end - start;
            assert(rest.take(k as int) =~= all.subrange(start as int, end as int));
            assert(rest.skip(k as int) =~= all.skip(end as int));
            assert(rest.take(k as int)[0] == rendered_tiles@[start as int]@);
            assert(row_height(rest.take(k as int), tile_size_clamped) == tile_height as nat);
            assert(assembled(rest, num_tiles_hor as nat, tile_size_clamped) == row_pixels@ + assembled(
                all.skip(end as int),
                num_tiles_hor as nat,
                tile_size_clamped,
            ));
        }
        image.append(&mut row_pixels);
        start = end;
    }
    assert(all.skip(n as int) =~= Seq::<Seq<T>>::empty());
    image
}

/// The pixels of the region `(x0, x1, y0, y1)` in row-major order, where the pixel
/// at column `x` and row `y` is `f(x, y)`.
pub open spec fn region_pixels<T>(reg: (int, int, int, int), f: spec_fn(int, int) -> T) -> Seq<T> {
    let w = reg.1 - reg.0;
    let h = reg.3 - reg.2;
    Seq::new((w * h) as nat, |i: int| f(reg.0 + i % w, reg.2 + i / w))
}

/// `n` full lines of an image of the given width, starting at line `y0`, in
/// row-major order.
pub open spec fn band<T>(width: int, y0: int, n: int, f: spec_fn(int, int) -> T) -> Seq<T> {
    Seq::new((n * width) as nat, |i: int| f(i % width, y0 + i / width))
}

/// The pixels of a whole image in row-major order.
pub open spec fn image_pixels<T>(width: int, height: int, f: spec_fn(int, int) -> T) -> Seq<T> {
    band(width, 0, height, f)
}

/// The tiles of an image laid out by `layout_tiles` with the clamped size `ts`, each
/// rendered in row-major order from the same pixel function `f`.
pub open spec fn tiles_rendered<T>(
    tiles: Seq<Seq<T>>,
    width: int,
    height: int,
    ts: int,
    f: spec_fn(int, int) -> T,
) -> bool {
    let nh = ceil_div(width, ts);
    let nv = ceil_div(height, ts);
    &&& 1 <= ts <= width
    &&& ts <= height
    &&& tiles.len() == nv * nh
    &&& forall|k: int|
        0 <= k < tiles.len() ==> #[trigger] tiles[k] == region_pixels(
            tile_region(k, nh, ts, width, height),
            f,
        )
}

/// The tile in tile row `r` and tile column `j` is tile number `r * nh + j`.
proof fn lemma_grid_index(r: int, j: int, nh: int)
    requires
        0 <= j < nh,
        0 <= r,
    ensures
        (r * nh + j) % nh == j,
        (r * nh + j) / nh == r,
        0 <= r * nh + j,
{
    vstd::arithmetic::div_mod::lemma_fundamental_div_mod_converse(r * nh + j, nh, r, j);
    assert(0 <= r * nh) by (nonlinear_arith)
        requires
            0 <= r,
            0 <= j < nh,
    ;
}

/// Line `y` of a tile rendered from `f` is the matching stretch of image line
/// `y0 + y`.
proof fn lemma_tile_line_of_region<T>(reg: (int, int, int, int), f: spec_fn(int, int) -> T, y: int)
    requires
        reg.1 - reg.0 >= 1,
        reg.3 - reg.2 >= 1,
        0 <= y < reg.3 - reg.2,
    ensures
        tile_line(region_pixels(reg, f), (reg.3 - reg.2) as nat, y as nat) =~= Seq::new(
            (reg.1 - reg.0) as nat,
            |i: int| f(reg.0 + i, reg.2 + y),
        ),
{
    let w = reg.1 - reg.0;
    let h = reg.3 - reg.2;
    let t = region_pixels(reg, f);
    assert(w * h >= 1) by (nonlinear_arith)
        requires
            w >= 1,
            h >= 1,
    ;
    assert(t.len() == w * h);
    vstd::arithmetic::div_mod::lemma_fundamental_div_mod_converse(w * h, h, w, 0);
    assert(t.len() as int / h == w);
    assert(w * y + w <= w * h) by (nonlinear_arith)
        requires
            w >= 1,
            0 <= y < h,
    ;
    assert(0 <= w * y) by (nonlinear_arith)
        requires
            w >= 1,
            0 <= y,
    ;
    assert forall|i: int| 0 <= i < w implies #[trigger] t[w * y + i] == f(reg.0 + i, reg.2 + y) by {
        assert(w * y == y * w) by (nonlinear_arith);
        vstd::arithmetic::div_mod::lemma_fundamental_div_mod_converse(w * y + i, w, y, i);
    }
    let line = tile_line(t, h as nat, y as nat);
    assert forall|i: int| 0 <= i < w implies #[trigger] line[i] == f(reg.0 + i, reg.2 + y) by {
        assert(line[i] == t[w * y + i]);
    }
}

/// Line `y` of the first `m` tiles of tile row `r` is the first `min(m * ts, width)`
/// pixels of image line `r * ts + y`.
proof fn lemma_row_line<T>(
    tiles: Seq<Seq<T>>,
    width: int,
    height: int,
    ts: int,
    f: spec_fn(int, int) -> T,
    r: int,
    y: int,
    m: int,
)
    requires
        tiles_rendered(tiles, width, height, ts, f),
        0 <= r < ceil_div(height, ts),
        0 <= y < (if height - r * ts < ts { height - r * ts } else { ts }),
        0 <= m <= ceil_div(width, ts),
    ensures
        ({
            let nh = ceil_div(width, ts);
            let row = tiles.subrange(r * nh, r * nh + nh);
            let th = if height - r * ts < ts { height - r * ts } else { ts };
            let xend = if m * ts < width { m * ts } else { width };
            row_line(row.take(m), th as nat, y as nat) =~= Seq::new(xend as nat, |x: int| f(x, r * ts + y))
        }),
    decreases m,
{
    let nh = ceil_div(width, ts);
    let nv = ceil_div(height, ts);
    lemma_ceil_div(width, ts);
    lemma_ceil_div(height, ts);
    let row = tiles.subrange(r * nh, r * nh + nh);
    let th = if height - r * ts < ts { height - r * ts } else { ts };
    assert(r * nh + nh <= nv * nh) by (nonlinear_arith)
        requires
            r + 1 <= nv,
            nh >= 1,
    ;
    assert(0 <= r * nh) by (nonlinear_arith)
        requires
            r >= 0,
            nh >= 1,
    ;
    if m == 0 {
        assert(0 * ts == 0);
        assert(row.take(0) =~= Seq::<Seq<T>>::empty());
        assert(row_line(row.take(0), th as nat, y as nat) =~= Seq::new(0, |x: int| f(x, r * ts + y)));
    } else {
        lemma_row_line(tiles, width, height, ts, f, r, y, m - 1);
        let j = m - 1;
        let k = r * nh + j;
        lemma_grid_index(r, j, nh);
        assert(row.take(m).drop_last() =~= row.take(m - 1));
        assert(row.take(m).last() == tiles[k]);
        let reg = tile_region(k, nh, ts, width, height);
        assert(j * ts < width) by (nonlinear_arith)
            requires
                j <= nh - 1,
                (nh - 1) * ts < width,
                ts >= 1,
        ;
        assert(r * ts < height) by (nonlinear_arith)
            requires
                r <= nv - 1,
                (nv - 1) * ts < height,
                ts >= 1,
        ;
        assert(reg.0 == j * ts);
        assert(reg.2 == r * ts);
        assert(reg.3 - reg.2 == th);
        lemma_tile_line_of_region(reg, f, y);
        let prev_end = if (m - 1) * ts < width { (m - 1) * ts } else { width };
        assert(prev_end == j * ts);
        assert(m * ts == j * ts + ts) by (nonlinear_arith)
            requires
                j == m - 1,
        ;
        let xend = if m * ts < width { m * ts } else { width };
        assert(xend == j * ts + (reg.1 - reg.0));
        let lhs = row_line(row.take(m), th as nat, y as nat);
        assert(lhs == row_line(row.take(m - 1), th as nat, y as nat) + tile_line(tiles[k], th as nat, y as nat));
        assert(lhs =~= Seq::new(xend as nat, |x: int| f(x, r * ts + y)));
    }
}

/// The first `n` lines of tile row `r` are `n` full image lines starting at line
/// `r * ts`.
proof fn lemma_row_lines<T>(
    tiles: Seq<Seq<T>>,
    width: int,
    height: int,
    ts: int,
    f: spec_fn(int, int) -> T,
    r: int,
    n: int,
)
    requires
        tiles_rendered(tiles, width, height, ts, f),
        0 <= r < ceil_div(height, ts),
        0 <= n <= (if height - r * ts < ts { height - r * ts } else { ts }),
    ensures
        ({
            let nh = ceil_div(width, ts);
            let row = tiles.subrange(r * nh, r * nh + nh);
            let th = if height - r * ts < ts { height - r * ts } else { ts };
            row_lines(row, th as nat, n as nat) =~= band(width, r * ts, n, f)
        }),
    decreases n,
{
    let nh = ceil_div(width, ts);
    let row = tiles.subrange(r * nh, r * nh + nh);
    let th = if height - r * ts < ts { height - r * ts } else { ts };
    lemma_ceil_div(width, ts);
    lemma_ceil_div(height, ts);
    assert(r * nh + nh <= ceil_div(height, ts) * nh) by (nonlinear_arith)
        requires
            r + 1 <= ceil_div(height, ts),
            nh >= 1,
    ;
    assert(0 <= r * nh) by (nonlinear_arith)
        requires
            r >= 0,
            nh >= 1,
    ;
    if n == 0 {
        assert(0 * width == 0);
        assert(row_lines(row, th as nat, 0) =~= band(width, r * ts, 0, f));
    } else {
        lemma_row_lines(tiles, width, height, ts, f, r, n - 1);
        lemma_row_line(tiles, width, height, ts, f, r, n - 1, nh);
        assert(row.take(nh) =~= row);
        assert(nh * ts >= width) by (nonlinear_arith)
            requires
                width <= nh * ts,
        ;
        let prev = band(width, r * ts, n - 1, f);
        let line = Seq::new(width as nat, |x: int| f(x, r * ts + (n - 1)));
        assert((n - 1) * width >= 0) by (nonlinear_arith)
            requires
                n >= 1,
                width >= 1,
        ;
        assert(n * width == (n - 1) * width + width) by (nonlinear_arith);
        let whole = band(width, r * ts, n, f);
        assert forall|i: int| 0 <= i < n * width implies #[trigger] whole[i] == (prev + line)[i] by {
            vstd::arithmetic::div_mod::lemma_fundamental_div_mod(i, width);
            vstd::arithmetic::div_mod::lemma_mod_pos_bound(i, width);
            if i < (n - 1) * width {
            } else {
                let x = i - (n - 1) * width;
                vstd::arithmetic::div_mod::lemma_fundamental_div_mod_converse(i, width, n - 1, x);
            }
        }
        assert(whole =~= prev + line);
        assert(row_lines(row, th as nat, n as nat) == prev + row_line(row, th as nat, (n - 1) as nat));
        assert(row_line(row, th as nat, (n - 1) as nat) == line);
    }
}

/// The pixel count of a full-width tile of height `th` fits a `u32`, so the
/// height that `assemble_tiles` derives from it is `th` again.
proof fn lemma_row_height_value(ts: int, th: int)
    requires
        1 <= th <= ts,
        ts * ts <= u32::MAX,
    ensures
        ts * th <= u32::MAX,
        ((ts * th) as u32) as int == ts * th,
        (((ts * th) as u32) / (ts as u32)) as int == th,
{
    assert(ts * th <= ts * ts) by (nonlinear_arith)
        requires
            1 <= th <= ts,
    ;
    assert(ts * th >= 0) by (nonlinear_arith)
        requires
            1 <= th <= ts,
    ;
    assert(th * ts == ts * th) by (nonlinear_arith);
    vstd::arithmetic::div_mod::lemma_fundamental_div_mod_converse(ts * th, ts, th, 0);
    assert(ts <= ts * ts) by (nonlinear_arith)
        requires
            ts >= 1,
    ;
    assert((ts as u32) as int == ts);
    assert(((ts * th) as u32) as int == ts * th);
}

/// From tile row `r` on, the assembled tiles are the image lines from `r * ts` to the
/// bottom.
proof fn lemma_assembled_from_row<T>(
    tiles: Seq<Seq<T>>,
    width: int,
    height: int,
    ts: int,
    f: spec_fn(int, int) -> T,
    r: int,
)
    requires
        tiles_rendered(tiles, width, height, ts, f),
        ts * ts <= u32::MAX,
        0 <= r < ceil_div(height, ts),
    ensures
        assembled(tiles.skip(r * ceil_div(width, ts)), ceil_div(width, ts) as nat, ts as u32)
            =~= band(width, r * ts, height - r * ts, f),
    decreases ceil_div(height, ts) - r,
{
    let nh = ceil_div(width, ts);
    let nv = ceil_div(height, ts);
    lemma_ceil_div(width, ts);
    lemma_ceil_div(height, ts);
    let th = if height - r * ts < ts { height - r * ts } else { ts };
    assert(r * ts < height) by (nonlinear_arith)
        requires
            r <= nv - 1,
            (nv - 1) * ts < height,
            ts >= 1,
    ;
    assert(r * nh + nh <= nv * nh) by (nonlinear_arith)
        requires
            r + 1 <= nv,
            nh >= 1,
    ;
    assert(0 <= r * nh) by (nonlinear_arith)
        requires
            r >= 0,
            nh >= 1,
    ;
    let rest = tiles.skip(r * nh);
    let row = tiles.subrange(r * nh, r * nh + nh);
    assert(rest.len() >= nh);
    assert(rest.take(nh) =~= row);
    // The first tile of the row has full width.
    lemma_grid_index(r, 0, nh);
    assert(row[0] == tiles[r * nh]);
    let reg = tile_region(r * nh, nh, ts, width, height);
    assert(0 * ts == 0);
    assert(reg.0 == 0);
    assert(reg.1 - reg.0 == ts);
    assert(reg.3 - reg.2 == th);
    assert(row[0].len() == ts * th);
    lemma_row_height_value(ts, th);
    assert(row_height(row, ts as u32) == th);
    lemma_row_lines(tiles, width, height, ts, f, r, th);
    assert(assembled(rest, nh as nat, ts as u32) == row_lines(row, th as nat, th as nat)
        + assembled(rest.skip(nh), nh as nat, ts as u32));
    assert(rest.skip(nh) =~= tiles.skip((r + 1) * nh)) by {
        assert((r + 1) * nh == r * nh + nh) by (nonlinear_arith);
    }
    if r + 1 == nv {
        assert(nv * nh == tiles.len());
        assert((r + 1) * nh == tiles.len());
        assert(tiles.skip((r + 1) * nh) =~= Seq::<Seq<T>>::empty());
        assert(height - r * ts <= ts) by (nonlinear_arith)
            requires
                height <= nv * ts,
                r == nv - 1,
        ;
        assert(th == height - r * ts);
    } else {
        assert((r + 1) * ts < height) by (nonlinear_arith)
            requires
                r + 1 <= nv - 1,
                (nv - 1) * ts < height,
                ts >= 1,
        ;
        assert(th == ts) by (nonlinear_arith)
            requires
                (r + 1) * ts < height,
                th == (if height - r * ts < ts { height - r * ts } else { ts }),
        ;
        lemma_assembled_from_row(tiles, width, height, ts, f, r + 1);
        let top = band(width, r * ts, ts, f);
        let bottom = band(width, (r + 1) * ts, height - (r + 1) * ts, f);
        let whole = band(width, r * ts, height - r * ts, f);
        assert(ts * width >= 0) by (nonlinear_arith)
            requires
                ts >= 1,
                width >= 1,
        ;
        assert((height - r * ts) * width == ts * width + (height - (r + 1) * ts) * width)
            by (nonlinear_arith);
        assert((height - (r + 1) * ts) * width >= 0) by (nonlinear_arith)
            requires
                (r + 1) * ts < height,
                width >= 1,
        ;
        assert forall|i: int| 0 <= i < whole.len() implies #[trigger] whole[i] == (top + bottom)[i] by {
            vstd::arithmetic::div_mod::lemma_fundamental_div_mod(i, width);
            vstd::arithmetic::div_mod::lemma_mod_pos_bound(i, width);
            if i >= ts * width {
                let q = i / width;
                let x = i % width;
                assert(i - ts * width == (q - ts) * width + x) by (nonlinear_arith)
                    requires
                        i == width * q + x,
                ;
                vstd::arithmetic::div_mod::lemma_fundamental_div_mod_converse(i - ts * width, width, q - ts, x);
                assert((r + 1) * ts + (q - ts) == r * ts + q) by (nonlinear_arith);
            }
        }
        assert(whole =~= top + bottom);
    }
}

/// Tiles laid out by `layout_tiles` and each rendered in row-major order from the
/// same pixel function are reassembled by `assemble_tiles` into the whole image in
/// row-major order. (A full tile's pixel count must fit a `u32`, which
/// `assemble_tiles` takes it as.)
pub proof fn law_assembly_restores_image<T>(
    tiles: Seq<Seq<T>>,
    width: int,
    height: int,
    ts: int,
    f: spec_fn(int, int) -> T,
)
    requires
        tiles_rendered(tiles, width, height, ts, f),
        ts * ts <= u32::MAX,
    ensures
        assembled(tiles, ceil_div(width, ts) as nat, ts as u32) == image_pixels(width, height, f),
{
    lemma_ceil_div(height, ts);
    lemma_assembled_from_row(tiles, width, height, ts, f, 0);
    assert(tiles.skip(0) =~= tiles);
    assert(band(width, 0 * ts, height - 0 * ts, f) =~= image_pixels(width, height, f));
}

/// The number of the tile that holds pixel `(x, y)`: tile row `y / ts`, tile column
/// `x / ts`.
pub open spec fn tile_index_of(x: int, y: int, ts: int, num_tiles_hor: int) -> int {
    (y / ts) * num_tiles_hor + x / ts
}

/// The pixel at column `x` and row `y` lies in the region `(x0, x1, y0, y1)`.
pub open spec fn region_contains(reg: (int, int, int, int), x: int, y: int) -> bool {
    reg.0 <= x < reg.1 && reg.2 <= y < reg.3
}

/// The tiles that `layout_tiles` makes partition the image: every tile is a
/// non-empty part of the image, and every pixel `(x, y)` lies in exactly one tile,
/// the one in tile row `y / ts` and tile column `x / ts`.
pub proof fn law_tiles_partition_image(width: int, height: int, ts: int)
    requires
        1 <= ts <= width,
        ts <= height,
    ensures
        forall|k: int|
            0 <= k < ceil_div(height, ts) * ceil_div(width, ts) ==> {
                let t = #[trigger] tile_region(k, ceil_div(width, ts), ts, width, height);
                0 <= t.0 < t.1 <= width && 0 <= t.2 < t.3 <= height
            },
        forall|x: int, y: int|
            0 <= x < width && 0 <= y < height ==> {
                &&& 0 <= #[trigger] tile_index_of(x, y, ts, ceil_div(width, ts)) < ceil_div(height, ts)
                    * ceil_div(width, ts)
                &&& region_contains(
                    tile_region(tile_index_of(x, y, ts, ceil_div(width, ts)), ceil_div(width, ts), ts, width, height),
                    x,
                    y,
                )
            },
        forall|k: int, x: int, y: int|
            0 <= k < ceil_div(height, ts) * ceil_div(width, ts) && #[trigger] region_contains(
                tile_region(k, ceil_div(width, ts), ts, width, height),
                x,
                y,
            ) ==> k == tile_index_of(x, y, ts, ceil_div(width, ts)),
{
    let nh = ceil_div(width, ts);
    let nv = ceil_div(height, ts);
    lemma_ceil_div(width, ts);
    lemma_ceil_div(height, ts);
    assert forall|k: int| 0 <= k < nv * nh implies {
        let t = #[trigger] tile_region(k, nh, ts, width, height);
        0 <= t.0 < t.1 <= width && 0 <= t.2 < t.3 <= height
    } by {
        vstd::arithmetic::div_mod::lemma_mod_pos_bound(k, nh);
        vstd::arithmetic::div_mod::lemma_div_pos_is_pos(k, nh);
        vstd::arithmetic::mul::lemma_mul_is_commutative(nv, nh);
        vstd::arithmetic::div_mod::lemma_multiply_divide_lt(k, nh, nv);
        let xi = k % nh;
        let yi = k / nh;
        assert(0 <= xi * ts < width) by (nonlinear_arith)
            requires
                0 <= xi <= nh - 1,
                (nh - 1) * ts < width,
                ts >= 1,
        ;
        assert(0 <= yi * ts < height) by (nonlinear_arith)
            requires
                0 <= yi <= nv - 1,
                (nv - 1) * ts < height,
                ts >= 1,
        ;
    }
    assert forall|x: int, y: int| 0 <= x < width && 0 <= y < height implies {
        &&& 0 <= #[trigger] tile_index_of(x, y, ts, nh) < nv * nh
        &&& region_contains(tile_region(tile_index_of(x, y, ts, nh), nh, ts, width, height), x, y)
    } by {
        let xi = x / ts;
        let yi = y / ts;
        vstd::arithmetic::div_mod::lemma_fundamental_div_mod(x, ts);
        vstd::arithmetic::div_mod::lemma_mod_pos_bound(x, ts);
        vstd::arithmetic::div_mod::lemma_fundamental_div_mod(y, ts);
        vstd::arithmetic::div_mod::lemma_mod_pos_bound(y, ts);
        vstd::arithmetic::div_mod::lemma_div_pos_is_pos(x, ts);
        vstd::arithmetic::div_mod::lemma_div_pos_is_pos(y, ts);
        assert(xi < nh) by (nonlinear_arith)
            requires
                x == ts * xi + x % ts,
                0 <= x % ts,
                x < width,
                width <= nh * ts,
                ts >= 1,
        ;
        assert(yi < nv) by (nonlinear_arith)
            requires
                y == ts * yi + y % ts,
                0 <= y % ts,
                y < height,
                height <= nv * ts,
                ts >= 1,
        ;
        lemma_grid_index(yi, xi, nh);
        let k = yi * nh + xi;
        assert(k < nv * nh) by (nonlinear_arith)
            requires
                k == yi * nh + xi,
                yi + 1 <= nv,
                0 <= yi,
                0 <= xi < nh,
        ;
        assert(xi * ts <= x < xi * ts + ts) by (nonlinear_arith)
            requires
                x == ts * xi + x % ts,
                0 <= x % ts < ts,
        ;
        assert(yi * ts <= y < yi * ts + ts) by (nonlinear_arith)
            requires
                y == ts * yi + y % ts,
                0 <= y % ts < ts,
        ;
    }
    assert forall|k: int, x: int, y: int|
        0 <= k < nv * nh && #[trigger] region_contains(tile_region(k, nh, ts, width, height), x, y)
    implies k == tile_index_of(x, y, ts, nh) by {
        vstd::arithmetic::div_mod::lemma_fundamental_div_mod(k, nh);
        vstd::arithmetic::div_mod::lemma_mod_pos_bound(k, nh);
        vstd::arithmetic::div_mod::lemma_div_pos_is_pos(k, nh);
        let xi = k % nh;
        let yi = k / nh;
        let t = tile_region(k, nh, ts, width, height);
        assert(xi * ts <= x < xi * ts + ts);
        assert(yi * ts <= y < yi * ts + ts);
        assert(x == xi * ts + (x - xi * ts));
        vstd::arithmetic::div_mod::lemma_fundamental_div_mod_converse(x, ts, xi, x - xi * ts);
        vstd::arithmetic::div_mod::lemma_fundamental_div_mod_converse(y, ts, yi, y - yi * ts);
        assert(k == yi * nh + xi) by (nonlinear_arith)
            requires
                k == nh * yi + xi,
        ;
    }
}

} // verus!
