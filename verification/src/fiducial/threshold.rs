//! Adaptive thresholding: the first stage of the detector.
//!
//! The image is cut into small square tiles. A pixel is compared with the
//! midpoint of the darkest and the brightest pixel of the three-by-three tiles
//! around its own, so the threshold follows the local illumination. A
//! neighbourhood without contrast is marked [`SKIP`] and takes no part in what
//! follows.

use vstd::prelude::*;

use crate::raster::{lemma_coordinates, lemma_linear_index, linear_index, GrayImage, Raster};

verus! {

/// Pixel binarised as dark.
pub const BLACK: u8 = 0;

/// Pixel binarised as light.
pub const WHITE: u8 = 255;

/// Pixel in a region with too little local contrast to binarise.
pub const SKIP: u8 = 127;

/// A binarised image: every pixel is [`BLACK`], [`WHITE`] or [`SKIP`].
#[derive(Debug, Clone)]
pub struct Binary {
    width: u32,
    height: u32,
    data: Vec<u8>,
}

/// The three labels.
pub open spec fn is_label(v: u8) -> bool {
    v == BLACK || v == WHITE || v == SKIP
}

impl View for Binary {
    type V = Raster;

    closed spec fn view(&self) -> Raster {
        Raster { width: self.width as nat, height: self.height as nat, data: self.data@ }
    }
}

impl Binary {
    /// One label per pixel, and no other byte.
    pub open spec fn wf(&self) -> bool {
        &&& self@.wf()
        &&& self@.width <= u32::MAX
        &&& self@.height <= u32::MAX
        &&& forall|i: int| 0 <= i < self@.data.len() ==> is_label(#[trigger] self@.data[i])
    }

    /// The label at `(x, y)`: [`SKIP`] outside the image.
    pub open spec fn label(&self, x: int, y: int) -> u8 {
        if self@.holds(x, y) {
            self@.at(x, y)
        } else {
            SKIP
        }
    }

    /// Image width.
    pub fn width(&self) -> (width: u32)
        ensures
            width == self@.width,
    {
        self.width
    }

    /// Image height.
    pub fn height(&self) -> (height: u32)
        ensures
            height == self@.height,
    {
        self.height
    }

    /// Row-major labels.
    pub fn data(&self) -> (data: &[u8])
        ensures
            data@ == self@.data,
    {
        self.data.as_slice()
    }

    /// Label at `(x, y)`; [`SKIP`] outside the image.
    pub fn at(&self, x: u32, y: u32) -> (v: u8)
        requires
            self.wf(),
        ensures
            v == self.label(x as int, y as int),
            is_label(v),
    {
        if x >= self.width || y >= self.height {
            SKIP
        } else {
            let i: usize = linear_index(x, y, self.width, Ghost(self@.height), self.data.len());
            assert(is_label(self@.data[i as int]));
            self.data[i]
        }
    }
}

/// Number of tiles of edge `tile` that cover `n` pixels, `n` positive.
pub open spec fn tile_count(n: int, tile: int) -> int {
    (n - 1) / tile + 1
}

/// First of the tiles that threshold tile `t` of `n`.
///
/// The window is three tiles wide and is shifted inward at the border; an axis
/// of fewer than three tiles is used whole.
pub open spec fn window_start(t: int, n: int) -> int {
    let last = if n >= 3 {
        n - 3
    } else {
        0
    };
    let centred = if t >= 1 {
        t - 1
    } else {
        0
    };
    if centred < last {
        centred
    } else {
        last
    }
}

/// Whether tile `s` is in the window of tile `t`, on an axis of `n` tiles.
pub open spec fn in_window(s: int, t: int, n: int) -> bool {
    window_start(t, n) <= s < window_start(t, n) + 3 && s < n
}

/// Whether pixel `(px, py)` is among those that threshold tile `(tx, ty)`.
pub open spec fn in_support(image: Raster, tile: int, tx: int, ty: int, px: int, py: int) -> bool {
    &&& image.holds(px, py)
    &&& in_window(px / tile, tx, tile_count(image.width as int, tile))
    &&& in_window(py / tile, ty, tile_count(image.height as int, tile))
}

/// `lo` is the darkest value in the support of tile `(tx, ty)`.
pub open spec fn is_darkest(image: Raster, tile: int, tx: int, ty: int, lo: u8) -> bool {
    &&& forall|px: int, py: int|
        #![trigger image.at(px, py)]
        in_support(image, tile, tx, ty, px, py) ==> lo <= image.at(px, py)
    &&& exists|px: int, py: int|
        #![trigger image.at(px, py)]
        in_support(image, tile, tx, ty, px, py) && image.at(px, py) == lo
}

/// `hi` is the brightest value in the support of tile `(tx, ty)`.
pub open spec fn is_brightest(image: Raster, tile: int, tx: int, ty: int, hi: u8) -> bool {
    &&& forall|px: int, py: int|
        #![trigger image.at(px, py)]
        in_support(image, tile, tx, ty, px, py) ==> image.at(px, py) <= hi
    &&& exists|px: int, py: int|
        #![trigger image.at(px, py)]
        in_support(image, tile, tx, ty, px, py) && image.at(px, py) == hi
}

/// The label of value `v` in a neighbourhood that spans `lo` to `hi`.
pub open spec fn label_between(lo: u8, hi: u8, v: u8, min_contrast: u8) -> u8 {
    if hi - lo < min_contrast {
        SKIP
    } else if v > (lo + hi) / 2 {
        WHITE
    } else {
        BLACK
    }
}

/// Whether an image is too small to hold any contrast: a single pixel.
pub open spec fn is_degenerate(image: Raster) -> bool {
    image.width == 1 && image.height == 1
}

/// `label` is what the adaptive threshold gives pixel `(x, y)`: [`SKIP`] in a
/// degenerate image, whatever contrast is asked for.
pub open spec fn is_thresholded(
    image: Raster,
    tile: int,
    min_contrast: u8,
    x: int,
    y: int,
    label: u8,
) -> bool {
    if is_degenerate(image) {
        label == SKIP
    } else {
        is_split(image, tile, min_contrast, x, y, label)
    }
}

/// `label` is what the range of its neighbourhood gives pixel `(x, y)`.
pub open spec fn is_split(
    image: Raster,
    tile: int,
    min_contrast: u8,
    x: int,
    y: int,
    label: u8,
) -> bool {
    exists|lo: u8, hi: u8|
        #![trigger label_between(lo, hi, image.at(x, y), min_contrast)]
        is_darkest(image, tile, x / tile, y / tile, lo) && is_brightest(
            image,
            tile,
            x / tile,
            y / tile,
            hi,
        ) && label == label_between(lo, hi, image.at(x, y), min_contrast)
}

/// The tile edge that is used: at least one pixel.
pub open spec fn tile_edge(tile: u32) -> int {
    if tile == 0 {
        1
    } else {
        tile as int
    }
}

/// The label the adaptive threshold gives pixel `(x, y)`.
pub open spec fn threshold_label(image: Raster, tile: int, min_contrast: u8, x: int, y: int) -> u8 {
    choose|label: u8| is_thresholded(image, tile, min_contrast, x, y, label)
}

/// The binary image the adaptive threshold makes of `image`.
pub open spec fn binarised(image: Raster, tile: u32, min_contrast: u8) -> Raster {
    Raster {
        width: image.width,
        height: image.height,
        data: Seq::new(
            image.data.len(),
            |i: int|
                threshold_label(
                    image,
                    tile_edge(tile),
                    min_contrast,
                    i % image.width as int,
                    i / image.width as int,
                ),
        ),
    }
}

/// Whether pixel `(px, py)` lies in tile `(tx, ty)`.
spec fn in_tile(image: Raster, tile: int, tx: int, ty: int, px: int, py: int) -> bool {
    image.holds(px, py) && px / tile == tx && py / tile == ty
}

/// `lo` and `hi` are the extreme values of tile `(tx, ty)`.
spec fn is_tile_range(image: Raster, tile: int, tx: int, ty: int, lo: u8, hi: u8) -> bool {
    &&& forall|px: int, py: int|
        #![trigger image.at(px, py)]
        in_tile(image, tile, tx, ty, px, py) ==> lo <= image.at(px, py) <= hi
    &&& exists|px: int, py: int|
        #![trigger image.at(px, py)]
        in_tile(image, tile, tx, ty, px, py) && image.at(px, py) == lo
    &&& exists|px: int, py: int|
        #![trigger image.at(px, py)]
        in_tile(image, tile, tx, ty, px, py) && image.at(px, py) == hi
}

/// The pixels of tile `t` are `tile` consecutive ones.
proof fn lemma_tile_span(p: int, t: int, tile: int)
    requires
        0 <= p,
        0 <= t,
        1 <= tile,
    ensures
        p / tile == t <==> t * tile <= p < t * tile + tile,
{
    vstd::arithmetic::div_mod::lemma_fundamental_div_mod(p, tile);
    let q = p / tile;
    let r = p % tile;
    assert(p == tile * q + r);
    assert(0 <= r < tile);
    if t * tile <= p < t * tile + tile {
        assert(q == t) by (nonlinear_arith)
            requires
                p == tile * q + r,
                0 <= r < tile,
                t * tile <= p < t * tile + tile,
                1 <= tile,
        ;
    }
    if q == t {
        assert(t * tile <= p < t * tile + tile) by (nonlinear_arith)
            requires
                p == tile * t + r,
                0 <= r < tile,
        ;
    }
}

/// A pixel's tile is counted, and a counted tile has a first pixel.
proof fn lemma_tile_count(p: int, t: int, n: int, tile: int)
    requires
        1 <= n,
        1 <= tile,
    ensures
        0 <= p < n ==> 0 <= p / tile < tile_count(n, tile),
        0 <= t < tile_count(n, tile) ==> 0 <= t * tile < n,
        1 <= tile_count(n, tile) <= n,
{
    vstd::arithmetic::div_mod::lemma_fundamental_div_mod(n - 1, tile);
    let q = (n - 1) / tile;
    assert(0 <= q <= n - 1) by {
        vstd::arithmetic::div_mod::lemma_div_pos_is_pos(n - 1, tile);
        vstd::arithmetic::div_mod::lemma_div_is_ordered_by_denominator(n - 1, 1, tile);
    }
    if 0 <= p < n {
        vstd::arithmetic::div_mod::lemma_div_pos_is_pos(p, tile);
        vstd::arithmetic::div_mod::lemma_div_is_ordered(p, n - 1, tile);
    }
    if 0 <= t <= q {
        assert(0 <= t * tile <= tile * q) by (nonlinear_arith)
            requires
                0 <= t <= q,
                1 <= tile,
        ;
    }
}

/// Darkest and brightest value of one tile.
fn tile_range(image: &GrayImage, tile: u32, tx: u32, ty: u32) -> (range: (u8, u8))
    requires
        image@.wf(),
        1 <= tile,
        tx * tile < image@.width,
        ty * tile < image@.height,
    ensures
        is_tile_range(image@, tile as int, tx as int, ty as int, range.0, range.1),
{
    let w: u32 = image.width();
    let h: u32 = image.height();
    assert(0 <= tx * tile && 0 <= ty * tile) by (nonlinear_arith);
    let x0: u32 = tx * tile;
    let y0: u32 = ty * tile;
    let x1: u32 = if w - x0 <= tile {
        w
    } else {
        x0 + tile
    };
    let y1: u32 = if h - y0 <= tile {
        h
    } else {
        y0 + tile
    };
    let ghost g = image@;
    assert forall|px: int, py: int| #[trigger]
        in_tile(g, tile as int, tx as int, ty as int, px, py) <==> x0 <= px < x1 && y0 <= py < y1 by {
        if px >= 0 {
            lemma_tile_span(px, tx as int, tile as int);
        }
        if py >= 0 {
            lemma_tile_span(py, ty as int, tile as int);
        }
    }
    let first: u8 = image.get(x0, y0);
    let mut lo: u8 = first;
    let mut hi: u8 = first;
    assert(in_tile(g, tile as int, tx as int, ty as int, x0 as int, y0 as int));
    let mut y: u32 = y0;
    while y < y1
        invariant
            g == image@,
            g.wf(),
            x0 < x1 <= g.width,
            y0 <= y <= y1 <= g.height,
            forall|px: int, py: int| #[trigger]
                in_tile(g, tile as int, tx as int, ty as int, px, py) <==> x0 <= px < x1 && y0 <= py
                    < y1,
            forall|px: int, py: int|
                #![trigger g.at(px, py)]
                x0 <= px < x1 && y0 <= py < y ==> lo <= g.at(px, py) <= hi,
            exists|px: int, py: int|
                #![trigger g.at(px, py)]
                in_tile(g, tile as int, tx as int, ty as int, px, py) && g.at(px, py) == lo,
            exists|px: int, py: int|
                #![trigger g.at(px, py)]
                in_tile(g, tile as int, tx as int, ty as int, px, py) && g.at(px, py) == hi,
        decreases y1 - y,
    {
        let mut x: u32 = x0;
        while x < x1
            invariant
                g == image@,
                g.wf(),
                x0 <= x <= x1 <= g.width,
                y0 <= y < y1 <= g.height,
                forall|px: int, py: int| #[trigger]
                    in_tile(g, tile as int, tx as int, ty as int, px, py) <==> x0 <= px < x1 && y0
                        <= py < y1,
                forall|px: int, py: int|
                    #![trigger g.at(px, py)]
                    x0 <= px < x1 && y0 <= py < y ==> lo <= g.at(px, py) <= hi,
                forall|px: int|
                    #![trigger g.at(px, y as int)]
                    x0 <= px < x ==> lo <= g.at(px, y as int) <= hi,
                exists|px: int, py: int|
                    #![trigger g.at(px, py)]
                    in_tile(g, tile as int, tx as int, ty as int, px, py) && g.at(px, py) == lo,
                exists|px: int, py: int|
                    #![trigger g.at(px, py)]
                    in_tile(g, tile as int, tx as int, ty as int, px, py) && g.at(px, py) == hi,
            decreases x1 - x,
        {
            let v: u8 = image.get(x, y);
            assert(in_tile(g, tile as int, tx as int, ty as int, x as int, y as int));
            if v < lo {
                lo = v;
            }
            if v > hi {
                hi = v;
            }
            x = x + 1;
        }
        y = y + 1;
    }
    (lo, hi)
}

/// First tile of the window of tile `t`, on an axis of `n` tiles.
fn window_first(t: u32, n: u32) -> (start: u32)
    requires
        t < n,
    ensures
        start == window_start(t as int, n as int),
        start <= t < start + 3,
        start < n,
{
    let last: u32 = if n >= 3 {
        n - 3
    } else {
        0
    };
    let centred: u32 = if t >= 1 {
        t - 1
    } else {
        0
    };
    if centred < last {
        centred
    } else {
        last
    }
}

/// Every tile of the grid holds its extreme values.
spec fn are_tile_ranges(
    image: Raster,
    tile: int,
    tw: int,
    th: int,
    lows: Seq<u8>,
    highs: Seq<u8>,
) -> bool {
    &&& lows.len() == tw * th
    &&& highs.len() == tw * th
    &&& forall|i: int|
        0 <= i < tw * th ==> is_tile_range(
            image,
            tile,
            i % tw,
            i / tw,
            #[trigger] lows[i],
            highs[i],
        )
}

/// Darkest and brightest value of the window of one tile.
fn window_range(
    Ghost(g): Ghost<Raster>,
    Ghost(tile): Ghost<int>,
    lows: &Vec<u8>,
    highs: &Vec<u8>,
    tw: u32,
    th: u32,
    tx: u32,
    ty: u32,
) -> (range: (u8, u8))
    requires
        1 <= tile,
        1 <= g.width,
        1 <= g.height,
        tw == tile_count(g.width as int, tile),
        th == tile_count(g.height as int, tile),
        tx < tw,
        ty < th,
        are_tile_ranges(g, tile, tw as int, th as int, lows@, highs@),
    ensures
        is_darkest(g, tile, tx as int, ty as int, range.0),
        is_brightest(g, tile, tx as int, ty as int, range.1),
{
    let x0: u32 = window_first(tx, tw);
    let y0: u32 = window_first(ty, th);
    let x1: u32 = if tw - x0 <= 3 {
        tw
    } else {
        x0 + 3
    };
    let y1: u32 = if th - y0 <= 3 {
        th
    } else {
        y0 + 3
    };
    let i0: usize = linear_index(x0, y0, tw, Ghost(th as nat), lows.len());
    let mut lo: u8 = lows[i0];
    let mut hi: u8 = highs[i0];
    proof {
        lemma_linear_index(x0 as int, y0 as int, tw as int, th as int);
        assert(is_tile_range(g, tile, x0 as int, y0 as int, lo, hi));
        let (ax, ay) = choose|px: int, py: int|
            #![trigger g.at(px, py)]
            in_tile(g, tile, x0 as int, y0 as int, px, py) && g.at(px, py) == lo;
        assert(in_support(g, tile, tx as int, ty as int, ax, ay) && g.at(ax, ay) == lo);
        let (bx, by) = choose|px: int, py: int|
            #![trigger g.at(px, py)]
            in_tile(g, tile, x0 as int, y0 as int, px, py) && g.at(px, py) == hi;
        assert(in_support(g, tile, tx as int, ty as int, bx, by) && g.at(bx, by) == hi);
    }
    let mut ny: u32 = y0;
    while ny < y1
        invariant
            1 <= tile,
            tw == tile_count(g.width as int, tile),
            th == tile_count(g.height as int, tile),
            x0 == window_start(tx as int, tw as int),
            y0 == window_start(ty as int, th as int),
            x0 <= x1 <= tw,
            x1 <= x0 + 3,
            y0 <= ny <= y1 <= th,
            y1 <= y0 + 3,
            are_tile_ranges(g, tile, tw as int, th as int, lows@, highs@),
            forall|px: int, py: int|
                #![trigger g.at(px, py)]
                g.holds(px, py) && x0 <= px / tile < x1 && y0 <= py / tile < ny ==> lo <= g.at(
                    px,
                    py,
                ) <= hi,
            exists|px: int, py: int|
                #![trigger g.at(px, py)]
                in_support(g, tile, tx as int, ty as int, px, py) && g.at(px, py) == lo,
            exists|px: int, py: int|
                #![trigger g.at(px, py)]
                in_support(g, tile, tx as int, ty as int, px, py) && g.at(px, py) == hi,
        decreases y1 - ny,
    {
        let mut nx: u32 = x0;
        while nx < x1
            invariant
                1 <= tile,
                tw == tile_count(g.width as int, tile),
                th == tile_count(g.height as int, tile),
                x0 == window_start(tx as int, tw as int),
                y0 == window_start(ty as int, th as int),
                x0 <= nx <= x1 <= tw,
                x1 <= x0 + 3,
                y0 <= ny < y1 <= th,
                y1 <= y0 + 3,
                are_tile_ranges(g, tile, tw as int, th as int, lows@, highs@),
                forall|px: int, py: int|
                    #![trigger g.at(px, py)]
                    g.holds(px, py) && x0 <= px / tile < x1 && y0 <= py / tile < ny ==> lo <= g.at(
                        px,
                        py,
                    ) <= hi,
                forall|px: int, py: int|
                    #![trigger g.at(px, py)]
                    g.holds(px, py) && x0 <= px / tile < nx && py / tile == ny ==> lo <= g.at(px, py)
                        <= hi,
                exists|px: int, py: int|
                    #![trigger g.at(px, py)]
                    in_support(g, tile, tx as int, ty as int, px, py) && g.at(px, py) == lo,
                exists|px: int, py: int|
                    #![trigger g.at(px, py)]
                    in_support(g, tile, tx as int, ty as int, px, py) && g.at(px, py) == hi,
            decreases x1 - nx,
        {
            let i: usize = linear_index(nx, ny, tw, Ghost(th as nat), lows.len());
            let a: u8 = lows[i];
            let b: u8 = highs[i];
            proof {
                lemma_linear_index(nx as int, ny as int, tw as int, th as int);
                assert(is_tile_range(g, tile, nx as int, ny as int, a, b));
                let (ax, ay) = choose|px: int, py: int|
                    #![trigger g.at(px, py)]
                    in_tile(g, tile, nx as int, ny as int, px, py) && g.at(px, py) == a;
                assert(in_support(g, tile, tx as int, ty as int, ax, ay) && g.at(ax, ay) == a);
                let (bx, by) = choose|px: int, py: int|
                    #![trigger g.at(px, py)]
                    in_tile(g, tile, nx as int, ny as int, px, py) && g.at(px, py) == b;
                assert(in_support(g, tile, tx as int, ty as int, bx, by) && g.at(bx, by) == b);
                assert forall|px: int, py: int|
                    #![trigger g.at(px, py)]
                    g.holds(px, py) && px / tile == nx && py / tile == ny implies a <= g.at(px, py)
                    <= b by {
                    assert(in_tile(g, tile, nx as int, ny as int, px, py));
                }
            }
            if a < lo {
                lo = a;
            }
            if b > hi {
                hi = b;
            }
            nx = nx + 1;
        }
        ny = ny + 1;
    }
    (lo, hi)
}

/// Tiled adaptive threshold.
///
/// `tile` is the tile edge in pixels, taken as one when it is zero;
/// `min_contrast` is the smallest span over a tile's window that is binarised
/// at all. An image without pixels gives a binary image without pixels, and an
/// image of one pixel is skipped.
pub fn adaptive_threshold(image: &GrayImage, tile: u32, min_contrast: u8) -> (out: Binary)
    requires
        image@.wf(),
    ensures
        out.wf(),
        out@ == binarised(image@, tile, min_contrast),
        forall|x: int, y: int|
            #![trigger out@.at(x, y)]
            image@.holds(x, y) ==> is_thresholded(
                image@,
                tile_edge(tile),
                min_contrast,
                x,
                y,
                out@.at(x, y),
            ),
{
    let ghost asked = tile;
    let w: u32 = image.width();
    let h: u32 = image.height();
    let ghost g = image@;
    let tile: u32 = if tile == 0 {
        1
    } else {
        tile
    };
    if w == 0 || h == 0 {
        assert(w * h == 0) by (nonlinear_arith)
            requires
                w == 0 || h == 0,
        ;
        let out = Binary { width: w, height: h, data: Vec::new() };
        assert(out@.data =~= binarised(g, asked, min_contrast).data);
        return out;
    }
    if w == 1 && h == 1 {
        let mut data: Vec<u8> = Vec::new();
        data.push(SKIP);
        let out = Binary { width: w, height: h, data };
        proof {
            law_single_pixel_is_skipped(g, asked, min_contrast);
        }
        assert(out@.data =~= binarised(g, asked, min_contrast).data);
        return out;
    }
    let tw: u32 = (w - 1) / tile + 1;
    let th: u32 = (h - 1) / tile + 1;
    proof {
        lemma_tile_count(0, 0, w as int, tile as int);
        lemma_tile_count(0, 0, h as int, tile as int);
        assert(tw * th <= w * h) by (nonlinear_arith)
            requires
                0 <= tw <= w,
                0 <= th <= h,
        ;
        assert(0 <= tw * th) by (nonlinear_arith);
    }
    let len: usize = image.data().len();
    assert(len == w * h);
    let tiles: usize = (tw as usize) * (th as usize);
    let mut lows: Vec<u8> = Vec::new();
    let mut highs: Vec<u8> = Vec::new();
    let mut i: usize = 0;
    while i < tiles
        invariant
            g == image@,
            g.wf(),
            w == g.width,
            h == g.height,
            1 <= w,
            1 <= h,
            1 <= tile,
            tw == tile_count(w as int, tile as int),
            th == tile_count(h as int, tile as int),
            tiles == tw * th,
            i <= tiles,
            lows@.len() == i,
            highs@.len() == i,
            forall|k: int|
                0 <= k < i ==> is_tile_range(
                    g,
                    tile as int,
                    k % tw as int,
                    k / tw as int,
                    #[trigger] lows@[k],
                    highs@[k],
                ),
        decreases tiles - i,
    {
        proof {
            lemma_coordinates(i as int, tw as int, th as int);
            lemma_tile_count(0, (i as int) % (tw as int), w as int, tile as int);
            lemma_tile_count(0, (i as int) / (tw as int), h as int, tile as int);
        }
        let tx: u32 = (i % (tw as usize)) as u32;
        let ty: u32 = (i / (tw as usize)) as u32;
        let (lo, hi) = tile_range(image, tile, tx, ty);
        lows.push(lo);
        highs.push(hi);
        i = i + 1;
    }
    let mut wide_lows: Vec<u8> = Vec::new();
    let mut wide_highs: Vec<u8> = Vec::new();
    let mut j: usize = 0;
    while j < tiles
        invariant
            w == g.width,
            h == g.height,
            1 <= w,
            1 <= h,
            1 <= tile,
            tw == tile_count(w as int, tile as int),
            th == tile_count(h as int, tile as int),
            tiles == tw * th,
            are_tile_ranges(g, tile as int, tw as int, th as int, lows@, highs@),
            j <= tiles,
            wide_lows@.len() == j,
            wide_highs@.len() == j,
            forall|k: int|
                0 <= k < j ==> is_darkest(
                    g,
                    tile as int,
                    k % tw as int,
                    k / tw as int,
                    #[trigger] wide_lows@[k],
                ),
            forall|k: int|
                0 <= k < j ==> is_brightest(
                    g,
                    tile as int,
                    k % tw as int,
                    k / tw as int,
                    #[trigger] wide_highs@[k],
                ),
        decreases tiles - j,
    {
        proof {
            lemma_coordinates(j as int, tw as int, th as int);
        }
        let tx: u32 = (j % (tw as usize)) as u32;
        let ty: u32 = (j / (tw as usize)) as u32;
        let (lo, hi) = window_range(Ghost(g), Ghost(tile as int), &lows, &highs, tw, th, tx, ty);
        wide_lows.push(lo);
        wide_highs.push(hi);
        j = j + 1;
    }
    let mut data: Vec<u8> = Vec::new();
    let mut p: usize = 0;
    while p < len
        invariant
            g == image@,
            g.wf(),
            w == g.width,
            h == g.height,
            1 <= w,
            1 <= h,
            w != 1 || h != 1,
            1 <= tile,
            len == w * h,
            tw == tile_count(w as int, tile as int),
            th == tile_count(h as int, tile as int),
            tiles == tw * th,
            wide_lows@.len() == tiles,
            wide_highs@.len() == tiles,
            forall|k: int|
                0 <= k < tiles ==> is_darkest(
                    g,
                    tile as int,
                    k % tw as int,
                    k / tw as int,
                    #[trigger] wide_lows@[k],
                ),
            forall|k: int|
                0 <= k < tiles ==> is_brightest(
                    g,
                    tile as int,
                    k % tw as int,
                    k / tw as int,
                    #[trigger] wide_highs@[k],
                ),
            p <= len,
            data@.len() == p,
            forall|k: int| 0 <= k < p ==> is_label(#[trigger] data@[k]),
            forall|k: int|
                0 <= k < p ==> is_thresholded(
                    g,
                    tile as int,
                    min_contrast,
                    k % w as int,
                    k / w as int,
                    #[trigger] data@[k],
                ),
        decreases len - p,
    {
        proof {
            lemma_coordinates(p as int, w as int, h as int);
        }
        let x: u32 = (p % (w as usize)) as u32;
        let y: u32 = (p / (w as usize)) as u32;
        let tx: u32 = x / tile;
        let ty: u32 = y / tile;
        proof {
            lemma_tile_count(x as int, 0, w as int, tile as int);
            lemma_tile_count(y as int, 0, h as int, tile as int);
            lemma_linear_index(tx as int, ty as int, tw as int, th as int);
        }
        let t: usize = linear_index(tx, ty, tw, Ghost(th as nat), tiles);
        let lo: u8 = wide_lows[t];
        let hi: u8 = wide_highs[t];
        let v: u8 = image.get(x, y);
        assert(is_darkest(g, tile as int, tx as int, ty as int, lo));
        assert(is_brightest(g, tile as int, tx as int, ty as int, hi));
        let label: u8 = if (hi as i16) - (lo as i16) < min_contrast as i16 {
            SKIP
        } else {
            let mid: u8 = (((lo as u16) + (hi as u16)) / 2) as u8;
            if v > mid {
                WHITE
            } else {
                BLACK
            }
        };
        assert(label == label_between(lo, hi, g.at(x as int, y as int), min_contrast));
        data.push(label);
        p = p + 1;
    }
    let out = Binary { width: w, height: h, data };
    assert forall|x: int, y: int| #![trigger out@.at(x, y)] g.holds(x, y) implies is_thresholded(
        g,
        tile as int,
        min_contrast,
        x,
        y,
        out@.at(x, y),
    ) by {
        lemma_linear_index(x, y, w as int, h as int);
    }
    assert forall|i: int| 0 <= i < out@.data.len() implies #[trigger] out@.data[i] == binarised(
        g,
        asked,
        min_contrast,
    ).data[i] by {
        let x = i % w as int;
        let y = i / w as int;
        assert(is_thresholded(g, tile as int, min_contrast, x, y, out@.data[i]));
        law_threshold_is_unique(
            g,
            tile as int,
            min_contrast,
            x,
            y,
            out@.data[i],
            threshold_label(g, tile as int, min_contrast, x, y),
        );
    }
    assert(out@.data =~= binarised(g, asked, min_contrast).data);
    out
}

/// A pixel supports its own threshold.
pub proof fn law_pixel_supports_itself(image: Raster, tile: int, x: int, y: int)
    requires
        1 <= tile,
        image.holds(x, y),
    ensures
        in_support(image, tile, x / tile, y / tile, x, y),
{
    lemma_tile_count(x, 0, image.width as int, tile);
    lemma_tile_count(y, 0, image.height as int, tile);
}

/// The threshold gives a pixel one label.
pub proof fn law_threshold_is_unique(
    image: Raster,
    tile: int,
    min_contrast: u8,
    x: int,
    y: int,
    a: u8,
    b: u8,
)
    requires
        is_thresholded(image, tile, min_contrast, x, y, a),
        is_thresholded(image, tile, min_contrast, x, y, b),
    ensures
        a == b,
{
}

/// An image of one pixel is skipped, whatever its value and whatever is asked for.
pub proof fn law_single_pixel_is_skipped(image: Raster, tile: u32, min_contrast: u8)
    requires
        image.wf(),
        image.width == 1,
        image.height == 1,
    ensures
        binarised(image, tile, min_contrast).data =~= seq![SKIP],
{
    assert(image.data.len() == 1);
    assert(is_thresholded(image, tile_edge(tile), min_contrast, 0, 0, SKIP));
}

/// A region without contrast is skipped: where every pixel of the support has
/// the same value, any positive contrast floor gives [`SKIP`].
pub proof fn law_flat_support_is_skipped(
    image: Raster,
    tile: int,
    min_contrast: u8,
    x: int,
    y: int,
    label: u8,
)
    requires
        0 < min_contrast,
        is_thresholded(image, tile, min_contrast, x, y, label),
        forall|px: int, py: int, qx: int, qy: int|
            #![trigger image.at(px, py), image.at(qx, qy)]
            in_support(image, tile, x / tile, y / tile, px, py) && in_support(
                image,
                tile,
                x / tile,
                y / tile,
                qx,
                qy,
            ) ==> image.at(px, py) == image.at(qx, qy),
    ensures
        label == SKIP,
{
}

/// The threshold is local: two images of one size that agree on the support of
/// a pixel give that pixel the same label, whatever they hold elsewhere.
pub proof fn law_threshold_is_local(
    one: Raster,
    other: Raster,
    tile: int,
    min_contrast: u8,
    x: int,
    y: int,
    a: u8,
    b: u8,
)
    requires
        1 <= tile,
        one.width == other.width,
        one.height == other.height,
        one.holds(x, y),
        forall|px: int, py: int|
            in_support(one, tile, x / tile, y / tile, px, py) ==> #[trigger] one.at(px, py)
                == other.at(px, py),
        is_thresholded(one, tile, min_contrast, x, y, a),
        is_thresholded(other, tile, min_contrast, x, y, b),
    ensures
        a == b,
{
    if !is_degenerate(one) {
        lemma_split_is_local(one, other, tile, min_contrast, x, y, a, b);
    }
}

proof fn lemma_split_is_local(
    one: Raster,
    other: Raster,
    tile: int,
    min_contrast: u8,
    x: int,
    y: int,
    a: u8,
    b: u8,
)
    requires
        1 <= tile,
        one.width == other.width,
        one.height == other.height,
        one.holds(x, y),
        forall|px: int, py: int|
            in_support(one, tile, x / tile, y / tile, px, py) ==> #[trigger] one.at(px, py)
                == other.at(px, py),
        is_split(one, tile, min_contrast, x, y, a),
        is_split(other, tile, min_contrast, x, y, b),
    ensures
        a == b,
{
    let tx = x / tile;
    let ty = y / tile;
    law_pixel_supports_itself(one, tile, x, y);
    assert(one.at(x, y) == other.at(x, y));
    let (lo, hi) = choose|lo: u8, hi: u8|
        #![trigger label_between(lo, hi, one.at(x, y), min_contrast)]
        is_darkest(one, tile, tx, ty, lo) && is_brightest(one, tile, tx, ty, hi) && a
            == label_between(lo, hi, one.at(x, y), min_contrast);
    let (ax, ay) = choose|px: int, py: int|
        #![trigger one.at(px, py)]
        in_support(one, tile, tx, ty, px, py) && one.at(px, py) == lo;
    let (bx, by) = choose|px: int, py: int|
        #![trigger one.at(px, py)]
        in_support(one, tile, tx, ty, px, py) && one.at(px, py) == hi;
    assert(in_support(other, tile, tx, ty, ax, ay) && other.at(ax, ay) == lo);
    assert(in_support(other, tile, tx, ty, bx, by) && other.at(bx, by) == hi);
    assert forall|px: int, py: int|
        #![trigger other.at(px, py)]
        in_support(other, tile, tx, ty, px, py) implies lo <= other.at(px, py) <= hi by {
        assert(in_support(one, tile, tx, ty, px, py));
        assert(one.at(px, py) == other.at(px, py));
    }
    assert(is_darkest(other, tile, tx, ty, lo));
    assert(is_brightest(other, tile, tx, ty, hi));
    assert(is_split(other, tile, min_contrast, x, y, a));
}

/// The threshold follows the illumination: an image that is brighter by the
/// same amount over the whole support of a pixel gives that pixel the same
/// label.
pub proof fn law_threshold_ignores_uniform_brightening(
    one: Raster,
    other: Raster,
    tile: int,
    min_contrast: u8,
    x: int,
    y: int,
    rise: int,
    a: u8,
    b: u8,
)
    requires
        1 <= tile,
        one.width == other.width,
        one.height == other.height,
        one.holds(x, y),
        forall|px: int, py: int|
            in_support(one, tile, x / tile, y / tile, px, py) ==> #[trigger] one.at(px, py) + rise
                == other.at(px, py),
        is_thresholded(one, tile, min_contrast, x, y, a),
        is_thresholded(other, tile, min_contrast, x, y, b),
    ensures
        a == b,
{
    if !is_degenerate(one) {
        lemma_split_ignores_uniform_brightening(one, other, tile, min_contrast, x, y, rise, a, b);
    }
}

proof fn lemma_split_ignores_uniform_brightening(
    one: Raster,
    other: Raster,
    tile: int,
    min_contrast: u8,
    x: int,
    y: int,
    rise: int,
    a: u8,
    b: u8,
)
    requires
        1 <= tile,
        one.width == other.width,
        one.height == other.height,
        one.holds(x, y),
        forall|px: int, py: int|
            in_support(one, tile, x / tile, y / tile, px, py) ==> #[trigger] one.at(px, py) + rise
                == other.at(px, py),
        is_split(one, tile, min_contrast, x, y, a),
        is_split(other, tile, min_contrast, x, y, b),
    ensures
        a == b,
{
    let tx = x / tile;
    let ty = y / tile;
    law_pixel_supports_itself(one, tile, x, y);
    assert(one.at(x, y) + rise == other.at(x, y));
    let (lo, hi) = choose|lo: u8, hi: u8|
        #![trigger label_between(lo, hi, one.at(x, y), min_contrast)]
        is_darkest(one, tile, tx, ty, lo) && is_brightest(one, tile, tx, ty, hi) && a
            == label_between(lo, hi, one.at(x, y), min_contrast);
    let (ax, ay) = choose|px: int, py: int|
        #![trigger one.at(px, py)]
        in_support(one, tile, tx, ty, px, py) && one.at(px, py) == lo;
    let (bx, by) = choose|px: int, py: int|
        #![trigger one.at(px, py)]
        in_support(one, tile, tx, ty, px, py) && one.at(px, py) == hi;
    let lo2 = other.at(ax, ay);
    let hi2 = other.at(bx, by);
    assert(lo2 == lo + rise && hi2 == hi + rise);
    assert(in_support(other, tile, tx, ty, ax, ay) && other.at(ax, ay) == lo2);
    assert(in_support(other, tile, tx, ty, bx, by) && other.at(bx, by) == hi2);
    assert forall|px: int, py: int|
        #![trigger other.at(px, py)]
        in_support(other, tile, tx, ty, px, py) implies lo2 <= other.at(px, py) <= hi2 by {
        assert(in_support(one, tile, tx, ty, px, py));
        assert(one.at(px, py) + rise == other.at(px, py));
    }
    assert(is_darkest(other, tile, tx, ty, lo2));
    assert(is_brightest(other, tile, tx, ty, hi2));
    assert(a == label_between(lo2, hi2, other.at(x, y), min_contrast));
    assert(is_split(other, tile, min_contrast, x, y, a));
}

/// A pixel is skipped exactly where nothing around it has contrast: no two pixels of
/// its support differ by the contrast asked for. An image of one pixel is always
/// skipped.
pub proof fn law_contrast_is_never_skipped(
    image: Raster,
    tile: int,
    min_contrast: u8,
    x: int,
    y: int,
    label: u8,
)
    requires
        image.width != 1 || image.height != 1,
        is_thresholded(image, tile, min_contrast, x, y, label),
    ensures
        label == SKIP <==> forall|px: int, py: int, qx: int, qy: int|
            #![trigger image.at(px, py), image.at(qx, qy)]
            in_support(image, tile, x / tile, y / tile, px, py) && in_support(
                image,
                tile,
                x / tile,
                y / tile,
                qx,
                qy,
            ) ==> image.at(px, py) - image.at(qx, qy) < min_contrast,
        label == SKIP || label == WHITE || label == BLACK,
        SKIP != WHITE && SKIP != BLACK && WHITE != BLACK,
{
    let tx = x / tile;
    let ty = y / tile;
    let (lo, hi) = choose|lo: u8, hi: u8|
        #![trigger label_between(lo, hi, image.at(x, y), min_contrast)]
        is_darkest(image, tile, tx, ty, lo) && is_brightest(image, tile, tx, ty, hi) && label
            == label_between(lo, hi, image.at(x, y), min_contrast);
    let (ax, ay) = choose|px: int, py: int|
        #![trigger image.at(px, py)]
        in_support(image, tile, tx, ty, px, py) && image.at(px, py) == lo;
    let (bx, by) = choose|px: int, py: int|
        #![trigger image.at(px, py)]
        in_support(image, tile, tx, ty, px, py) && image.at(px, py) == hi;
    assert(image.at(bx, by) - image.at(ax, ay) == hi - lo);
    if hi - lo < min_contrast {
        assert forall|px: int, py: int, qx: int, qy: int|
            #![trigger image.at(px, py), image.at(qx, qy)]
            in_support(image, tile, tx, ty, px, py) && in_support(
                image,
                tile,
                tx,
                ty,
                qx,
                qy,
            ) implies image.at(px, py) - image.at(qx, qy) < min_contrast by {
            assert(lo <= image.at(qx, qy));
            assert(image.at(px, py) <= hi);
        }
    }
}

/// What is not skipped is split halfway between the extremes: with `(bx, by)` the
/// brightest and `(dx, dy)` the darkest pixel of the support, a pixel above their
/// midpoint is white and any other is black. So the brightest is white and the
/// darkest black wherever they differ.
pub proof fn law_pixels_are_split_halfway(
    image: Raster,
    tile: int,
    min_contrast: u8,
    x: int,
    y: int,
    label: u8,
    bx: int,
    by: int,
    dx: int,
    dy: int,
)
    requires
        image.width != 1 || image.height != 1,
        is_thresholded(image, tile, min_contrast, x, y, label),
        label != SKIP,
        in_support(image, tile, x / tile, y / tile, bx, by),
        in_support(image, tile, x / tile, y / tile, dx, dy),
        forall|px: int, py: int|
            in_support(image, tile, x / tile, y / tile, px, py) ==> image.at(dx, dy)
                <= #[trigger] image.at(px, py) <= image.at(bx, by),
    ensures
        label == WHITE <==> image.at(x, y) > (image.at(dx, dy) + image.at(bx, by)) / 2,
        label == BLACK <==> image.at(x, y) <= (image.at(dx, dy) + image.at(bx, by)) / 2,
        image.at(dx, dy) < image.at(bx, by) && image.at(x, y) == image.at(bx, by) ==> label
            == WHITE,
        image.at(x, y) == image.at(dx, dy) ==> label == BLACK,
{
    let tx = x / tile;
    let ty = y / tile;
    let (lo, hi) = choose|lo: u8, hi: u8|
        #![trigger label_between(lo, hi, image.at(x, y), min_contrast)]
        is_darkest(image, tile, tx, ty, lo) && is_brightest(image, tile, tx, ty, hi) && label
            == label_between(lo, hi, image.at(x, y), min_contrast);
    assert(lo == image.at(dx, dy));
    assert(hi == image.at(bx, by));
}

/// A pixel is judged by the nine tiles around it: its own and the eight next to it.
/// At the border the window is shifted inward, so that it is still three tiles wide,
/// and an axis of fewer than three tiles is used whole.
pub proof fn law_support_is_three_tiles_wide(
    image: Raster,
    tile: int,
    x: int,
    y: int,
    px: int,
    py: int,
)
    requires
        1 <= tile,
        image.holds(x, y),
        image.holds(px, py),
    ensures
        ({
            let across = |p: int, t: int, last: int|
                if t == 0 {
                    p <= 2
                } else if t == last {
                    p >= last - 2
                } else {
                    t - 1 <= p <= t + 1
                };
            in_support(image, tile, x / tile, y / tile, px, py) <==> across(
                px / tile,
                x / tile,
                (image.width - 1) / tile,
            ) && across(py / tile, y / tile, (image.height - 1) / tile)
        }),
{
    lemma_tile_count(x, 0, image.width as int, tile);
    lemma_tile_count(y, 0, image.height as int, tile);
    lemma_tile_count(px, 0, image.width as int, tile);
    lemma_tile_count(py, 0, image.height as int, tile);
}

/// The binary image has the size of the image, and its pixels are the labels that
/// the threshold gives, one for each; a tile edge of zero counts as one.
pub proof fn law_binary_image_holds_the_labels(image: Raster, tile: u32, min_contrast: u8)
    requires
        image.wf(),
        image.width <= u32::MAX,
        image.height <= u32::MAX,
    ensures
        binarised(image, tile, min_contrast).width == image.width,
        binarised(image, tile, min_contrast).height == image.height,
        forall|x: int, y: int|
            image.holds(x, y) ==> is_thresholded(
                image,
                if tile == 0 {
                    1
                } else {
                    tile as int
                },
                min_contrast,
                x,
                y,
                #[trigger] binarised(image, tile, min_contrast).at(x, y),
            ),
{
    let edge = tile_edge(tile);
    assert forall|x: int, y: int| image.holds(x, y) implies is_thresholded(
        image,
        edge,
        min_contrast,
        x,
        y,
        #[trigger] binarised(image, tile, min_contrast).at(x, y),
    ) by {
        lemma_linear_index(x, y, image.width as int, image.height as int);
        lemma_label_exists(image, edge, min_contrast, x, y);
    }
}

proof fn lemma_darkest_among(
    image: Raster,
    tile: int,
    tx: int,
    ty: int,
    ax: int,
    ay: int,
)
    requires
        in_support(image, tile, tx, ty, ax, ay),
    ensures
        exists|lo: u8| #[trigger] is_darkest(image, tile, tx, ty, lo),
    decreases image.at(ax, ay),
{
    let v = image.at(ax, ay);
    if exists|px: int, py: int|
        #![trigger image.at(px, py)]
        in_support(image, tile, tx, ty, px, py) && image.at(px, py) < v {
        let (px, py) = choose|px: int, py: int|
            #![trigger image.at(px, py)]
            in_support(image, tile, tx, ty, px, py) && image.at(px, py) < v;
        lemma_darkest_among(image, tile, tx, ty, px, py);
    } else {
        assert(is_darkest(image, tile, tx, ty, v));
    }
}

proof fn lemma_brightest_among(
    image: Raster,
    tile: int,
    tx: int,
    ty: int,
    ax: int,
    ay: int,
)
    requires
        in_support(image, tile, tx, ty, ax, ay),
    ensures
        exists|hi: u8| #[trigger] is_brightest(image, tile, tx, ty, hi),
    decreases 255 - image.at(ax, ay),
{
    let v = image.at(ax, ay);
    if exists|px: int, py: int|
        #![trigger image.at(px, py)]
        in_support(image, tile, tx, ty, px, py) && image.at(px, py) > v {
        let (px, py) = choose|px: int, py: int|
            #![trigger image.at(px, py)]
            in_support(image, tile, tx, ty, px, py) && image.at(px, py) > v;
        lemma_brightest_among(image, tile, tx, ty, px, py);
    } else {
        assert(is_brightest(image, tile, tx, ty, v));
    }
}

/// The threshold gives every pixel a label.
proof fn lemma_label_exists(image: Raster, tile: int, min_contrast: u8, x: int, y: int)
    requires
        1 <= tile,
        image.holds(x, y),
    ensures
        is_thresholded(
            image,
            tile,
            min_contrast,
            x,
            y,
            threshold_label(image, tile, min_contrast, x, y),
        ),
{
    law_pixel_supports_itself(image, tile, x, y);
    lemma_darkest_among(image, tile, x / tile, y / tile, x, y);
    lemma_brightest_among(image, tile, x / tile, y / tile, x, y);
    let lo = choose|lo: u8| #[trigger] is_darkest(image, tile, x / tile, y / tile, lo);
    let hi = choose|hi: u8| #[trigger] is_brightest(image, tile, x / tile, y / tile, hi);
    let label = if is_degenerate(image) {
        SKIP
    } else {
        label_between(lo, hi, image.at(x, y), min_contrast)
    };
    assert(is_thresholded(image, tile, min_contrast, x, y, label));
}

} // verus!
