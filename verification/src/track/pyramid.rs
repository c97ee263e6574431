//! Image pyramid.
//!
//! Both decimation filters are centred between the second and the third of
//! their taps, so that a point keeps its place from level to level, and both
//! are integer-only, so that a pyramid is the same on every target.

use vstd::arithmetic::power2::pow2;
use vstd::prelude::*;

use crate::raster::{clamped, lemma_coordinates, lemma_linear_index, linear_index, GrayImage, Raster};

verus! {

/// Levels stop being built once halving would take a side below this.
pub const MIN_LEVEL_SIZE: u32 = 16;

/// Decimation filter used between pyramid levels.
#[derive(Debug, Clone, Copy, PartialEq, Eq, Structural)]
pub enum PyramidFilter {
    /// Two-by-two box average.
    Box,
    /// Separable binomial `[1 3 3 1] / 8`, tapped at `-1, 0, +1, +2` around each
    /// even source column and row.
    Binomial,
}

impl Default for PyramidFilter {
    fn default() -> (filter: PyramidFilter)
        ensures
            filter == PyramidFilter::Binomial,
    {
        PyramidFilter::Binomial
    }
}

/// How a pyramid is built.
#[derive(Debug, Clone, Copy, PartialEq, Eq, Structural)]
pub struct PyramidConfig {
    /// Most levels, level 0 counted; fewer are built of a small image.
    pub levels: u32,
    /// Decimation filter.
    pub filter: PyramidFilter,
}

impl Default for PyramidConfig {
    fn default() -> (config: PyramidConfig)
        ensures
            config.levels == 4,
            config.filter == PyramidFilter::Binomial,
    {
        PyramidConfig { levels: 4, filter: PyramidFilter::Binomial }
    }
}

/// Side of the next level: half, rounded down, and at least one pixel.
pub open spec fn half_side(n: int) -> int {
    if n / 2 >= 1 {
        n / 2
    } else {
        1
    }
}

/// The byte at `(x, y)`, read at the nearest pixel when that lies outside.
pub open spec fn edge_clamped(image: Raster, x: int, y: int) -> int {
    image.at(clamped(x, image.width as int), clamped(y, image.height as int)) as int
}

/// Four horizontal taps of the binomial filter, in eighths.
pub open spec fn binomial_row(image: Raster, x: int, y: int) -> int {
    edge_clamped(image, 2 * x - 1, y) + 3 * edge_clamped(image, 2 * x, y) + 3 * edge_clamped(
        image,
        2 * x + 1,
        y,
    ) + edge_clamped(image, 2 * x + 2, y)
}

/// The sixteen taps of the binomial filter, in sixty-fourths.
pub open spec fn binomial_sum(image: Raster, x: int, y: int) -> int {
    binomial_row(image, x, 2 * y - 1) + 3 * binomial_row(image, x, 2 * y) + 3 * binomial_row(
        image,
        x,
        2 * y + 1,
    ) + binomial_row(image, x, 2 * y + 2)
}

/// The four taps of the box filter, in quarters.
pub open spec fn box_sum(image: Raster, x: int, y: int) -> int {
    edge_clamped(image, 2 * x, 2 * y) + edge_clamped(image, 2 * x + 1, 2 * y) + edge_clamped(
        image,
        2 * x,
        2 * y + 1,
    ) + edge_clamped(image, 2 * x + 1, 2 * y + 1)
}

/// A pixel of the next level: the filtered value, halves rounded up.
pub open spec fn decimated_pixel(image: Raster, filter: PyramidFilter, x: int, y: int) -> int {
    match filter {
        PyramidFilter::Box => (box_sum(image, x, y) + 2) / 4,
        PyramidFilter::Binomial => (binomial_sum(image, x, y) + 32) / 64,
    }
}

/// `half` is the next level of `image`.
pub open spec fn is_decimated(image: Raster, filter: PyramidFilter, half: Raster) -> bool {
    &&& half.wf()
    &&& half.width == half_side(image.width as int)
    &&& half.height == half_side(image.height as int)
    &&& forall|x: int, y: int|
        #![trigger half.at(x, y)]
        half.holds(x, y) ==> half.at(x, y) == decimated_pixel(image, filter, x, y)
}

/// `p + d - 1` moved into `[0, n)`.
fn tap(p: u32, d: u32, n: u32) -> (at: u32)
    requires
        0 < n,
        d <= 3,
        p < n,
    ensures
        at == clamped(p + d - 1, n as int),
        at < n,
{
    if d == 0 {
        if p == 0 {
            0
        } else {
            p - 1
        }
    } else if n - p <= d - 1 {
        n - 1
    } else {
        p + (d - 1)
    }
}

/// Half of a side, at least one.
fn half_of(n: u32) -> (half: u32)
    requires
        0 < n,
    ensures
        half == half_side(n as int),
        1 <= half <= n,
{
    if n / 2 >= 1 {
        n / 2
    } else {
        1
    }
}

/// Half-resolution copy by separable binomial `[1 3 3 1] / 8`, halves rounded
/// up and borders clamped.
pub fn downsample_binomial(src: &GrayImage) -> (half: GrayImage)
    requires
        src@.wf(),
        0 < src@.width,
        0 < src@.height,
    ensures
        is_decimated(src@, PyramidFilter::Binomial, half@),
{
    let w: u32 = src.width();
    let h: u32 = src.height();
    let nw: u32 = half_of(w);
    let nh: u32 = half_of(h);
    let ghost g = src@;
    let len: usize = src.data().len();
    proof {
        assert(nw * h <= w * h) by (nonlinear_arith)
            requires
                0 <= nw <= w,
                0 <= h,
        ;
        assert(nw * nh <= nw * h) by (nonlinear_arith)
            requires
                0 <= nh <= h,
                0 <= nw,
        ;
        assert(0 <= nw * nh) by (nonlinear_arith)
            requires
                0 <= nw,
                0 <= nh,
        ;
    }
    let rows_len: usize = (nw as usize) * (h as usize);
    let mut rows: Vec<u16> = Vec::new();
    let mut i: usize = 0;
    while i < rows_len
        invariant
            g == src@,
            g.wf(),
            w == g.width,
            h == g.height,
            0 < w,
            0 < h,
            nw == half_side(w as int),
            1 <= nw <= w,
            rows_len == nw * h,
            i <= rows_len,
            rows@.len() == i,
            forall|k: int|
                0 <= k < i ==> #[trigger] rows@[k] == binomial_row(
                    g,
                    k % nw as int,
                    k / nw as int,
                ),
            forall|k: int| 0 <= k < i ==> #[trigger] rows@[k] <= 2040,
        decreases rows_len - i,
    {
        proof {
            lemma_coordinates(i as int, nw as int, h as int);
        }
        let x: u32 = (i % (nw as usize)) as u32;
        let y: u32 = (i / (nw as usize)) as u32;
        let sx: u32 = 2 * x;
        let a: u16 = src.get(tap(sx, 0, w), y) as u16;
        let b: u16 = src.get(tap(sx, 1, w), y) as u16;
        let c: u16 = src.get(tap(sx, 2, w), y) as u16;
        let d: u16 = src.get(tap(sx, 3, w), y) as u16;
        let s: u16 = a + 3 * b + 3 * c + d;
        assert(clamped(y as int, h as int) == y);
        rows.push(s);
        i = i + 1;
    }
    let out_len: usize = (nw as usize) * (nh as usize);
    let mut data: Vec<u8> = Vec::new();
    let mut j: usize = 0;
    while j < out_len
        invariant
            g == src@,
            g.wf(),
            w == g.width,
            h == g.height,
            0 < w,
            0 < h,
            nw == half_side(w as int),
            nh == half_side(h as int),
            1 <= nw <= w,
            1 <= nh <= h,
            rows_len == nw * h,
            rows@.len() == rows_len,
            out_len == nw * nh,
            forall|k: int|
                0 <= k < rows_len ==> #[trigger] rows@[k] == binomial_row(
                    g,
                    k % nw as int,
                    k / nw as int,
                ),
            forall|k: int| 0 <= k < rows_len ==> #[trigger] rows@[k] <= 2040,
            j <= out_len,
            data@.len() == j,
            forall|k: int|
                0 <= k < j ==> #[trigger] data@[k] == decimated_pixel(
                    g,
                    PyramidFilter::Binomial,
                    k % nw as int,
                    k / nw as int,
                ),
        decreases out_len - j,
    {
        proof {
            lemma_coordinates(j as int, nw as int, nh as int);
        }
        let x: u32 = (j % (nw as usize)) as u32;
        let y: u32 = (j / (nw as usize)) as u32;
        let sy: u32 = 2 * y;
        let y0: u32 = tap(sy, 0, h);
        let y1: u32 = tap(sy, 1, h);
        let y2: u32 = tap(sy, 2, h);
        let y3: u32 = tap(sy, 3, h);
        proof {
            lemma_linear_index(x as int, y0 as int, nw as int, h as int);
            lemma_linear_index(x as int, y1 as int, nw as int, h as int);
            lemma_linear_index(x as int, y2 as int, nw as int, h as int);
            lemma_linear_index(x as int, y3 as int, nw as int, h as int);
            lemma_row_clamps(g, x as int, 2 * y - 1);
            lemma_row_clamps(g, x as int, 2 * y as int);
            lemma_row_clamps(g, x as int, 2 * y + 1);
            lemma_row_clamps(g, x as int, 2 * y + 2);
        }
        let a: u32 = rows[linear_index(x, y0, nw, Ghost(h as nat), rows_len)] as u32;
        let b: u32 = rows[linear_index(x, y1, nw, Ghost(h as nat), rows_len)] as u32;
        let c: u32 = rows[linear_index(x, y2, nw, Ghost(h as nat), rows_len)] as u32;
        let d: u32 = rows[linear_index(x, y3, nw, Ghost(h as nat), rows_len)] as u32;
        let s: u32 = a + 3 * b + 3 * c + d;
        assert(s == binomial_sum(g, x as int, y as int));
        let v: u8 = ((s + 32) / 64) as u8;
        data.push(v);
        j = j + 1;
    }
    finish_level(src, PyramidFilter::Binomial, nw, nh, data)
}

/// Rows outside the image are copies of its first and last row.
proof fn lemma_row_clamps(image: Raster, x: int, y: int)
    requires
        0 < image.height,
    ensures
        binomial_row(image, x, y) == binomial_row(image, x, clamped(y, image.height as int)),
{
}

/// An image over the decimated bytes.
fn finish_level(
    src: &GrayImage,
    filter: PyramidFilter,
    nw: u32,
    nh: u32,
    data: Vec<u8>,
) -> (half: GrayImage)
    requires
        src@.wf(),
        0 < src@.width,
        0 < src@.height,
        nw == half_side(src@.width as int),
        nh == half_side(src@.height as int),
        data@.len() == nw * nh,
        forall|k: int|
            0 <= k < nw * nh ==> #[trigger] data@[k] == decimated_pixel(
                src@,
                filter,
                k % nw as int,
                k / nw as int,
            ),
    ensures
        is_decimated(src@, filter, half@),
{
    let made: Option<GrayImage> = GrayImage::from_data(nw, nh, data);
    match made {
        Some(half) => {
            assert forall|x: int, y: int| #![trigger half@.at(x, y)] half@.holds(x, y) implies half@.at(
                x,
                y,
            ) == decimated_pixel(src@, filter, x, y) by {
                lemma_linear_index(x, y, nw as int, nh as int);
            }
            half
        },
        None => {
            assert(false);
            GrayImage::new(0, 0)
        },
    }
}

/// Half-resolution copy by two-by-two averages, halves rounded up and borders
/// clamped.
pub fn downsample_half(src: &GrayImage) -> (half: GrayImage)
    requires
        src@.wf(),
        0 < src@.width,
        0 < src@.height,
    ensures
        is_decimated(src@, PyramidFilter::Box, half@),
{
    let w: u32 = src.width();
    let h: u32 = src.height();
    let nw: u32 = half_of(w);
    let nh: u32 = half_of(h);
    let ghost g = src@;
    let len: usize = src.data().len();
    proof {
        assert(nw * nh <= w * h) by (nonlinear_arith)
            requires
                0 <= nw <= w,
                0 <= nh <= h,
        ;
        assert(0 <= nw * nh) by (nonlinear_arith)
            requires
                0 <= nw,
                0 <= nh,
        ;
    }
    let out_len: usize = (nw as usize) * (nh as usize);
    let mut data: Vec<u8> = Vec::new();
    let mut j: usize = 0;
    while j < out_len
        invariant
            g == src@,
            g.wf(),
            w == g.width,
            h == g.height,
            0 < w,
            0 < h,
            nw == half_side(w as int),
            nh == half_side(h as int),
            1 <= nw <= w,
            1 <= nh <= h,
            out_len == nw * nh,
            j <= out_len,
            data@.len() == j,
            forall|k: int|
                0 <= k < j ==> #[trigger] data@[k] == decimated_pixel(
                    g,
                    PyramidFilter::Box,
                    k % nw as int,
                    k / nw as int,
                ),
        decreases out_len - j,
    {
        proof {
            lemma_coordinates(j as int, nw as int, nh as int);
        }
        let x: u32 = (j % (nw as usize)) as u32;
        let y: u32 = (j / (nw as usize)) as u32;
        let x0: u32 = tap(2 * x, 1, w);
        let x1: u32 = tap(2 * x, 2, w);
        let y0: u32 = tap(2 * y, 1, h);
        let y1: u32 = tap(2 * y, 2, h);
        let a: u32 = src.get(x0, y0) as u32;
        let b: u32 = src.get(x1, y0) as u32;
        let c: u32 = src.get(x0, y1) as u32;
        let d: u32 = src.get(x1, y1) as u32;
        let s: u32 = a + b + c + d;
        assert(s == box_sum(g, x as int, y as int));
        let v: u8 = ((s + 2) / 4) as u8;
        data.push(v);
        j = j + 1;
    }
    finish_level(src, PyramidFilter::Box, nw, nh, data)
}

/// An image pyramid, finest level first.
#[derive(Debug)]
pub struct Pyramid {
    levels: Vec<GrayImage>,
}

impl View for Pyramid {
    type V = Seq<Raster>;

    closed spec fn view(&self) -> Seq<Raster> {
        self.levels@.map_values(|l: GrayImage| l@)
    }
}

/// Whether an image is large enough to be halved once more.
pub open spec fn can_halve(image: Raster) -> bool {
    image.width / 2 >= MIN_LEVEL_SIZE && image.height / 2 >= MIN_LEVEL_SIZE
}

/// `next` is the level that follows `level`.
pub open spec fn is_next_level(level: Raster, filter: PyramidFilter, next: Raster) -> bool {
    can_halve(level) && is_decimated(level, filter, next)
}

/// `levels` is the pyramid over `image`: each level is the next of the one
/// before, and levels end where the count is reached or the image is too small.
pub open spec fn is_pyramid(levels: Seq<Raster>, image: Raster, config: PyramidConfig) -> bool {
    let most = if config.levels >= 1 {
        config.levels as int
    } else {
        1
    };
    &&& 1 <= levels.len() <= most
    &&& levels[0] == image
    &&& forall|k: int, l: int|
        0 <= k && l == k + 1 && l < levels.len() ==> #[trigger] is_next_level(
            levels[k],
            config.filter,
            levels[l],
        )
    &&& levels.len() == most || !can_halve(levels.last())
}

impl Pyramid {
    /// There is a level 0, and every level is a whole image.
    pub open spec fn wf(&self) -> bool {
        &&& self@.len() >= 1
        &&& forall|l: int| 0 <= l < self@.len() ==> (#[trigger] self@[l]).wf()
    }

    /// Build a pyramid from a full-resolution image.
    ///
    /// There is always a level 0, which is the input, unfiltered.
    pub fn build(image: &GrayImage, config: &PyramidConfig) -> (pyramid: Pyramid)
        requires
            image@.wf(),
        ensures
            pyramid.wf(),
            is_pyramid(pyramid@, image@, *config),
    {
        let most: u32 = if config.levels >= 1 {
            config.levels
        } else {
            1
        };
        let ghost g = image@;
        let mut levels: Vec<GrayImage> = Vec::new();
        levels.push(image.clone());
        let mut l: u32 = 1;
        let mut more: bool = true;
        while more && l < most
            invariant
                g == image@,
                g.wf(),
                most == (if config.levels >= 1 {
                    config.levels
                } else {
                    1
                }),
                1 <= l <= most,
                levels@.len() == l,
                levels@[0]@ == g,
                forall|k: int| 0 <= k < l ==> (#[trigger] levels@[k])@.wf(),
                forall|j: int, k: int|
                    0 <= j && k == j + 1 && k < l ==> #[trigger] is_next_level(
                        levels@[j]@,
                        config.filter,
                        levels@[k]@,
                    ),
                !more ==> !can_halve(levels@[l - 1]@),
            decreases most - l, if more { 1int } else { 0int },
        {
            let last: usize = levels.len() - 1;
            let w: u32 = levels[last].width();
            let h: u32 = levels[last].height();
            if w / 2 < MIN_LEVEL_SIZE || h / 2 < MIN_LEVEL_SIZE {
                more = false;
            } else {
                let next: GrayImage = match config.filter {
                    PyramidFilter::Box => downsample_half(&levels[last]),
                    PyramidFilter::Binomial => downsample_binomial(&levels[last]),
                };
                levels.push(next);
                l = l + 1;
            }
        }
        let pyramid = Pyramid { levels };
        assert forall|k: int| 0 <= k < pyramid@.len() implies #[trigger] pyramid@[k]
            == pyramid.levels@[k]@ by {}
        pyramid
    }

    /// Build with the default filter and a level count.
    pub fn with_levels(image: &GrayImage, levels: u32) -> (pyramid: Pyramid)
        requires
            image@.wf(),
        ensures
            pyramid.wf(),
            is_pyramid(
                pyramid@,
                image@,
                (PyramidConfig { levels, filter: PyramidFilter::Binomial }),
            ),
    {
        Pyramid::build(image, &PyramidConfig { levels, filter: PyramidFilter::Binomial })
    }

    /// Number of levels actually built.
    pub fn len(&self) -> (n: usize)
        ensures
            n == self@.len(),
    {
        self.levels.len()
    }

    /// Whether there is no level; a built pyramid always has one.
    pub fn is_empty(&self) -> (empty: bool)
        ensures
            empty == (self@.len() == 0),
            self.wf() ==> !empty,
    {
        self.levels.len() == 0
    }

    /// Index of the coarsest level.
    pub fn top_level(&self) -> (top: u32)
        requires
            self.wf(),
            self@.len() <= u32::MAX,
        ensures
            top == self@.len() - 1,
    {
        (self.levels.len() - 1) as u32
    }

    /// Level 0: the full-resolution image.
    pub fn base(&self) -> (image: &GrayImage)
        requires
            self.wf(),
        ensures
            image@ == self@[0],
    {
        &self.levels[0]
    }

    /// A level by index, or `None` if it was not built.
    pub fn level(&self, index: u32) -> (level: Option<&GrayImage>)
        ensures
            level is Some <==> index < self@.len(),
            level matches Some(image) ==> image@ == self@[index as int],
    {
        if (index as usize) < self.levels.len() {
            Some(&self.levels[index as usize])
        } else {
            None
        }
    }
}

/// Decimation keeps within the range of the image, and so keeps a constant.
pub proof fn law_decimation_keeps_the_range(
    image: Raster,
    filter: PyramidFilter,
    x: int,
    y: int,
    lo: u8,
    hi: u8,
)
    requires
        0 < image.width,
        0 < image.height,
        forall|px: int, py: int|
            image.holds(px, py) ==> lo <= #[trigger] image.at(px, py) <= hi,
    ensures
        lo <= decimated_pixel(image, filter, x, y) <= hi,
{
    assert forall|px: int, py: int| lo <= #[trigger] edge_clamped(image, px, py) <= hi by {
        assert(image.holds(clamped(px, image.width as int), clamped(py, image.height as int)));
    }
    assert(8 * lo <= binomial_row(image, x, 2 * y - 1) <= 8 * hi);
    assert(8 * lo <= binomial_row(image, x, 2 * y) <= 8 * hi);
    assert(8 * lo <= binomial_row(image, x, 2 * y + 1) <= 8 * hi);
    assert(8 * lo <= binomial_row(image, x, 2 * y + 2) <= 8 * hi);
}

/// The two filters share their centre: where the image is an affine ramp under
/// all their taps, both give the same pixel.
pub proof fn law_filters_share_their_centre(
    image: Raster,
    x: int,
    y: int,
    a: int,
    b: int,
    c: int,
)
    requires
        0 < x,
        0 < y,
        2 * x + 2 < image.width,
        2 * y + 2 < image.height,
        forall|px: int, py: int|
            2 * x - 1 <= px <= 2 * x + 2 && 2 * y - 1 <= py <= 2 * y + 2 ==> #[trigger] image.at(
                px,
                py,
            ) == a * px + b * py + c,
    ensures
        decimated_pixel(image, PyramidFilter::Box, x, y) == decimated_pixel(
            image,
            PyramidFilter::Binomial,
            x,
            y,
        ),
{
    let v = |px: int, py: int| a * px + b * py + c;
    assert forall|px: int, py: int|
        2 * x - 1 <= px <= 2 * x + 2 && 2 * y - 1 <= py <= 2 * y + 2 implies #[trigger] edge_clamped(
        image,
        px,
        py,
    ) == v(px, py) by {
        assert(image.at(px, py) == a * px + b * py + c);
    }
    let ax = a * (2 * x);
    assert(a * (2 * x - 1) == ax - a) by (nonlinear_arith)
        requires
            ax == a * (2 * x),
    ;
    assert(a * (2 * x + 1) == ax + a) by (nonlinear_arith)
        requires
            ax == a * (2 * x),
    ;
    assert(a * (2 * x + 2) == ax + 2 * a) by (nonlinear_arith)
        requires
            ax == a * (2 * x),
    ;
    let by = b * (2 * y);
    assert(b * (2 * y - 1) == by - b) by (nonlinear_arith)
        requires
            by == b * (2 * y),
    ;
    assert(b * (2 * y + 1) == by + b) by (nonlinear_arith)
        requires
            by == b * (2 * y),
    ;
    assert(b * (2 * y + 2) == by + 2 * b) by (nonlinear_arith)
        requires
            by == b * (2 * y),
    ;
    let r0 = binomial_row(image, x, 2 * y - 1);
    let r1 = binomial_row(image, x, 2 * y);
    let r2 = binomial_row(image, x, 2 * y + 1);
    let r3 = binomial_row(image, x, 2 * y + 2);
    assert(r0 == 8 * ax + 4 * a + 8 * (by - b) + 8 * c);
    assert(r1 == 8 * ax + 4 * a + 8 * by + 8 * c);
    assert(r2 == 8 * ax + 4 * a + 8 * (by + b) + 8 * c);
    assert(r3 == 8 * ax + 4 * a + 8 * (by + 2 * b) + 8 * c);
    assert(binomial_sum(image, x, y) == 64 * ax + 32 * a + 64 * by + 32 * b + 64 * c);
    assert(box_sum(image, x, y) == 4 * ax + 2 * a + 4 * by + 2 * b + 4 * c);
    assert(binomial_sum(image, x, y) == 16 * box_sum(image, x, y));
}

/// Each level of a pyramid has half the sides of the one before, rounded down.
pub proof fn law_level_sides_halve(levels: Seq<Raster>, image: Raster, config: PyramidConfig, l: int)
    requires
        is_pyramid(levels, image, config),
        1 <= l < levels.len(),
    ensures
        levels[l].width == levels[l - 1].width / 2,
        levels[l].height == levels[l - 1].height / 2,
        levels[l].width >= MIN_LEVEL_SIZE,
        levels[l].height >= MIN_LEVEL_SIZE,
{
    assert(is_next_level(levels[l - 1], config.filter, levels[l]));
}

/// A constant image stays constant at every level.
pub proof fn law_constant_survives_every_level(
    levels: Seq<Raster>,
    image: Raster,
    config: PyramidConfig,
    v: u8,
    l: int,
)
    requires
        image.wf(),
        is_pyramid(levels, image, config),
        forall|x: int, y: int| image.holds(x, y) ==> #[trigger] image.at(x, y) == v,
        0 <= l < levels.len(),
    ensures
        forall|x: int, y: int| levels[l].holds(x, y) ==> #[trigger] levels[l].at(x, y) == v,
    decreases l,
{
    if l > 0 {
        law_constant_survives_every_level(levels, image, config, v, l - 1);
        let before = levels[l - 1];
        assert(is_next_level(before, config.filter, levels[l]));
        assert forall|x: int, y: int| levels[l].holds(x, y) implies #[trigger] levels[l].at(x, y)
            == v by {
            law_decimation_keeps_the_range(before, config.filter, x, y, v, v);
        }
    }
}

/// A decimated pixel of the binomial filter is the weighted mean of sixteen pixels,
/// rounded to the nearest whole value, halves up. The weights along each axis are
/// one, three, three and one eighths at `-1, 0, +1, +2` of the even source pixel,
/// and a pixel that is not there stands for the nearest one that is.
pub proof fn law_binomial_is_a_weighted_mean(image: Raster, half: Raster, x: int, y: int)
    requires
        0 < image.width,
        0 < image.height,
        is_decimated(image, PyramidFilter::Binomial, half),
        half.holds(x, y),
    ensures
        ({
            let col = |d: int|
                if 2 * x + d < 0 {
                    0
                } else if 2 * x + d >= image.width {
                    image.width - 1
                } else {
                    2 * x + d
                };
            let row = |d: int|
                if 2 * y + d < 0 {
                    0
                } else if 2 * y + d >= image.height {
                    image.height - 1
                } else {
                    2 * y + d
                };
            let v = |i: int, j: int| image.at(col(i), row(j)) as int;
            let corners = v(-1, -1) + v(2, -1) + v(-1, 2) + v(2, 2);
            let sides = v(0, -1) + v(1, -1) + v(0, 2) + v(1, 2) + v(-1, 0) + v(-1, 1) + v(2, 0) + v(
                2,
                1,
            );
            let covered = v(0, 0) + v(1, 0) + v(0, 1) + v(1, 1);
            let mean = 9 * covered + 3 * sides + corners;
            mean - 32 < 64 * half.at(x, y) <= mean + 32
        }),
{
    assert(half.at(x, y) == decimated_pixel(image, PyramidFilter::Binomial, x, y));
}

/// The binomial filter spreads a point: of an image that is dark but for one
/// interior pixel, a decimated pixel takes nine sixty-fourths where it covers the
/// point, three where the point is one pixel off along one axis, one where it is
/// off along both, and nothing farther away.
pub proof fn law_binomial_spreads_a_point(
    image: Raster,
    half: Raster,
    px: int,
    py: int,
    v: u8,
    x: int,
    y: int,
)
    requires
        0 < px < image.width - 1,
        0 < py < image.height - 1,
        image.at(px, py) == v,
        forall|qx: int, qy: int|
            image.holds(qx, qy) && (qx != px || qy != py) ==> #[trigger] image.at(qx, qy) == 0,
        is_decimated(image, PyramidFilter::Binomial, half),
        half.holds(x, y),
    ensures
        ({
            let w = |d: int|
                if d == 0 || d == 1 {
                    3int
                } else if d == -1 || d == 2 {
                    1int
                } else {
                    0int
                };
            half.at(x, y) == (w(px - 2 * x) * w(py - 2 * y) * v + 32) / 64
        }),
{
    let w = |d: int|
        if d == 0 || d == 1 {
            3int
        } else if d == -1 || d == 2 {
            1int
        } else {
            0int
        };
    assert forall|qx: int, qy: int| #[trigger] edge_clamped(image, qx, qy) == (if qx == px && qy
        == py {
        v as int
    } else {
        0
    }) by {
        let cx = clamped(qx, image.width as int);
        let cy = clamped(qy, image.height as int);
        assert(image.holds(cx, cy));
        if cx != px || cy != py {
            assert(image.at(cx, cy) == 0);
        }
    }
    let a = w(px - 2 * x);
    let b = w(py - 2 * y);
    assert forall|r: int| #[trigger] binomial_row(image, x, r) == (if r == py {
        a * v
    } else {
        0
    }) by {}
    let row = a * v;
    assert(binomial_sum(image, x, y) == b * row);
    assert(b * row == a * b * v) by (nonlinear_arith)
        requires
            row == a * v,
    ;
    assert(half.at(x, y) == decimated_pixel(image, PyramidFilter::Binomial, x, y));
}

/// Filtering is additive: of an image that is the sum of two others, the taps sum to
/// the sum of theirs, and each decimated pixel is theirs added up but for rounding.
pub proof fn law_decimation_adds_up(
    one: Raster,
    other: Raster,
    sum: Raster,
    filter: PyramidFilter,
    x: int,
    y: int,
)
    requires
        0 < sum.width,
        0 < sum.height,
        one.width == sum.width,
        other.width == sum.width,
        one.height == sum.height,
        other.height == sum.height,
        forall|px: int, py: int|
            sum.holds(px, py) ==> #[trigger] sum.at(px, py) == one.at(px, py) + other.at(px, py),
    ensures
        binomial_sum(sum, x, y) == binomial_sum(one, x, y) + binomial_sum(other, x, y),
        box_sum(sum, x, y) == box_sum(one, x, y) + box_sum(other, x, y),
        -1 <= decimated_pixel(sum, filter, x, y) - decimated_pixel(one, filter, x, y)
            - decimated_pixel(other, filter, x, y) <= 1,
{
    assert forall|qx: int, qy: int| #[trigger] edge_clamped(sum, qx, qy) == edge_clamped(
        one,
        qx,
        qy,
    ) + edge_clamped(other, qx, qy) by {
        let cx = clamped(qx, sum.width as int);
        let cy = clamped(qy, sum.height as int);
        assert(sum.holds(cx, cy));
        assert(sum.at(cx, cy) == one.at(cx, cy) + other.at(cx, cy));
    }
    assert forall|r: int| #[trigger] binomial_row(sum, x, r) == binomial_row(one, x, r)
        + binomial_row(other, x, r) by {}
}

/// A decimated pixel of the box filter is the mean of the four pixels that it
/// covers, rounded to the nearest whole value, halves up; a pixel that is not there
/// stands for the nearest one that is.
pub proof fn law_box_is_the_mean_of_four(image: Raster, half: Raster, x: int, y: int)
    requires
        0 < image.width,
        0 < image.height,
        is_decimated(image, PyramidFilter::Box, half),
        half.holds(x, y),
    ensures
        ({
            let x1 = if 2 * x + 1 < image.width {
                2 * x + 1
            } else {
                image.width - 1
            };
            let y1 = if 2 * y + 1 < image.height {
                2 * y + 1
            } else {
                image.height - 1
            };
            let sum = image.at(2 * x, 2 * y) + image.at(x1, 2 * y) + image.at(2 * x, y1)
                + image.at(x1, y1);
            sum - 2 < 4 * half.at(x, y) <= sum + 2
        }),
{
    assert(half.at(x, y) == decimated_pixel(image, PyramidFilter::Box, x, y));
}

proof fn lemma_halved_again(n: int, l: nat)
    requires
        0 <= n,
    ensures
        (n / pow2(l) as int) / 2 == n / pow2(l + 1) as int,
        n / pow2(l + 1) as int <= n / pow2(l) as int,
        0 <= n / pow2(l) as int,
{
    vstd::arithmetic::power2::lemma_pow2_pos(l);
    vstd::arithmetic::power2::lemma_pow2_unfold(l + 1);
    vstd::arithmetic::div_mod::lemma_div_denominator(n, pow2(l) as int, 2);
    vstd::arithmetic::div_mod::lemma_div_pos_is_pos(n, pow2(l) as int);
    assert(pow2(l) as int * 2 == pow2(l + 1) as int);
}

proof fn lemma_fewer_halvings(n: int, l: nat, m: nat)
    requires
        0 <= n,
        l <= m,
    ensures
        n / pow2(m) as int <= n / pow2(l) as int,
    decreases m,
{
    if l < m {
        lemma_fewer_halvings(n, l, (m - 1) as nat);
        lemma_halved_again(n, (m - 1) as nat);
    }
}

/// Level `l` has the image's sides halved `l` times, rounded down.
pub proof fn law_level_sides_are_scaled(
    levels: Seq<Raster>,
    image: Raster,
    config: PyramidConfig,
    l: nat,
)
    requires
        is_pyramid(levels, image, config),
        l < levels.len(),
    ensures
        levels[l as int].width == image.width as int / pow2(l) as int,
        levels[l as int].height == image.height as int / pow2(l) as int,
    decreases l,
{
    if l == 0 {
        vstd::arithmetic::power2::lemma2_to64();
    } else {
        law_level_sides_are_scaled(levels, image, config, (l - 1) as nat);
        law_level_sides_halve(levels, image, config, l as int);
        lemma_halved_again(image.width as int, (l - 1) as nat);
        lemma_halved_again(image.height as int, (l - 1) as nat);
    }
}

/// A level beyond the first is built exactly when the configuration asks for it and
/// neither of its sides would be too small.
pub proof fn law_every_level_asked_for_is_built(
    levels: Seq<Raster>,
    image: Raster,
    config: PyramidConfig,
    l: nat,
)
    requires
        is_pyramid(levels, image, config),
        l > 0,
    ensures
        l < levels.len() <==> l < config.levels && image.width as int / pow2(l) as int
            >= MIN_LEVEL_SIZE && image.height as int / pow2(l) as int >= MIN_LEVEL_SIZE,
        levels[0] == image,
{
    if l < levels.len() {
        law_level_sides_are_scaled(levels, image, config, l);
        law_level_sides_halve(levels, image, config, l as int);
    } else {
        let last = (levels.len() - 1) as nat;
        law_level_sides_are_scaled(levels, image, config, last);
        lemma_halved_again(image.width as int, last);
        lemma_halved_again(image.height as int, last);
        lemma_fewer_halvings(image.width as int, last + 1, l);
        lemma_fewer_halvings(image.height as int, last + 1, l);
    }
}

} // verus!
