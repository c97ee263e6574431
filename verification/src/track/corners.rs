//! Corner detection: structure-tensor sums and grid-bucketed selection.
//!
//! Candidates are ranked per grid cell and the cells are then visited in turn,
//! one corner a visit, so that the corners are spread over the image and not
//! stacked where the texture is strongest.

use vstd::prelude::*;

use crate::count::{how_many, lemma_how_many, sum_of};
use crate::order::{comes_before, is_stable_order, lists, stable_order, SortKey};
use crate::raster::{clamped, lemma_coordinates, lemma_linear_index, linear_index, GrayImage, Raster};
use crate::track::pyramid::edge_clamped;

verus! {

/// The integer settings of the detector.
#[derive(Debug, Clone, Copy, PartialEq, Eq, Structural)]
pub struct CornerConfig {
    /// Upper bound on returned corners.
    pub max_corners: usize,
    /// Half-width of the structure-tensor window.
    pub block_radius: u32,
    /// Bucket grid width; zero counts as one.
    pub grid_cols: u32,
    /// Bucket grid height; zero counts as one.
    pub grid_rows: u32,
    /// Pixels excluded at the image border, at least the block radius plus one.
    pub border: u32,
    /// Whether accepted corners are refined.
    pub subpixel: bool,
    /// Half-width of the refinement window.
    pub subpixel_radius: u32,
    /// Refinement iteration cap.
    pub subpixel_iterations: u32,
}

impl Default for CornerConfig {
    fn default() -> (config: CornerConfig)
        ensures
            config == (CornerConfig {
                max_corners: 300,
                block_radius: 3,
                grid_cols: 8,
                grid_rows: 6,
                border: 8,
                subpixel: true,
                subpixel_radius: 4,
                subpixel_iterations: 12,
            }),
    {
        CornerConfig {
            max_corners: 300,
            block_radius: 3,
            grid_cols: 8,
            grid_rows: 6,
            border: 8,
            subpixel: true,
            subpixel_radius: 4,
            subpixel_iterations: 12,
        }
    }
}

/// A detected corner: its pixel and the sort key of its response.
#[derive(Debug, Clone, Copy, PartialEq, Eq, Structural)]
pub struct Corner {
    pub x: u32,
    pub y: u32,
    pub response: u64,
}

/// One entry of the symmetric structure tensor.
#[derive(Debug, Clone, Copy, PartialEq, Eq, Structural)]
pub enum TensorTerm {
    Xx,
    Xy,
    Yy,
}

/// Twice the central difference along `x`.
pub open spec fn slope_x(image: Raster, x: int, y: int) -> int {
    edge_clamped(image, x + 1, y) - edge_clamped(image, x - 1, y)
}

/// Twice the central difference along `y`.
pub open spec fn slope_y(image: Raster, x: int, y: int) -> int {
    edge_clamped(image, x, y + 1) - edge_clamped(image, x, y - 1)
}

/// Four times the product of gradients at `(x, y)`.
pub open spec fn tensor_term(image: Raster, term: TensorTerm, x: int, y: int) -> int {
    match term {
        TensorTerm::Xx => slope_x(image, x, y) * slope_x(image, x, y),
        TensorTerm::Xy => slope_x(image, x, y) * slope_y(image, x, y),
        TensorTerm::Yy => slope_y(image, x, y) * slope_y(image, x, y),
    }
}

/// The first `n` taps of the row sum of radius `r` around `(x, y)`.
pub open spec fn row_taps(image: Raster, term: TensorTerm, x: int, y: int, r: int, n: nat) -> int
    decreases n,
{
    if n == 0 {
        0
    } else {
        row_taps(image, term, x, y, r, (n - 1) as nat) + tensor_term(
            image,
            term,
            clamped(x - r + n - 1, image.width as int),
            y,
        )
    }
}

/// The first `n` rows of the window sum of radius `r` around `(x, y)`.
pub open spec fn window_rows(image: Raster, term: TensorTerm, x: int, y: int, r: int, n: nat) -> int
    decreases n,
{
    if n == 0 {
        0
    } else {
        window_rows(image, term, x, y, r, (n - 1) as nat) + row_taps(
            image,
            term,
            x,
            clamped(y - r + n - 1, image.height as int),
            r,
            (2 * r + 1) as nat,
        )
    }
}

/// Sum of a tensor term over the window of radius `r` around `(x, y)`, in
/// quarters; taps outside the image are read at its edge.
pub open spec fn window_sum(image: Raster, term: TensorTerm, x: int, y: int, r: int) -> int {
    window_rows(image, term, x, y, r, (2 * r + 1) as nat)
}

/// `c + d - r` moved into `[0, n)`.
fn shifted(c: u32, d: u32, r: u32, n: u32) -> (at: u32)
    requires
        c < n,
        d <= 2 * r,
        r <= 32767,
    ensures
        at == clamped(c - r + d, n as int),
        at < n,
{
    let v: i64 = (c as i64) + (d as i64) - (r as i64);
    if v < 0 {
        0
    } else if v >= n as i64 {
        n - 1
    } else {
        v as u32
    }
}

/// Four times the product of gradients at a pixel.
fn gradient_product(image: &GrayImage, term: TensorTerm, x: u32, y: u32) -> (v: i64)
    requires
        image@.wf(),
        image@.holds(x as int, y as int),
    ensures
        v == tensor_term(image@, term, x as int, y as int),
        -65025 <= v <= 65025,
{
    let w: u32 = image.width();
    let h: u32 = image.height();
    let xl: u32 = shifted(x, 0, 1, w);
    let xr: u32 = shifted(x, 2, 1, w);
    let yu: u32 = shifted(y, 0, 1, h);
    let yd: u32 = shifted(y, 2, 1, h);
    let gx: i64 = (image.get(xr, y) as i64) - (image.get(xl, y) as i64);
    let gy: i64 = (image.get(x, yd) as i64) - (image.get(x, yu) as i64);
    assert(gx == slope_x(image@, x as int, y as int));
    assert(gy == slope_y(image@, x as int, y as int));
    assert(-65025 <= gx * gx <= 65025) by (nonlinear_arith)
        requires
            -255 <= gx <= 255,
    ;
    assert(-65025 <= gx * gy <= 65025) by (nonlinear_arith)
        requires
            -255 <= gx <= 255,
            -255 <= gy <= 255,
    ;
    assert(-65025 <= gy * gy <= 65025) by (nonlinear_arith)
        requires
            -255 <= gy <= 255,
    ;
    match term {
        TensorTerm::Xx => gx * gx,
        TensorTerm::Xy => gx * gy,
        TensorTerm::Yy => gy * gy,
    }
}

/// Window sums of one structure-tensor term over the whole image, row-major and
/// in quarters. The sums are exact.
pub fn tensor_sums(image: &GrayImage, term: TensorTerm, block_radius: u32) -> (sums: Vec<i64>)
    requires
        image@.wf(),
        block_radius <= 32767,
    ensures
        sums@.len() == image@.data.len(),
        forall|i: int|
            0 <= i < sums@.len() ==> #[trigger] sums@[i] == window_sum(
                image@,
                term,
                i % image@.width as int,
                i / image@.width as int,
                block_radius as int,
            ),
{
    let w: u32 = image.width();
    let h: u32 = image.height();
    let r: u32 = block_radius;
    let n: usize = image.data().len();
    let ghost g = image@;
    let mut products: Vec<i64> = Vec::new();
    let mut i: usize = 0;
    while i < n
        invariant
            g == image@,
            g.wf(),
            w == g.width,
            h == g.height,
            n == g.data.len(),
            i <= n,
            products@.len() == i,
            forall|k: int|
                0 <= k < i ==> #[trigger] products@[k] == tensor_term(
                    g,
                    term,
                    k % w as int,
                    k / w as int,
                ),
            forall|k: int| 0 <= k < i ==> -65025 <= #[trigger] products@[k] <= 65025,
        decreases n - i,
    {
        proof {
            lemma_coordinates(i as int, w as int, h as int);
        }
        let x: u32 = (i % (w as usize)) as u32;
        let y: u32 = (i / (w as usize)) as u32;
        products.push(gradient_product(image, term, x, y));
        i = i + 1;
    }
    let side: u32 = 2 * r + 1;
    let mut rows: Vec<i64> = Vec::new();
    let mut j: usize = 0;
    while j < n
        invariant
            g.wf(),
            w == g.width,
            h == g.height,
            n == g.data.len(),
            r <= 32767,
            side == 2 * r + 1,
            products@.len() == n,
            forall|k: int|
                0 <= k < n ==> #[trigger] products@[k] == tensor_term(
                    g,
                    term,
                    k % w as int,
                    k / w as int,
                ),
            forall|k: int| 0 <= k < n ==> -65025 <= #[trigger] products@[k] <= 65025,
            j <= n,
            rows@.len() == j,
            forall|k: int|
                0 <= k < j ==> #[trigger] rows@[k] == row_taps(
                    g,
                    term,
                    k % w as int,
                    k / w as int,
                    r as int,
                    side as nat,
                ),
            forall|k: int|
                0 <= k < j ==> -65025 * side <= #[trigger] rows@[k] <= 65025 * side,
        decreases n - j,
    {
        proof {
            lemma_coordinates(j as int, w as int, h as int);
        }
        let x: u32 = (j % (w as usize)) as u32;
        let y: u32 = (j / (w as usize)) as u32;
        let mut acc: i64 = 0;
        let mut d: u32 = 0;
        while d < side
            invariant
                g.wf(),
                w == g.width,
                h == g.height,
                n == g.data.len(),
                x < w,
                y < h,
                r <= 32767,
                side == 2 * r + 1,
                products@.len() == n,
                forall|k: int|
                    0 <= k < n ==> #[trigger] products@[k] == tensor_term(
                        g,
                        term,
                        k % w as int,
                        k / w as int,
                    ),
                forall|k: int| 0 <= k < n ==> -65025 <= #[trigger] products@[k] <= 65025,
                d <= side,
                acc == row_taps(g, term, x as int, y as int, r as int, d as nat),
                -65025 * d <= acc <= 65025 * d,
            decreases side - d,
        {
            let tx: u32 = shifted(x, d, r, w);
            proof {
                lemma_linear_index(tx as int, y as int, w as int, h as int);
            }
            let p: usize = linear_index(tx, y, w, Ghost(h as nat), n);
            assert(products@[p as int] == tensor_term(g, term, tx as int, y as int));
            acc = acc + products[p];
            d = d + 1;
        }
        rows.push(acc);
        j = j + 1;
    }
    let mut sums: Vec<i64> = Vec::new();
    let mut q: usize = 0;
    while q < n
        invariant
            g.wf(),
            w == g.width,
            h == g.height,
            n == g.data.len(),
            r <= 32767,
            side == 2 * r + 1,
            rows@.len() == n,
            forall|k: int|
                0 <= k < n ==> #[trigger] rows@[k] == row_taps(
                    g,
                    term,
                    k % w as int,
                    k / w as int,
                    r as int,
                    side as nat,
                ),
            forall|k: int|
                0 <= k < n ==> -65025 * side <= #[trigger] rows@[k] <= 65025 * side,
            q <= n,
            sums@.len() == q,
            forall|k: int|
                0 <= k < q ==> #[trigger] sums@[k] == window_sum(
                    g,
                    term,
                    k % w as int,
                    k / w as int,
                    r as int,
                ),
        decreases n - q,
    {
        proof {
            lemma_coordinates(q as int, w as int, h as int);
        }
        let x: u32 = (q % (w as usize)) as u32;
        let y: u32 = (q / (w as usize)) as u32;
        let mut acc: i64 = 0;
        let mut d: u32 = 0;
        while d < side
            invariant
                g.wf(),
                w == g.width,
                h == g.height,
                n == g.data.len(),
                x < w,
                y < h,
                r <= 32767,
                side == 2 * r + 1,
                rows@.len() == n,
                forall|k: int|
                    0 <= k < n ==> #[trigger] rows@[k] == row_taps(
                        g,
                        term,
                        k % w as int,
                        k / w as int,
                        r as int,
                        side as nat,
                    ),
                forall|k: int|
                    0 <= k < n ==> -65025 * side <= #[trigger] rows@[k] <= 65025 * side,
                d <= side,
                acc == window_rows(g, term, x as int, y as int, r as int, d as nat),
                -65025 * side * d <= acc <= 65025 * side * d,
            decreases side - d,
        {
            let ty: u32 = shifted(y, d, r, h);
            proof {
                lemma_linear_index(x as int, ty as int, w as int, h as int);
                assert(65025 * side * d <= 65025 * 65535 * 65535) by (nonlinear_arith)
                    requires
                        0 <= d <= side <= 65535,
                ;
                assert(65025 * side * (d + 1) == 65025 * side * d + 65025 * side)
                    by (nonlinear_arith);
                assert(-65025 * side * (d + 1) == -65025 * side * d - 65025 * side)
                    by (nonlinear_arith);
                assert(-65025 * side * d == -(65025 * side * d)) by (nonlinear_arith);
            }
            let p: usize = linear_index(x, ty, w, Ghost(h as nat), n);
            assert(rows@[p as int] == row_taps(
                g,
                term,
                x as int,
                ty as int,
                r as int,
                side as nat,
            ));
            acc = acc + rows[p];
            d = d + 1;
        }
        sums.push(acc);
        q = q + 1;
    }
    sums
}

/// A constant image has no gradient: every window sum is zero.
pub proof fn law_constant_image_has_no_structure(
    image: Raster,
    term: TensorTerm,
    x: int,
    y: int,
    r: int,
    v: u8,
)
    requires
        0 < image.width,
        0 < image.height,
        0 <= r,
        forall|px: int, py: int| image.holds(px, py) ==> #[trigger] image.at(px, py) == v,
    ensures
        window_sum(image, term, x, y, r) == 0,
{
    lemma_constant_window(image, term, x, y, r, v, (2 * r + 1) as nat);
}

proof fn lemma_constant_window(
    image: Raster,
    term: TensorTerm,
    x: int,
    y: int,
    r: int,
    v: u8,
    n: nat,
)
    requires
        0 < image.width,
        0 < image.height,
        0 <= r,
        forall|px: int, py: int| image.holds(px, py) ==> #[trigger] image.at(px, py) == v,
    ensures
        window_rows(image, term, x, y, r, n) == 0,
    decreases n,
{
    if n > 0 {
        lemma_constant_window(image, term, x, y, r, v, (n - 1) as nat);
        lemma_constant_row(
            image,
            term,
            x,
            clamped(y - r + n - 1, image.height as int),
            r,
            v,
            (2 * r + 1) as nat,
        );
    }
}

proof fn lemma_constant_row(
    image: Raster,
    term: TensorTerm,
    x: int,
    y: int,
    r: int,
    v: u8,
    n: nat,
)
    requires
        0 < image.width,
        0 < image.height,
        forall|px: int, py: int| image.holds(px, py) ==> #[trigger] image.at(px, py) == v,
    ensures
        row_taps(image, term, x, y, r, n) == 0,
    decreases n,
{
    if n > 0 {
        lemma_constant_row(image, term, x, y, r, v, (n - 1) as nat);
        let px = clamped(x - r + n - 1, image.width as int);
        assert forall|a: int, b: int| #[trigger] edge_clamped(image, a, b) == v by {
            assert(image.holds(clamped(a, image.width as int), clamped(b, image.height as int)));
        }
        assert(slope_x(image, px, y) == 0);
        assert(slope_y(image, px, y) == 0);
    }
}

/// Per-pixel responses, as sort keys.
#[derive(Debug)]
pub struct ResponseMap {
    width: u32,
    height: u32,
    data: Vec<u64>,
}

/// The responses of an image.
pub struct Responses {
    pub width: nat,
    pub height: nat,
    pub data: Seq<u64>,
}

impl Responses {
    /// One response per pixel.
    pub open spec fn wf(self) -> bool {
        self.data.len() == self.width * self.height
    }

    /// Whether `(x, y)` names a pixel.
    pub open spec fn holds(self, x: int, y: int) -> bool {
        0 <= x < self.width && 0 <= y < self.height
    }

    /// The response at `(x, y)`.
    pub open spec fn at(self, x: int, y: int) -> u64 {
        self.data[y * self.width + x]
    }
}

/// The key of a zero response.
pub const ZERO_RESPONSE: u64 = 0x8000_0000_0000_0000;

impl View for ResponseMap {
    type V = Responses;

    closed spec fn view(&self) -> Responses {
        Responses { width: self.width as nat, height: self.height as nat, data: self.data@ }
    }
}

/// `peak` is the greatest response, or zero when all are below it.
pub open spec fn is_peak(data: Seq<u64>, peak: u64) -> bool {
    &&& peak >= ZERO_RESPONSE
    &&& forall|i: int| 0 <= i < data.len() ==> #[trigger] data[i] <= peak
    &&& peak == ZERO_RESPONSE || exists|i: int| 0 <= i < data.len() && #[trigger] data[i] == peak
}

impl ResponseMap {
    /// A map over row-major responses, or `None` when there is not exactly one
    /// per pixel.
    pub fn from_keys(width: u32, height: u32, data: Vec<u64>) -> (map: Option<ResponseMap>)
        ensures
            map is Some <==> data@.len() == width * height,
            map matches Some(m) ==> m@.wf() && m@ == (Responses {
                width: width as nat,
                height: height as nat,
                data: data@,
            }),
    {
        assert(width * height <= u64::MAX) by (nonlinear_arith)
            requires
                width <= u32::MAX,
                height <= u32::MAX,
        ;
        assert(0 <= width * height) by (nonlinear_arith);
        let n: u64 = (width as u64) * (height as u64);
        if data.len() as u64 == n {
            Some(ResponseMap { width, height, data })
        } else {
            None
        }
    }

    /// Map width.
    pub fn width(&self) -> (width: u32)
        ensures
            width == self@.width,
    {
        self.width
    }

    /// Map height.
    pub fn height(&self) -> (height: u32)
        ensures
            height == self@.height,
    {
        self.height
    }

    /// Row-major responses.
    pub fn data(&self) -> (data: &[u64])
        ensures
            data@ == self@.data,
    {
        self.data.as_slice()
    }

    /// Response at a pixel of the map.
    pub fn get(&self, x: u32, y: u32) -> (key: u64)
        requires
            self@.wf(),
            self@.holds(x as int, y as int),
        ensures
            key == self@.at(x as int, y as int),
    {
        let i: usize = linear_index(x, y, self.width, Ghost(self@.height), self.data.len());
        self.data[i]
    }

    /// Response at an integer pixel, clamped to the map bounds.
    pub fn at(&self, x: i32, y: i32) -> (key: u64)
        requires
            self@.wf(),
            0 < self@.width,
            0 < self@.height,
        ensures
            key == self@.at(
                clamped(x as int, self@.width as int),
                clamped(y as int, self@.height as int),
            ),
    {
        let cx: u32 = if x < 0 {
            0
        } else if x as u32 >= self.width {
            self.width - 1
        } else {
            x as u32
        };
        let cy: u32 = if y < 0 {
            0
        } else if y as u32 >= self.height {
            self.height - 1
        } else {
            y as u32
        };
        self.get(cx, cy)
    }

    /// Largest response anywhere in the map, and zero for a featureless image.
    pub fn max(&self) -> (peak: u64)
        ensures
            is_peak(self@.data, peak),
    {
        let mut peak: u64 = ZERO_RESPONSE;
        let mut i: usize = 0;
        while i < self.data.len()
            invariant
                i <= self.data@.len(),
                peak >= ZERO_RESPONSE,
                forall|k: int| 0 <= k < i ==> #[trigger] self.data@[k] <= peak,
                peak == ZERO_RESPONSE || exists|k: int|
                    0 <= k < i && #[trigger] self.data@[k] == peak,
            decreases self.data@.len() - i,
        {
            if self.data[i] > peak {
                peak = self.data[i];
            }
            i = i + 1;
        }
        peak
    }
}

/// Pixels left out at each side.
pub open spec fn margin(config: CornerConfig) -> int {
    if config.border >= config.block_radius + 1 {
        config.border as int
    } else {
        config.block_radius + 1
    }
}

/// No neighbour responds more strongly than `(x, y)`.
pub open spec fn is_local_peak(map: Responses, x: int, y: int) -> bool {
    &&& map.at(x - 1, y - 1) <= map.at(x, y)
    &&& map.at(x, y - 1) <= map.at(x, y)
    &&& map.at(x + 1, y - 1) <= map.at(x, y)
    &&& map.at(x - 1, y) <= map.at(x, y)
    &&& map.at(x + 1, y) <= map.at(x, y)
    &&& map.at(x - 1, y + 1) <= map.at(x, y)
    &&& map.at(x, y + 1) <= map.at(x, y)
    &&& map.at(x + 1, y + 1) <= map.at(x, y)
}

/// Whether pixel `(x, y)` may become a corner.
pub open spec fn is_candidate(
    map: Responses,
    config: CornerConfig,
    threshold: u64,
    x: int,
    y: int,
) -> bool {
    &&& margin(config) <= x < map.width - margin(config)
    &&& margin(config) <= y < map.height - margin(config)
    &&& map.at(x, y) >= threshold
    &&& is_local_peak(map, x, y)
}

/// Grid size along one axis: at least one.
pub open spec fn at_least_one(n: u32) -> int {
    if n >= 1 {
        n as int
    } else {
        1
    }
}

/// The grid cell of pixel `(x, y)`, row-major.
pub open spec fn grid_cell(map: Responses, config: CornerConfig, x: int, y: int) -> int {
    (y * at_least_one(config.grid_rows) / map.height as int) * at_least_one(config.grid_cols) + x
        * at_least_one(config.grid_cols) / map.width as int
}

/// Whether `a` ranks before `b`: stronger, then higher up, then further left.
pub open spec fn stronger_first(a: Corner, b: Corner) -> bool {
    a.response > b.response || (a.response == b.response && (a.y < b.y || (a.y == b.y && a.x
        < b.x)))
}

/// `c` is the candidate at its pixel.
pub open spec fn is_candidate_corner(
    map: Responses,
    config: CornerConfig,
    threshold: u64,
    c: Corner,
) -> bool {
    is_candidate(map, config, threshold, c.x as int, c.y as int) && c.response == map.at(
        c.x as int,
        c.y as int,
    )
}

/// Whether the buckets hold corner `c`.
pub open spec fn buckets_hold(cells: Seq<Seq<Corner>>, c: Corner) -> bool {
    exists|b: int, k: int|
        0 <= b < cells.len() && 0 <= k < cells[b].len() && #[trigger] cells[b][k] == c
}

/// `cells` are the candidates by grid cell: the cells in row-major order, empty
/// ones left out, and in each the candidates from the strongest down.
pub open spec fn are_buckets(
    cells: Seq<Seq<Corner>>,
    map: Responses,
    config: CornerConfig,
    threshold: u64,
) -> bool {
    &&& forall|b: int| 0 <= b < cells.len() ==> (#[trigger] cells[b]).len() > 0
    &&& forall|b: int, k: int|
        #![trigger cells[b][k]]
        0 <= b < cells.len() && 0 <= k < cells[b].len() ==> is_candidate_corner(
            map,
            config,
            threshold,
            cells[b][k],
        )
    &&& forall|b: int, k: int, l: int|
        #![trigger cells[b][k], cells[b][l]]
        0 <= b < cells.len() && 0 <= k < l < cells[b].len() ==> stronger_first(
            cells[b][k],
            cells[b][l],
        ) && grid_cell(map, config, cells[b][k].x as int, cells[b][k].y as int) == grid_cell(
            map,
            config,
            cells[b][l].x as int,
            cells[b][l].y as int,
        )
    &&& forall|a: int, b: int, k: int, l: int|
        #![trigger cells[a][k], cells[b][l]]
        0 <= a < b < cells.len() && 0 <= k < cells[a].len() && 0 <= l < cells[b].len()
            ==> grid_cell(map, config, cells[a][k].x as int, cells[a][k].y as int) < grid_cell(
            map,
            config,
            cells[b][l].x as int,
            cells[b][l].y as int,
        )
    &&& forall|c: Corner|
        is_candidate_corner(map, config, threshold, c) ==> #[trigger] buckets_hold(cells, c)
}

/// Position of a corner's pixel in raster order.
spec fn raster_position(map: Responses, c: Corner) -> int {
    c.y * map.width + c.x
}

/// `found` lists corners by increasing raster position.
spec fn in_raster_order(map: Responses, found: Seq<Corner>) -> bool {
    forall|a: int, b: int|
        #![trigger found[a], found[b]]
        0 <= a < b < found.len() ==> raster_position(map, found[a]) < raster_position(map, found[b])
}

/// Whether a pixel of the map may become a corner.
fn candidate_at(map: &ResponseMap, config: &CornerConfig, threshold: u64, x: u32, y: u32) -> (yes:
    bool)
    requires
        map@.wf(),
        map@.holds(x as int, y as int),
    ensures
        yes == is_candidate(map@, *config, threshold, x as int, y as int),
{
    let w: u64 = map.width() as u64;
    let h: u64 = map.height() as u64;
    let floor: u64 = (config.block_radius as u64) + 1;
    let m: u64 = if config.border as u64 >= floor {
        config.border as u64
    } else {
        floor
    };
    let inside: bool = (x as u64) >= m && (x as u64) + m < w && (y as u64) >= m && (y as u64) + m
        < h;
    if !inside {
        return false;
    }
    let r: u64 = map.get(x, y);
    r >= threshold && map.get(x - 1, y - 1) <= r && map.get(x, y - 1) <= r && map.get(x + 1, y - 1)
        <= r && map.get(x - 1, y) <= r && map.get(x + 1, y) <= r && map.get(x - 1, y + 1) <= r
        && map.get(x, y + 1) <= r && map.get(x + 1, y + 1) <= r
}

/// Every candidate, in raster order.
fn collect_candidates(map: &ResponseMap, config: &CornerConfig, threshold: u64) -> (found: Vec<
    Corner,
>)
    requires
        map@.wf(),
    ensures
        in_raster_order(map@, found@),
        forall|k: int|
            0 <= k < found@.len() ==> is_candidate_corner(
                map@,
                *config,
                threshold,
                #[trigger] found@[k],
            ),
        forall|c: Corner| #[trigger]
            is_candidate_corner(map@, *config, threshold, c) ==> found@.contains(c),
{
    let w: u32 = map.width();
    let h: u32 = map.height();
    let ghost g = map@;
    let n: usize = map.data().len();
    let mut found: Vec<Corner> = Vec::new();
    let mut i: usize = 0;
    while i < n
        invariant
            g == map@,
            g.wf(),
            w == g.width,
            h == g.height,
            n == g.data.len(),
            i <= n,
            in_raster_order(g, found@),
            forall|k: int|
                #![trigger found@[k]]
                0 <= k < found@.len() ==> is_candidate_corner(g, *config, threshold, found@[k])
                    && raster_position(g, found@[k]) < i,
            forall|c: Corner| #[trigger]
                is_candidate_corner(g, *config, threshold, c) && raster_position(g, c) < i
                    ==> found@.contains(c),
        decreases n - i,
    {
        proof {
            lemma_coordinates(i as int, w as int, h as int);
        }
        let x: u32 = (i % (w as usize)) as u32;
        let y: u32 = (i / (w as usize)) as u32;
        let ghost before = found@;
        let yes: bool = candidate_at(map, config, threshold, x, y);
        if yes {
            found.push(Corner { x, y, response: map.get(x, y) });
        }
        proof {
            assert forall|c: Corner| #[trigger]
                is_candidate_corner(g, *config, threshold, c) && raster_position(g, c) < i
                    + 1 implies found@.contains(c) by {
                if raster_position(g, c) < i {
                    assert(before.contains(c));
                    let k = choose|k: int| 0 <= k < before.len() && before[k] == c;
                    assert(found@[k] == c);
                } else {
                    lemma_linear_index(c.x as int, c.y as int, w as int, h as int);
                    assert(c.x == x && c.y == y);
                    assert(found@[before.len() as int] == c);
                }
            }
        }
        i = i + 1;
    }
    proof {
        assert forall|c: Corner| #[trigger]
            is_candidate_corner(g, *config, threshold, c) implies found@.contains(c) by {
            lemma_linear_index(c.x as int, c.y as int, w as int, h as int);
        }
    }
    found
}

/// Grid cells are numbered within 64 bits.
proof fn lemma_grid_cell_bounds(map: Responses, config: CornerConfig, x: int, y: int)
    requires
        map.holds(x, y),
        map.width <= u32::MAX,
        map.height <= u32::MAX,
    ensures
        0 <= y * at_least_one(config.grid_rows) <= u64::MAX,
        0 <= x * at_least_one(config.grid_cols) <= u64::MAX,
        0 <= y * at_least_one(config.grid_rows) / map.height as int,
        0 <= (y * at_least_one(config.grid_rows) / map.height as int) * at_least_one(
            config.grid_cols,
        ) <= grid_cell(map, config, x, y) <= u64::MAX,
{
    let rows = at_least_one(config.grid_rows);
    let cols = at_least_one(config.grid_cols);
    let w = map.width as int;
    let h = map.height as int;
    let cy = y * rows / h;
    let cx = x * cols / w;
    assert(0 <= y * rows <= u64::MAX && y * rows < h * rows) by (nonlinear_arith)
        requires
            0 <= y < h,
            h <= u32::MAX,
            1 <= rows <= u32::MAX,
    ;
    assert(0 <= x * cols <= u64::MAX && x * cols < w * cols) by (nonlinear_arith)
        requires
            0 <= x < w,
            w <= u32::MAX,
            1 <= cols <= u32::MAX,
    ;
    assert(0 <= cy < rows) by {
        vstd::arithmetic::div_mod::lemma_div_pos_is_pos(y * rows, h);
        vstd::arithmetic::div_mod::lemma_multiply_divide_lt(y * rows, h, rows);
        assert(h * rows == rows * h) by (nonlinear_arith);
    }
    assert(0 <= cx < cols) by {
        vstd::arithmetic::div_mod::lemma_div_pos_is_pos(x * cols, w);
        vstd::arithmetic::div_mod::lemma_multiply_divide_lt(x * cols, w, cols);
        assert(w * cols == cols * w) by (nonlinear_arith);
    }
    assert(0 <= cy * cols <= cy * cols + cx <= u64::MAX) by (nonlinear_arith)
        requires
            0 <= cy < rows,
            0 <= cx < cols,
            rows <= u32::MAX,
            cols <= u32::MAX,
    ;
}

/// The grid cell of a pixel.
fn cell_of(map: &ResponseMap, config: &CornerConfig, x: u32, y: u32) -> (cell: u64)
    requires
        map@.holds(x as int, y as int),
    ensures
        cell == grid_cell(map@, *config, x as int, y as int),
{
    let w: u64 = map.width() as u64;
    let h: u64 = map.height() as u64;
    let cols: u64 = if config.grid_cols >= 1 {
        config.grid_cols as u64
    } else {
        1
    };
    let rows: u64 = if config.grid_rows >= 1 {
        config.grid_rows as u64
    } else {
        1
    };
    proof {
        lemma_grid_cell_bounds(map@, *config, x as int, y as int);
    }
    let cy: u64 = ((y as u64) * rows) / h;
    let cx: u64 = ((x as u64) * cols) / w;
    cy * cols + cx
}

/// The rank of a candidate: its cell, then stronger first, then raster order.
spec fn rank_key(map: Responses, config: CornerConfig, c: Corner) -> SortKey {
    SortKey {
        major: grid_cell(map, config, c.x as int, c.y as int) as u64,
        minor: (u64::MAX - c.response) as u64,
        last: raster_position(map, c) as u64,
    }
}

/// In one cell, ranking before means being stronger first.
proof fn lemma_rank_order(
    map: Responses,
    config: CornerConfig,
    threshold: u64,
    found: Seq<Corner>,
    keys: Seq<SortKey>,
    i: int,
    j: int,
)
    requires
        map.wf(),
        map.width <= u32::MAX,
        map.height <= u32::MAX,
        map.data.len() <= u64::MAX,
        in_raster_order(map, found),
        keys.len() == found.len(),
        forall|k: int|
            0 <= k < found.len() ==> #[trigger] keys[k] == rank_key(map, config, found[k]),
        forall|k: int|
            0 <= k < found.len() ==> is_candidate_corner(map, config, threshold, #[trigger] found[k]),
        0 <= i < found.len(),
        0 <= j < found.len(),
        comes_before(keys, i, j),
    ensures
        ({
            let a = grid_cell(map, config, found[i].x as int, found[i].y as int);
            let b = grid_cell(map, config, found[j].x as int, found[j].y as int);
            a < b || (a == b && stronger_first(found[i], found[j]))
        }),
{
    let p = found[i];
    let q = found[j];
    assert(is_candidate_corner(map, config, threshold, p));
    assert(is_candidate_corner(map, config, threshold, q));
    lemma_grid_cell_bounds(map, config, p.x as int, p.y as int);
    lemma_grid_cell_bounds(map, config, q.x as int, q.y as int);
    lemma_linear_index(p.x as int, p.y as int, map.width as int, map.height as int);
    lemma_linear_index(q.x as int, q.y as int, map.width as int, map.height as int);
    assert(keys[i] == rank_key(map, config, p) && keys[j] == rank_key(map, config, q));
    let lp = raster_position(map, p);
    let lq = raster_position(map, q);
    if keys[i] == keys[j] {
        assert(lp == lq);
        assert(raster_position(map, found[i]) < raster_position(map, found[j]));
    } else if keys[i].major == keys[j].major && keys[i].minor == keys[j].minor {
        assert(lp < lq);
        let w = map.width as int;
        if p.y > q.y {
            assert(p.y * w >= q.y * w + w) by (nonlinear_arith)
                requires
                    p.y >= q.y + 1,
                    w >= 0,
            ;
        }
    }
}

/// The candidates by grid cell.
spec fn bucket_view(cells: Seq<Vec<Corner>>) -> Seq<Seq<Corner>> {
    cells.map_values(|v: Vec<Corner>| v@)
}

/// Group the candidates by grid cell, strongest first in each.
fn bucket_candidates(map: &ResponseMap, config: &CornerConfig, threshold: u64) -> (cells: Vec<
    Vec<Corner>,
>)
    requires
        map@.wf(),
    ensures
        are_buckets(bucket_view(cells@), map@, *config, threshold),
{
    let ghost g = map@;
    let ghost cfg = *config;
    let n: usize = map.data().len();
    let w: u32 = map.width();
    let h: u32 = map.height();
    let found: Vec<Corner> = collect_candidates(map, config, threshold);
    let mut keys: Vec<SortKey> = Vec::new();
    let mut i: usize = 0;
    while i < found.len()
        invariant
            g == map@,
            g.wf(),
            w == g.width,
            h == g.height,
            n == g.data.len(),
            cfg == *config,
            i <= found@.len(),
            keys@.len() == i,
            forall|k: int|
                0 <= k < found@.len() ==> is_candidate_corner(g, cfg, threshold, #[trigger] found@[k]),
            forall|k: int|
                0 <= k < i ==> #[trigger] keys@[k] == rank_key(g, cfg, found@[k]),
        decreases found@.len() - i,
    {
        let c: Corner = found[i];
        assert(is_candidate_corner(g, cfg, threshold, found@[i as int]));
        let cell: u64 = cell_of(map, config, c.x, c.y);
        let at: usize = linear_index(c.x, c.y, w, Ghost(h as nat), n);
        keys.push(
            SortKey {
                major: cell,
                minor: 0xffff_ffff_ffff_ffffu64 - c.response,
                last: at as u64,
            },
        );
        i = i + 1;
    }
    let order: Vec<usize> = stable_order(&keys);
    let mut cells: Vec<Vec<Corner>> = Vec::new();
    let mut p: usize = 0;
    while p < order.len()
        invariant
            g == map@,
            g.wf(),
            w == g.width,
            h == g.height,
            n == g.data.len(),
            cfg == *config,
            in_raster_order(g, found@),
            keys@.len() == found@.len(),
            forall|k: int|
                0 <= k < found@.len() ==> is_candidate_corner(g, cfg, threshold, #[trigger] found@[k]),
            forall|k: int|
                0 <= k < found@.len() ==> #[trigger] keys@[k] == rank_key(g, cfg, found@[k]),
            is_stable_order(keys@, order@),
            p <= order@.len(),
            p == 0 <==> cells@.len() == 0,
            forall|b: int| 0 <= b < cells@.len() ==> (#[trigger] cells@[b])@.len() > 0,
            p > 0 ==> cells@.last()@.last() == found@[order@[p - 1] as int],
            forall|b: int, k: int|
                #![trigger cells@[b]@[k]]
                0 <= b < cells@.len() && 0 <= k < cells@[b]@.len() ==> is_candidate_corner(
                    g,
                    cfg,
                    threshold,
                    cells@[b]@[k],
                ),
            forall|b: int, k: int, l: int|
                #![trigger cells@[b]@[k], cells@[b]@[l]]
                0 <= b < cells@.len() && 0 <= k < l < cells@[b]@.len() ==> stronger_first(
                    cells@[b]@[k],
                    cells@[b]@[l],
                ) && grid_cell(g, cfg, cells@[b]@[k].x as int, cells@[b]@[k].y as int)
                    == grid_cell(g, cfg, cells@[b]@[l].x as int, cells@[b]@[l].y as int),
            forall|a: int, b: int, k: int, l: int|
                #![trigger cells@[a]@[k], cells@[b]@[l]]
                0 <= a < b < cells@.len() && 0 <= k < cells@[a]@.len() && 0 <= l < cells@[b]@.len()
                    ==> grid_cell(g, cfg, cells@[a]@[k].x as int, cells@[a]@[k].y as int)
                    < grid_cell(g, cfg, cells@[b]@[l].x as int, cells@[b]@[l].y as int),
            forall|q: int|
                #![trigger order@[q]]
                0 <= q < p ==> exists|b: int, k: int|
                    0 <= b < cells@.len() && 0 <= k < cells@[b]@.len() && #[trigger] cells@[b]@[k]
                        == found@[order@[q] as int],
        decreases order@.len() - p,
    {
        let idx: usize = order[p];
        assert(0 <= idx < found@.len());
        let c: Corner = found[idx];
        assert(is_candidate_corner(g, cfg, threshold, found@[idx as int]));
        let ghost before = cells@;
        let cell: u64 = cell_of(map, config, c.x, c.y);
        let joins: bool = if cells.len() == 0 {
            false
        } else {
            let last: usize = cells.len() - 1;
            let tail: usize = cells[last].len() - 1;
            let prev: Corner = cells[last][tail];
            proof {
                assert(comes_before(keys@, order@[p - 1] as int, order@[p as int] as int));
                lemma_rank_order(
                    g,
                    cfg,
                    threshold,
                    found@,
                    keys@,
                    order@[p - 1] as int,
                    idx as int,
                );
                assert(is_candidate_corner(g, cfg, threshold, cells@[last as int]@[tail as int]));
            }
            cell_of(map, config, prev.x, prev.y) == cell
        };
        if joins {
            let last: usize = cells.len() - 1;
            cells[last].push(c);
            proof {
                let z = last as int;
                let t = before[z]@.len() as int;
                assert(cells@[z]@ == before[z]@.push(c));
                assert forall|b: int| 0 <= b < before.len() && b != z implies cells@[b] == before[b] by {}
                assert forall|b: int, k: int, l: int|
                    #![trigger cells@[b]@[k], cells@[b]@[l]]
                    0 <= b < cells@.len() && 0 <= k < l < cells@[b]@.len() implies stronger_first(
                    cells@[b]@[k],
                    cells@[b]@[l],
                ) && grid_cell(g, cfg, cells@[b]@[k].x as int, cells@[b]@[k].y as int) == grid_cell(
                    g,
                    cfg,
                    cells@[b]@[l].x as int,
                    cells@[b]@[l].y as int,
                ) by {
                    if b == z && l == t {
                        assert(cells@[b]@[k] == before[z]@[k]);
                        if k < t - 1 {
                            assert(stronger_first(before[z]@[k], before[z]@[t - 1]));
                        }
                    } else {
                        assert(cells@[b]@[k] == before[b]@[k]);
                        assert(cells@[b]@[l] == before[b]@[l]);
                    }
                }
                assert forall|a: int, b: int, k: int, l: int|
                    #![trigger cells@[a]@[k], cells@[b]@[l]]
                    0 <= a < b < cells@.len() && 0 <= k < cells@[a]@.len() && 0 <= l
                        < cells@[b]@.len() implies grid_cell(
                    g,
                    cfg,
                    cells@[a]@[k].x as int,
                    cells@[a]@[k].y as int,
                ) < grid_cell(g, cfg, cells@[b]@[l].x as int, cells@[b]@[l].y as int) by {
                    assert(cells@[a]@[k] == before[a]@[k]);
                    if b == z && l == t {
                        assert(grid_cell(g, cfg, before[a]@[k].x as int, before[a]@[k].y as int)
                            < grid_cell(
                            g,
                            cfg,
                            before[z]@[t - 1].x as int,
                            before[z]@[t - 1].y as int,
                        ));
                    } else {
                        assert(cells@[b]@[l] == before[b]@[l]);
                    }
                }
                assert forall|q: int|
                    #![trigger order@[q]]
                    0 <= q < p + 1 implies exists|b: int, k: int|
                    0 <= b < cells@.len() && 0 <= k < cells@[b]@.len() && #[trigger] cells@[b]@[k]
                        == found@[order@[q] as int] by {
                    if q < p {
                        let (b, k) = choose|b: int, k: int|
                            0 <= b < before.len() && 0 <= k < before[b]@.len()
                                && #[trigger] before[b]@[k] == found@[order@[q] as int];
                        assert(cells@[b]@[k] == found@[order@[q] as int]);
                    } else {
                        assert(cells@[z]@[t] == c);
                    }
                }
            }
        } else {
            let mut fresh: Vec<Corner> = Vec::new();
            fresh.push(c);
            cells.push(fresh);
            proof {
                let z = before.len() as int;
                assert(cells@[z]@ =~= seq![c]);
                assert forall|b: int| 0 <= b < before.len() implies cells@[b] == before[b] by {}
                assert forall|b: int, k: int, l: int|
                    #![trigger cells@[b]@[k], cells@[b]@[l]]
                    0 <= b < cells@.len() && 0 <= k < l < cells@[b]@.len() implies stronger_first(
                    cells@[b]@[k],
                    cells@[b]@[l],
                ) && grid_cell(g, cfg, cells@[b]@[k].x as int, cells@[b]@[k].y as int) == grid_cell(
                    g,
                    cfg,
                    cells@[b]@[l].x as int,
                    cells@[b]@[l].y as int,
                ) by {
                    assert(cells@[b]@[k] == before[b]@[k]);
                    assert(cells@[b]@[l] == before[b]@[l]);
                }
                assert forall|a: int, b: int, k: int, l: int|
                    #![trigger cells@[a]@[k], cells@[b]@[l]]
                    0 <= a < b < cells@.len() && 0 <= k < cells@[a]@.len() && 0 <= l
                        < cells@[b]@.len() implies grid_cell(
                    g,
                    cfg,
                    cells@[a]@[k].x as int,
                    cells@[a]@[k].y as int,
                ) < grid_cell(g, cfg, cells@[b]@[l].x as int, cells@[b]@[l].y as int) by {
                    assert(cells@[a]@[k] == before[a]@[k]);
                    if b == z {
                        let y = before.len() - 1;
                        let t = before[y]@.len() - 1;
                        assert(before[y]@[t] == found@[order@[p - 1] as int]);
                        if a < y {
                            assert(grid_cell(
                                g,
                                cfg,
                                before[a]@[k].x as int,
                                before[a]@[k].y as int,
                            ) < grid_cell(g, cfg, before[y]@[t].x as int, before[y]@[t].y as int));
                        } else if k < t {
                            assert(stronger_first(before[y]@[k], before[y]@[t]));
                        }
                    } else {
                        assert(cells@[b]@[l] == before[b]@[l]);
                    }
                }
                assert forall|q: int|
                    #![trigger order@[q]]
                    0 <= q < p + 1 implies exists|b: int, k: int|
                    0 <= b < cells@.len() && 0 <= k < cells@[b]@.len() && #[trigger] cells@[b]@[k]
                        == found@[order@[q] as int] by {
                    if q < p {
                        let (b, k) = choose|b: int, k: int|
                            0 <= b < before.len() && 0 <= k < before[b]@.len()
                                && #[trigger] before[b]@[k] == found@[order@[q] as int];
                        assert(cells@[b]@[k] == found@[order@[q] as int]);
                    } else {
                        assert(cells@[z]@[0] == c);
                    }
                }
            }
        }
        p = p + 1;
    }
    proof {
        let view = bucket_view(cells@);
        assert forall|b: int| 0 <= b < view.len() implies #[trigger] view[b] == cells@[b]@ by {}
        assert forall|b: int, k: int, l: int|
            #![trigger view[b][k], view[b][l]]
            0 <= b < view.len() && 0 <= k < l < view[b].len() implies stronger_first(
            view[b][k],
            view[b][l],
        ) && grid_cell(g, cfg, view[b][k].x as int, view[b][k].y as int) == grid_cell(
            g,
            cfg,
            view[b][l].x as int,
            view[b][l].y as int,
        ) by {
            assert(cells@[b]@[k] == view[b][k] && cells@[b]@[l] == view[b][l]);
        }
        assert forall|a: int, b: int, k: int, l: int|
            #![trigger view[a][k], view[b][l]]
            0 <= a < b < view.len() && 0 <= k < view[a].len() && 0 <= l
                < view[b].len() implies grid_cell(g, cfg, view[a][k].x as int, view[a][k].y as int)
            < grid_cell(g, cfg, view[b][l].x as int, view[b][l].y as int) by {
            assert(cells@[a]@[k] == view[a][k] && cells@[b]@[l] == view[b][l]);
        }
        assert forall|c: Corner|
            is_candidate_corner(g, cfg, threshold, c) implies #[trigger] buckets_hold(view, c) by {
            assert(found@.contains(c));
            let f = choose|f: int| 0 <= f < found@.len() && found@[f] == c;
            assert(lists(order@, f));
            let q = choose|q: int| 0 <= q < order@.len() && #[trigger] order@[q] == f;
            let (b, k) = choose|b: int, k: int|
                0 <= b < cells@.len() && 0 <= k < cells@[b]@.len() && #[trigger] cells@[b]@[k]
                    == found@[order@[q] as int];
            assert(view[b][k] == c);
        }
    }
    cells
}

/// Whether two corners are closer than the minimum distance, given as the
/// smallest squared distance that is allowed.
pub open spec fn too_close(a: Corner, b: Corner, min_distance_sq: u64) -> bool {
    (a.x - b.x) * (a.x - b.x) + (a.y - b.y) * (a.y - b.y) < min_distance_sq
}

/// Where and how corners may be placed.
pub struct Spacing {
    pub width: nat,
    /// Pixels too close to something that is tracked already, row-major.
    pub taken: Seq<bool>,
    pub min_distance_sq: u64,
    pub max_corners: nat,
}

/// Whether `c` keeps its distance from what is tracked and from `picked`.
pub open spec fn is_free(rule: Spacing, picked: Seq<Corner>, c: Corner) -> bool {
    &&& !rule.taken[c.y * rule.width + c.x]
    &&& forall|k: int|
        0 <= k < picked.len() ==> !too_close(#[trigger] picked[k], c, rule.min_distance_sq)
}

/// First free corner of a bucket from position `from` on, or its length.
pub open spec fn next_free(rule: Spacing, picked: Seq<Corner>, cell: Seq<Corner>, from: int) -> int
    decreases cell.len() - from,
{
    if from >= cell.len() {
        cell.len() as int
    } else if is_free(rule, picked, cell[from]) {
        from
    } else {
        next_free(rule, picked, cell, from + 1)
    }
}

/// How far the selection has come: where each bucket stands, and the corners.
pub struct Progress {
    pub cursor: Seq<int>,
    pub picked: Seq<Corner>,
}

/// One visit to bucket `b`: its next free corner is picked, unless there are
/// corners enough.
pub open spec fn visited(rule: Spacing, cells: Seq<Seq<Corner>>, s: Progress, b: int) -> Progress {
    if s.picked.len() >= rule.max_corners {
        s
    } else {
        let at = next_free(rule, s.picked, cells[b], s.cursor[b]);
        if at < cells[b].len() {
            Progress {
                cursor: s.cursor.update(b, at + 1),
                picked: s.picked.push(cells[b][at]),
            }
        } else {
            Progress { cursor: s.cursor.update(b, at), picked: s.picked }
        }
    }
}

/// One round: the first `n` buckets are visited in turn.
pub open spec fn round(rule: Spacing, cells: Seq<Seq<Corner>>, s: Progress, n: nat) -> Progress
    decreases n,
{
    if n == 0 {
        s
    } else {
        visited(rule, cells, round(rule, cells, s, (n - 1) as nat), n - 1)
    }
}

/// Rounds until one picks nothing or there are corners enough.
pub open spec fn rounds(rule: Spacing, cells: Seq<Seq<Corner>>, s: Progress) -> Progress
    decreases rule.max_corners - s.picked.len(),
{
    let t = round(rule, cells, s, cells.len());
    if t.picked.len() > s.picked.len() && t.picked.len() < rule.max_corners {
        rounds(rule, cells, t)
    } else {
        t
    }
}

/// The corners picked from the buckets, in the order in which they are picked.
pub open spec fn spread_corners(rule: Spacing, cells: Seq<Seq<Corner>>) -> Seq<Corner> {
    rounds(
        rule,
        cells,
        Progress { cursor: Seq::new(cells.len(), |b: int| 0int), picked: seq![] },
    ).picked
}

/// What every stage of the selection keeps.
spec fn keeps_spacing(rule: Spacing, cells: Seq<Seq<Corner>>, s: Progress) -> bool {
    &&& s.cursor.len() == cells.len()
    &&& s.picked.len() <= rule.max_corners
    &&& forall|b: int| 0 <= b < cells.len() ==> 0 <= #[trigger] s.cursor[b] <= cells[b].len()
    &&& forall|k: int|
        #![trigger s.picked[k]]
        0 <= k < s.picked.len() ==> buckets_hold(cells, s.picked[k]) && !rule.taken[s.picked[k].y
            * rule.width + s.picked[k].x]
    &&& forall|k: int, l: int|
        #![trigger s.picked[k], s.picked[l]]
        0 <= k < l < s.picked.len() ==> !too_close(s.picked[k], s.picked[l], rule.min_distance_sq)
    &&& forall|b: int, k: int|
        #![trigger cells[b][k]]
        0 <= b < cells.len() && 0 <= k < s.cursor[b] ==> s.picked.contains(cells[b][k]) || !is_free(
            rule,
            s.picked,
            cells[b][k],
        )
}

proof fn lemma_next_free(rule: Spacing, picked: Seq<Corner>, cell: Seq<Corner>, from: int)
    requires
        0 <= from <= cell.len(),
    ensures
        ({
            let at = next_free(rule, picked, cell, from);
            &&& from <= at <= cell.len()
            &&& at < cell.len() ==> is_free(rule, picked, cell[at])
            &&& forall|k: int| from <= k < at ==> !is_free(rule, picked, #[trigger] cell[k])
        }),
    decreases cell.len() - from,
{
    if from < cell.len() && !is_free(rule, picked, cell[from]) {
        lemma_next_free(rule, picked, cell, from + 1);
    }
}

/// What is not free stays not free as corners are added.
proof fn lemma_free_shrinks(rule: Spacing, picked: Seq<Corner>, more: Corner, c: Corner)
    ensures
        is_free(rule, picked.push(more), c) ==> is_free(rule, picked, c),
{
    if is_free(rule, picked.push(more), c) {
        assert forall|k: int| 0 <= k < picked.len() implies !too_close(
            #[trigger] picked[k],
            c,
            rule.min_distance_sq,
        ) by {
            assert(picked.push(more)[k] == picked[k]);
        }
    }
}

proof fn lemma_visit_keeps_spacing(rule: Spacing, cells: Seq<Seq<Corner>>, s: Progress, b: int)
    requires
        keeps_spacing(rule, cells, s),
        0 <= b < cells.len(),
    ensures
        keeps_spacing(rule, cells, visited(rule, cells, s, b)),
        visited(rule, cells, s, b).picked.len() >= s.picked.len(),
        visited(rule, cells, s, b).picked.len() == s.picked.len() && s.picked.len()
            < rule.max_corners ==> visited(rule, cells, s, b).cursor[b] == cells[b].len()
            && visited(rule, cells, s, b).picked == s.picked,
        forall|c: int|
            #![trigger s.cursor[c]]
            0 <= c < cells.len() && c != b ==> visited(rule, cells, s, b).cursor[c] == s.cursor[c],
{
    if s.picked.len() < rule.max_corners {
        assert(0 <= s.cursor[b] <= cells[b].len());
        lemma_next_free(rule, s.picked, cells[b], s.cursor[b]);
        let at = next_free(rule, s.picked, cells[b], s.cursor[b]);
        let t = visited(rule, cells, s, b);
        if at < cells[b].len() {
            let c = cells[b][at];
            assert(buckets_hold(cells, c));
            assert forall|k: int, l: int|
                #![trigger t.picked[k], t.picked[l]]
                0 <= k < l < t.picked.len() implies !too_close(
                t.picked[k],
                t.picked[l],
                rule.min_distance_sq,
            ) by {
                assert(t.picked[k] == s.picked[k]);
                if l == s.picked.len() {
                    assert(is_free(rule, s.picked, c));
                } else {
                    assert(t.picked[l] == s.picked[l]);
                }
            }
            assert forall|d: int, k: int|
                #![trigger cells[d][k]]
                0 <= d < cells.len() && 0 <= k < t.cursor[d] implies t.picked.contains(cells[d][k])
                || !is_free(rule, t.picked, cells[d][k]) by {
                lemma_free_shrinks(rule, s.picked, c, cells[d][k]);
                if d == b && k == at {
                    assert(t.picked[s.picked.len() as int] == c);
                } else if k < s.cursor[d] {
                    if s.picked.contains(cells[d][k]) {
                        let m = choose|m: int|
                            0 <= m < s.picked.len() && s.picked[m] == cells[d][k];
                        assert(t.picked[m] == cells[d][k]);
                    }
                } else {
                    assert(!is_free(rule, s.picked, cells[b][k]));
                }
            }
        } else {
            assert forall|d: int, k: int|
                #![trigger cells[d][k]]
                0 <= d < cells.len() && 0 <= k < t.cursor[d] implies t.picked.contains(cells[d][k])
                || !is_free(rule, t.picked, cells[d][k]) by {
                if d == b && k >= s.cursor[d] {
                    assert(!is_free(rule, s.picked, cells[b][k]));
                }
            }
        }
    }
}

proof fn lemma_round_keeps_spacing(rule: Spacing, cells: Seq<Seq<Corner>>, s: Progress, n: nat)
    requires
        keeps_spacing(rule, cells, s),
        n <= cells.len(),
    ensures
        keeps_spacing(rule, cells, round(rule, cells, s, n)),
        round(rule, cells, s, n).picked.len() >= s.picked.len(),
        round(rule, cells, s, n).picked.len() == s.picked.len() && s.picked.len()
            < rule.max_corners ==> round(rule, cells, s, n).picked == s.picked && forall|b: int|
            0 <= b < n ==> #[trigger] round(rule, cells, s, n).cursor[b] == cells[b].len(),
    decreases n,
{
    if n > 0 {
        lemma_round_keeps_spacing(rule, cells, s, (n - 1) as nat);
        let t = round(rule, cells, s, (n - 1) as nat);
        lemma_visit_keeps_spacing(rule, cells, t, n - 1);
        let u = round(rule, cells, s, n);
        if u.picked.len() == s.picked.len() && s.picked.len() < rule.max_corners {
            assert forall|b: int| 0 <= b < n implies #[trigger] u.cursor[b] == cells[b].len() by {
                if b < n - 1 {
                    assert(t.cursor[b] == cells[b].len());
                }
            }
        }
    }
}

proof fn lemma_rounds_keep_spacing(rule: Spacing, cells: Seq<Seq<Corner>>, s: Progress)
    requires
        keeps_spacing(rule, cells, s),
    ensures
        keeps_spacing(rule, cells, rounds(rule, cells, s)),
        rounds(rule, cells, s).picked.len() < rule.max_corners ==> forall|b: int|
            0 <= b < cells.len() ==> #[trigger] rounds(rule, cells, s).cursor[b] == cells[b].len(),
    decreases rule.max_corners - s.picked.len(),
{
    let t = round(rule, cells, s, cells.len());
    lemma_round_keeps_spacing(rule, cells, s, cells.len());
    if t.picked.len() > s.picked.len() && t.picked.len() < rule.max_corners {
        lemma_rounds_keep_spacing(rule, cells, t);
    }
}

proof fn lemma_selection_keeps_spacing(rule: Spacing, cells: Seq<Seq<Corner>>) -> (last: Progress)
    ensures
        keeps_spacing(rule, cells, last),
        last.picked == spread_corners(rule, cells),
        last.picked.len() < rule.max_corners ==> forall|b: int|
            0 <= b < cells.len() ==> #[trigger] last.cursor[b] == cells[b].len(),
{
    let s = Progress { cursor: Seq::new(cells.len(), |b: int| 0int), picked: seq![] };
    lemma_rounds_keep_spacing(rule, cells, s);
    rounds(rule, cells, s)
}

/// No more corners come out than were asked for.
pub proof fn law_corner_count_is_bounded(rule: Spacing, cells: Seq<Seq<Corner>>)
    ensures
        spread_corners(rule, cells).len() <= rule.max_corners,
{
    let _ = lemma_selection_keeps_spacing(rule, cells);
}

/// Corners keep the minimum distance from each other.
pub proof fn law_corners_keep_their_distance(
    rule: Spacing,
    cells: Seq<Seq<Corner>>,
    k: int,
    l: int,
)
    requires
        0 <= k < l < spread_corners(rule, cells).len(),
    ensures
        !too_close(
            spread_corners(rule, cells)[k],
            spread_corners(rule, cells)[l],
            rule.min_distance_sq,
        ),
{
    let last = lemma_selection_keeps_spacing(rule, cells);
    assert(!too_close(last.picked[k], last.picked[l], rule.min_distance_sq));
}

/// Corners are candidates, and none is where something is tracked already.
pub proof fn law_corners_avoid_what_is_tracked(rule: Spacing, cells: Seq<Seq<Corner>>, k: int)
    requires
        0 <= k < spread_corners(rule, cells).len(),
    ensures
        buckets_hold(cells, spread_corners(rule, cells)[k]),
        !rule.taken[spread_corners(rule, cells)[k].y * rule.width + spread_corners(
            rule,
            cells,
        )[k].x],
{
    let last = lemma_selection_keeps_spacing(rule, cells);
    assert(buckets_hold(cells, last.picked[k]));
}

/// No candidate is passed over without cause: when fewer corners come out than
/// were asked for, every candidate is a corner, is taken, or is too close to a
/// corner.
pub proof fn law_no_candidate_is_passed_over(rule: Spacing, cells: Seq<Seq<Corner>>, c: Corner)
    requires
        spread_corners(rule, cells).len() < rule.max_corners,
        buckets_hold(cells, c),
    ensures
        spread_corners(rule, cells).contains(c) || !is_free(rule, spread_corners(rule, cells), c),
{
    let last = lemma_selection_keeps_spacing(rule, cells);
    let (b, k) = choose|b: int, k: int|
        0 <= b < cells.len() && 0 <= k < cells[b].len() && #[trigger] cells[b][k] == c;
    assert(last.cursor[b] == cells[b].len());
}

/// The spread is enforced: while corners are wanted, every bucket that has a
/// free candidate left gives its best one before any bucket gives a second.
pub proof fn law_every_bucket_gives_in_turn(
    rule: Spacing,
    cells: Seq<Seq<Corner>>,
    s: Progress,
    b: int,
)
    requires
        0 <= b < cells.len(),
        s.cursor.len() == cells.len(),
        0 <= s.cursor[b] <= cells[b].len(),
        s.picked.len() < rule.max_corners,
    ensures
        ({
            let at = next_free(rule, s.picked, cells[b], s.cursor[b]);
            visited(rule, cells, s, b).picked == (if at < cells[b].len() {
                s.picked.push(cells[b][at])
            } else {
                s.picked
            })
        }),
        visited(rule, cells, s, b).picked.len() <= s.picked.len() + 1,
{
}

/// Whether a corner keeps its distance.
fn corner_is_free(
    taken: &Vec<bool>,
    width: u32,
    Ghost(height): Ghost<nat>,
    min_distance_sq: u64,
    picked: &Vec<Corner>,
    c: Corner,
    Ghost(rule): Ghost<Spacing>,
) -> (free: bool)
    requires
        taken@.len() == width * height,
        c.x < width,
        c.y < height,
        rule.width == width,
        rule.taken == taken@,
        rule.min_distance_sq == min_distance_sq,
    ensures
        free == is_free(rule, picked@, c),
{
    let at: usize = linear_index(c.x, c.y, width, Ghost(height), taken.len());
    if taken[at] {
        return false;
    }
    let mut k: usize = 0;
    while k < picked.len()
        invariant
            k <= picked@.len(),
            rule.min_distance_sq == min_distance_sq,
            forall|j: int|
                0 <= j < k ==> !too_close(#[trigger] picked@[j], c, rule.min_distance_sq),
        decreases picked@.len() - k,
    {
        let p: Corner = picked[k];
        let dx: i128 = (p.x as i128) - (c.x as i128);
        let dy: i128 = (p.y as i128) - (c.y as i128);
        proof {
            assert(0 <= dx * dx <= 0x1_0000_0000 * 0x1_0000_0000) by (nonlinear_arith)
                requires
                    -0x1_0000_0000 <= dx <= 0x1_0000_0000,
            ;
            assert(0 <= dy * dy <= 0x1_0000_0000 * 0x1_0000_0000) by (nonlinear_arith)
                requires
                    -0x1_0000_0000 <= dy <= 0x1_0000_0000,
            ;
        }
        if dx * dx + dy * dy < min_distance_sq as i128 {
            assert(too_close(picked@[k as int], c, rule.min_distance_sq));
            return false;
        }
        k = k + 1;
    }
    true
}

/// Select corners from a response map.
///
/// `threshold` is the least response that counts, `taken` marks the pixels that
/// are too close to something tracked already, and `min_distance_sq` is the
/// smallest squared distance allowed between two corners. The corners come in
/// the order in which the grid cells gave them, not by response.
pub fn select_corners(
    map: &ResponseMap,
    config: &CornerConfig,
    threshold: u64,
    taken: &Vec<bool>,
    min_distance_sq: u64,
) -> (corners: Vec<Corner>)
    requires
        map@.wf(),
        taken@.len() == map@.data.len(),
    ensures
        exists|peak: u64| #[trigger]
            is_peak(map@.data, peak) && (if peak == ZERO_RESPONSE {
                corners@.len() == 0
            } else {
                exists|cells: Seq<Seq<Corner>>| #[trigger]
                    are_buckets(cells, map@, *config, threshold) && corners@ == spread_corners(
                        (Spacing {
                            width: map@.width,
                            taken: taken@,
                            min_distance_sq,
                            max_corners: config.max_corners as nat,
                        }),
                        cells,
                    )
            }),
{
    let peak: u64 = map.max();
    if peak == ZERO_RESPONSE {
        return Vec::new();
    }
    let ghost g = map@;
    let width: u32 = map.width();
    let cells: Vec<Vec<Corner>> = bucket_candidates(map, config, threshold);
    let ghost view = bucket_view(cells@);
    let ghost rule = Spacing {
        width: g.width,
        taken: taken@,
        min_distance_sq,
        max_corners: config.max_corners as nat,
    };
    let ghost start = Progress { cursor: Seq::new(view.len(), |b: int| 0int), picked: seq![] };
    let ghost goal = rounds(rule, view, start);
    let max: usize = config.max_corners;
    let mut cursor: Vec<usize> = vec![0usize; cells.len()];
    let mut picked: Vec<Corner> = Vec::new();
    let mut going: bool = true;
    let ghost mut at = start;
    proof {
        assert(cursor@.map_values(|c: usize| c as int) =~= start.cursor);
    }
    while going
        invariant
            g == map@,
            g.wf(),
            width == g.width,
            taken@.len() == g.data.len(),
            view == bucket_view(cells@),
            are_buckets(view, g, *config, threshold),
            rule == (Spacing {
                width: g.width,
                taken: taken@,
                min_distance_sq,
                max_corners: max as nat,
            }),
            cursor@.len() == cells@.len(),
            cursor@.map_values(|c: usize| c as int) == at.cursor,
            picked@ == at.picked,
            forall|b: int| 0 <= b < view.len() ==> 0 <= #[trigger] at.cursor[b] <= view[b].len(),
            going ==> rounds(rule, view, at) == goal,
            !going ==> at == goal,
            at.picked.len() <= max,
        decreases
                if going {
                    max - at.picked.len() + 1
                } else {
                    0
                },
    {
        let count: usize = picked.len();
        let ghost begin = at;
        let mut b: usize = 0;
        while b < cells.len()
            invariant
                g == map@,
                g.wf(),
                width == g.width,
                taken@.len() == g.data.len(),
                view == bucket_view(cells@),
                are_buckets(view, g, *config, threshold),
                rule == (Spacing {
                    width: g.width,
                    taken: taken@,
                    min_distance_sq,
                    max_corners: max as nat,
                }),
                b <= cells@.len(),
                cursor@.len() == cells@.len(),
                cursor@.map_values(|c: usize| c as int) == at.cursor,
                picked@ == at.picked,
                forall|c: int|
                    0 <= c < view.len() ==> 0 <= #[trigger] at.cursor[c] <= view[c].len(),
                at == round(rule, view, begin, b as nat),
                begin.picked.len() <= at.picked.len() <= max,
            decreases cells@.len() - b,
        {
            let ghost before = at;
            if picked.len() < max {
                assert(view[b as int] == cells@[b as int]@);
                assert(at.cursor[b as int] == cursor@[b as int]);
                let len: usize = cells[b].len();
                let mut k: usize = cursor[b];
                let mut open: bool = true;
                while open && k < len
                    invariant
                        g == map@,
                        g.wf(),
                        width == g.width,
                        taken@.len() == g.data.len(),
                        view == bucket_view(cells@),
                        are_buckets(view, g, *config, threshold),
                        rule == (Spacing {
                            width: g.width,
                            taken: taken@,
                            min_distance_sq,
                            max_corners: max as nat,
                        }),
                        b < cells@.len(),
                        view[b as int] == cells@[b as int]@,
                        len == cells@[b as int]@.len(),
                        picked@ == before.picked,
                        k <= len,
                        open ==> next_free(rule, before.picked, view[b as int], k as int)
                            == next_free(
                            rule,
                            before.picked,
                            view[b as int],
                            before.cursor[b as int],
                        ),
                        !open ==> k < len && k == next_free(
                            rule,
                            before.picked,
                            view[b as int],
                            before.cursor[b as int],
                        ),
                    decreases
                            len - k,
                            if open {
                                1int
                            } else {
                                0int
                            },
                {
                    let c: Corner = cells[b][k];
                    proof {
                        assert(c == view[b as int][k as int]);
                        assert(is_candidate_corner(g, *config, threshold, view[b as int][k as int]));
                    }
                    if corner_is_free(
                        taken,
                        width,
                        Ghost(g.height),
                        min_distance_sq,
                        &picked,
                        c,
                        Ghost(rule),
                    ) {
                        open = false;
                    } else {
                        k = k + 1;
                    }
                }
                proof {
                    at = visited(rule, view, before, b as int);
                }
                if open {
                    cursor[b] = k;
                } else {
                    picked.push(cells[b][k]);
                    cursor[b] = k + 1;
                }
                proof {
                    assert(cursor@.map_values(|c: usize| c as int) =~= at.cursor);
                    assert(picked@ =~= at.picked);
                    assert forall|c: int|
                        0 <= c < view.len() implies 0 <= #[trigger] at.cursor[c]
                        <= view[c].len() by {
                        if c != b {
                            assert(at.cursor[c] == before.cursor[c]);
                        }
                    }
                }
            }
            b = b + 1;
        }
        if picked.len() == count || picked.len() >= max {
            going = false;
        }
    }
    proof {
        assert(picked@ == spread_corners(rule, view));
        assert(are_buckets(view, g, *config, threshold));
    }
    picked
}

// ---------------------------------------------------------------------------
// Subpixel refinement
// ---------------------------------------------------------------------------

/// What came of one refinement step.
#[derive(Debug, Clone, Copy)]
pub enum RefineEvent<V> {
    /// The neighbourhood is an edge, not a corner, and gives no position.
    Singular,
    /// The step led farther from where the refinement began than its window.
    Strayed,
    /// A new position; `settles` says whether it is close to the last one.
    Moved { at: V, settles: bool },
}

/// A refinement under way. `V` is the type of a position.
#[derive(Debug, Clone, Copy)]
pub struct Refinement<V> {
    /// Where it began.
    pub from: V,
    /// The position so far.
    pub at: V,
    /// Steps that may still be taken.
    pub left: u32,
}

/// The refinement after one step. Where a step gives nothing, the last position
/// stands; a refinement that wants to leave its window is none, and the unrefined
/// position is the answer.
pub open spec fn refined<V>(r: Refinement<V>, event: RefineEvent<V>) -> Refinement<V> {
    if r.left == 0 {
        r
    } else {
        match event {
            RefineEvent::Moved { at, settles } => Refinement {
                at,
                left: if settles {
                    0
                } else {
                    (r.left - 1) as u32
                },
                ..r
            },
            RefineEvent::Singular => Refinement { left: 0, ..r },
            RefineEvent::Strayed => Refinement { at: r.from, left: 0, ..r },
        }
    }
}

impl<V: Copy> Refinement<V> {
    /// Start from a detected position.
    pub fn start(at: V, iterations: u32) -> (r: Refinement<V>)
        ensures
            r == (Refinement { from: at, at, left: iterations }),
    {
        Refinement { from: at, at, left: iterations }
    }

    /// Take note of one step.
    pub fn advance(&mut self, event: RefineEvent<V>)
        ensures
            *final(self) == refined(*old(self), event),
    {
        if self.left == 0 {
            return;
        }
        match event {
            RefineEvent::Moved { at, settles } => {
                self.at = at;
                self.left = if settles {
                    0
                } else {
                    self.left - 1
                };
            },
            RefineEvent::Singular => {
                self.left = 0;
            },
            RefineEvent::Strayed => {
                self.at = self.from;
                self.left = 0;
            },
        }
    }
}

/// A refinement that finds nothing leaves the position where it was, and ends: an
/// edge or a blank patch is never moved.
pub proof fn law_failed_refinement_moves_nothing<V>(r: Refinement<V>)
    ensures
        refined(r, RefineEvent::Singular).at == r.at,
        refined(r, RefineEvent::Singular).left == 0,
{
}

/// A refinement that walks out of its window is undone, however many steps it had
/// taken, and ends.
pub proof fn law_strayed_refinement_is_undone<V>(r: Refinement<V>)
    requires
        r.left > 0,
    ensures
        refined(r, RefineEvent::Strayed).at == r.from,
        refined(r, RefineEvent::Strayed).left == 0,
{
}

// ---------------------------------------------------------------------------
// Corners from elsewhere
// ---------------------------------------------------------------------------

/// The positions of the first `max` set flags among the first `n`.
pub open spec fn first_set(flags: Seq<bool>, max: nat, n: nat) -> Seq<usize>
    decreases n,
{
    if n == 0 {
        seq![]
    } else {
        let before = first_set(flags, max, (n - 1) as nat);
        if flags[n - 1] && before.len() < max {
            before.push((n - 1) as usize)
        } else {
            before
        }
    }
}

/// Which corners of a list found elsewhere are taken: those that are clear of
/// everything tracked already, in order, and no more than there is room for.
pub fn take_clear(clear: &Vec<bool>, max: usize) -> (taken: Vec<usize>)
    ensures
        taken@ == first_set(clear@, max as nat, clear@.len()),
        taken@.len() <= max,
{
    let mut taken: Vec<usize> = Vec::new();
    let mut i: usize = 0;
    while i < clear.len()
        invariant
            i <= clear@.len(),
            taken@ == first_set(clear@, max as nat, i as nat),
            taken@.len() <= max,
        decreases clear@.len() - i,
    {
        if clear[i] && taken.len() < max {
            taken.push(i);
        }
        i = i + 1;
    }
    taken
}

/// Whether a bucket holds a corner.
spec fn bucket_holds(bucket: Seq<Corner>, c: Corner) -> bool {
    exists|k: int| 0 <= k < bucket.len() && #[trigger] bucket[k] == c
}

/// A bucket from the strongest corner down.
spec fn is_ranked(bucket: Seq<Corner>) -> bool {
    forall|k: int, l: int|
        #![trigger bucket[k], bucket[l]]
        0 <= k < l < bucket.len() ==> stronger_first(bucket[k], bucket[l])
}

proof fn lemma_ranked_buckets_agree(s: Seq<Corner>, t: Seq<Corner>, n: nat)
    requires
        is_ranked(s),
        is_ranked(t),
        forall|c: Corner| bucket_holds(s, c) <==> #[trigger] bucket_holds(t, c),
        n <= s.len(),
    ensures
        n <= t.len(),
        forall|i: int| 0 <= i < n ==> s[i] == t[i],
    decreases n,
{
    if n > 0 {
        lemma_ranked_buckets_agree(s, t, (n - 1) as nat);
        let i = n - 1;
        assert(bucket_holds(s, s[i]));
        assert(bucket_holds(t, s[i]));
        let j = choose|j: int| 0 <= j < t.len() && #[trigger] t[j] == s[i];
        if j < i {
            assert(s[j] == t[j]);
            assert(stronger_first(s[j], s[i]));
        }
        assert(i < t.len());
        assert(bucket_holds(t, t[i]));
        assert(bucket_holds(s, t[i]));
        let k = choose|k: int| 0 <= k < s.len() && #[trigger] s[k] == t[i];
        if s[i] != t[i] {
            if k < i {
                assert(s[k] == t[k]);
                assert(stronger_first(t[k], t[i]));
            }
            assert(stronger_first(t[i], t[j]));
            assert(stronger_first(s[i], s[k]));
        }
    }
}

/// The grid cell of a bucket is that of each of its corners.
proof fn lemma_bucket_is_one_cell(
    cells: Seq<Seq<Corner>>,
    map: Responses,
    config: CornerConfig,
    threshold: u64,
    b: int,
    k: int,
)
    requires
        are_buckets(cells, map, config, threshold),
        0 <= b < cells.len(),
        0 <= k < cells[b].len(),
    ensures
        grid_cell(map, config, cells[b][k].x as int, cells[b][k].y as int) == grid_cell(
            map,
            config,
            cells[b][0].x as int,
            cells[b][0].y as int,
        ),
{
    if k > 0 {
        assert(stronger_first(cells[b][0], cells[b][k]));
    }
}

/// A corner of bucket `b` stands in the other buckets at `b` or later.
proof fn lemma_not_earlier(
    one: Seq<Seq<Corner>>,
    two: Seq<Seq<Corner>>,
    map: Responses,
    config: CornerConfig,
    threshold: u64,
    b: int,
    k: int,
) -> (at: (int, int))
    requires
        are_buckets(one, map, config, threshold),
        are_buckets(two, map, config, threshold),
        0 <= b < one.len(),
        0 <= k < one[b].len(),
        b <= two.len(),
        forall|a: int| 0 <= a < b ==> one[a] == two[a],
    ensures
        b <= at.0 < two.len(),
        0 <= at.1 < two[at.0].len(),
        two[at.0][at.1] == one[b][k],
{
    let c = one[b][k];
    assert(is_candidate_corner(map, config, threshold, c));
    assert(buckets_hold(two, c));
    let (p, q) = choose|p: int, q: int|
        0 <= p < two.len() && 0 <= q < two[p].len() && #[trigger] two[p][q] == c;
    if p < b {
        assert(one[p] == two[p]);
        assert(one[p][q] == c);
        assert(grid_cell(map, config, one[p][q].x as int, one[p][q].y as int) < grid_cell(
            map,
            config,
            one[b][k].x as int,
            one[b][k].y as int,
        ));
    }
    (p, q)
}

/// What bucket `b` holds is held by the same bucket on the other side.
proof fn lemma_same_bucket(
    one: Seq<Seq<Corner>>,
    two: Seq<Seq<Corner>>,
    map: Responses,
    config: CornerConfig,
    threshold: u64,
    b: int,
    k: int,
)
    requires
        are_buckets(one, map, config, threshold),
        are_buckets(two, map, config, threshold),
        0 <= b < one.len(),
        b < two.len(),
        0 <= k < one[b].len(),
        forall|a: int| 0 <= a < b ==> one[a] == two[a],
    ensures
        bucket_holds(two[b], one[b][k]),
{
    let (p, q) = lemma_not_earlier(one, two, map, config, threshold, b, k);
    if p > b {
        assert(one[b].len() > 0 && two[b].len() > 0);
        let (r, s) = lemma_not_earlier(two, one, map, config, threshold, b, 0);
        lemma_bucket_is_one_cell(one, map, config, threshold, b, k);
        lemma_bucket_is_one_cell(one, map, config, threshold, r, s);
        assert(grid_cell(map, config, two[b][0].x as int, two[b][0].y as int) < grid_cell(
            map,
            config,
            two[p][q].x as int,
            two[p][q].y as int,
        ));
        if r > b {
            assert(grid_cell(map, config, one[b][k].x as int, one[b][k].y as int) < grid_cell(
                map,
                config,
                one[r][s].x as int,
                one[r][s].y as int,
            ));
        }
        assert(false);
    }
    assert(two[b][q] == one[b][k]);
}

proof fn lemma_buckets_agree_up_to(
    one: Seq<Seq<Corner>>,
    two: Seq<Seq<Corner>>,
    map: Responses,
    config: CornerConfig,
    threshold: u64,
    n: nat,
)
    requires
        are_buckets(one, map, config, threshold),
        are_buckets(two, map, config, threshold),
        n <= one.len(),
    ensures
        n <= two.len(),
        forall|b: int| 0 <= b < n ==> one[b] == two[b],
    decreases n,
{
    if n > 0 {
        lemma_buckets_agree_up_to(one, two, map, config, threshold, (n - 1) as nat);
        let b = n - 1;
        assert(one[b].len() > 0);
        let at = lemma_not_earlier(one, two, map, config, threshold, b, 0);
        assert(b < two.len());
        assert forall|c: Corner| bucket_holds(one[b], c) <==> #[trigger] bucket_holds(two[b], c) by {
            if bucket_holds(one[b], c) {
                let k = choose|k: int| 0 <= k < one[b].len() && #[trigger] one[b][k] == c;
                lemma_same_bucket(one, two, map, config, threshold, b, k);
            }
            if bucket_holds(two[b], c) {
                let k = choose|k: int| 0 <= k < two[b].len() && #[trigger] two[b][k] == c;
                lemma_same_bucket(two, one, map, config, threshold, b, k);
            }
        }
        assert(is_ranked(one[b]));
        assert(is_ranked(two[b]));
        lemma_ranked_buckets_agree(one[b], two[b], one[b].len());
        assert forall|c: Corner| bucket_holds(two[b], c) <==> #[trigger] bucket_holds(one[b], c) by {
            assert(bucket_holds(one[b], c) <==> bucket_holds(two[b], c));
        }
        lemma_ranked_buckets_agree(two[b], one[b], two[b].len());
        assert(one[b] =~= two[b]);
    }
}

/// A map of responses has one division into buckets, so the corners selected from
/// it are determined.
pub proof fn law_buckets_are_unique(
    one: Seq<Seq<Corner>>,
    two: Seq<Seq<Corner>>,
    map: Responses,
    config: CornerConfig,
    threshold: u64,
)
    requires
        are_buckets(one, map, config, threshold),
        are_buckets(two, map, config, threshold),
    ensures
        one == two,
{
    lemma_buckets_agree_up_to(one, two, map, config, threshold, one.len());
    lemma_buckets_agree_up_to(two, one, map, config, threshold, two.len());
    assert(one =~= two);
}

// ---------------------------------------------------------------------------
// What is detected, in terms of the image
// ---------------------------------------------------------------------------

proof fn lemma_row_is_sum(image: Raster, term: TensorTerm, x: int, y: int, r: int, n: nat, f: spec_fn(
    int,
) -> int)
    requires
        forall|i: int|
            0 <= i < n ==> #[trigger] f(i) == tensor_term(
                image,
                term,
                clamped(x - r + i, image.width as int),
                y,
            ),
    ensures
        row_taps(image, term, x, y, r, n) == sum_of(n, f),
    decreases n,
{
    if n > 0 {
        lemma_row_is_sum(image, term, x, y, r, (n - 1) as nat, f);
        assert(f(n - 1) == tensor_term(
            image,
            term,
            clamped(x - r + (n - 1), image.width as int),
            y,
        ));
    }
}

proof fn lemma_rows_are_sum(image: Raster, term: TensorTerm, x: int, y: int, r: int, n: nat, f: spec_fn(
    int,
) -> int)
    requires
        forall|j: int|
            0 <= j < n ==> #[trigger] f(j) == row_taps(
                image,
                term,
                x,
                clamped(y - r + j, image.height as int),
                r,
                (2 * r + 1) as nat,
            ),
    ensures
        window_rows(image, term, x, y, r, n) == sum_of(n, f),
    decreases n,
{
    if n > 0 {
        lemma_rows_are_sum(image, term, x, y, r, (n - 1) as nat, f);
        assert(f(n - 1) == row_taps(
            image,
            term,
            x,
            clamped(y - r + (n - 1), image.height as int),
            r,
            (2 * r + 1) as nat,
        ));
    }
}

/// The structure tensor of a pixel sums the products of the slopes over the square of
/// `2 r + 1` pixels around it. The slope along an axis is the difference of the two
/// neighbours, and a pixel that is not there stands for the nearest one that is.
pub proof fn law_tensor_sums_the_slopes(image: Raster, x: int, y: int, r: int)
    requires
        0 < image.width,
        0 < image.height,
        0 <= r,
    ensures
        ({
            let inside = |p: int, n: int|
                if p < 0 {
                    0
                } else if p >= n {
                    n - 1
                } else {
                    p
                };
            let v = |px: int, py: int|
                image.at(inside(px, image.width as int), inside(py, image.height as int)) as int;
            let gx = |px: int, py: int| v(px + 1, py) - v(px - 1, py);
            let gy = |px: int, py: int| v(px, py + 1) - v(px, py - 1);
            let col = |i: int| inside(x - r + i, image.width as int);
            let row = |j: int| inside(y - r + j, image.height as int);
            let n = (2 * r + 1) as nat;
            &&& window_sum(image, TensorTerm::Xx, x, y, r) == sum_of(
                n,
                |j: int| sum_of(n, |i: int| gx(col(i), row(j)) * gx(col(i), row(j))),
            )
            &&& window_sum(image, TensorTerm::Xy, x, y, r) == sum_of(
                n,
                |j: int| sum_of(n, |i: int| gx(col(i), row(j)) * gy(col(i), row(j))),
            )
            &&& window_sum(image, TensorTerm::Yy, x, y, r) == sum_of(
                n,
                |j: int| sum_of(n, |i: int| gy(col(i), row(j)) * gy(col(i), row(j))),
            )
        }),
{
    let inside = |p: int, n: int|
        if p < 0 {
            0
        } else if p >= n {
            n - 1
        } else {
            p
        };
    let v = |px: int, py: int|
        image.at(inside(px, image.width as int), inside(py, image.height as int)) as int;
    let gx = |px: int, py: int| v(px + 1, py) - v(px - 1, py);
    let gy = |px: int, py: int| v(px, py + 1) - v(px, py - 1);
    let col = |i: int| inside(x - r + i, image.width as int);
    let row = |j: int| inside(y - r + j, image.height as int);
    let n = (2 * r + 1) as nat;
    let rows_xx = |j: int| sum_of(n, |i: int| gx(col(i), row(j)) * gx(col(i), row(j)));
    let rows_xy = |j: int| sum_of(n, |i: int| gx(col(i), row(j)) * gy(col(i), row(j)));
    let rows_yy = |j: int| sum_of(n, |i: int| gy(col(i), row(j)) * gy(col(i), row(j)));
    assert forall|j: int| 0 <= j < n implies #[trigger] rows_xx(j) == row_taps(
        image,
        TensorTerm::Xx,
        x,
        clamped(y - r + j, image.height as int),
        r,
        n,
    ) by {
        lemma_row_is_sum(
            image,
            TensorTerm::Xx,
            x,
            clamped(y - r + j, image.height as int),
            r,
            n,
            |i: int| gx(col(i), row(j)) * gx(col(i), row(j)),
        );
    }
    lemma_rows_are_sum(image, TensorTerm::Xx, x, y, r, n, rows_xx);
    assert forall|j: int| 0 <= j < n implies #[trigger] rows_xy(j) == row_taps(
        image,
        TensorTerm::Xy,
        x,
        clamped(y - r + j, image.height as int),
        r,
        n,
    ) by {
        lemma_row_is_sum(
            image,
            TensorTerm::Xy,
            x,
            clamped(y - r + j, image.height as int),
            r,
            n,
            |i: int| gx(col(i), row(j)) * gy(col(i), row(j)),
        );
    }
    lemma_rows_are_sum(image, TensorTerm::Xy, x, y, r, n, rows_xy);
    assert forall|j: int| 0 <= j < n implies #[trigger] rows_yy(j) == row_taps(
        image,
        TensorTerm::Yy,
        x,
        clamped(y - r + j, image.height as int),
        r,
        n,
    ) by {
        lemma_row_is_sum(
            image,
            TensorTerm::Yy,
            x,
            clamped(y - r + j, image.height as int),
            r,
            n,
            |i: int| gy(col(i), row(j)) * gy(col(i), row(j)),
        );
    }
    lemma_rows_are_sum(image, TensorTerm::Yy, x, y, r, n, rows_yy);
}

/// The peak of a map is its greatest response, or none where no response is above
/// nothing.
pub proof fn law_peak_is_the_greatest_response(data: Seq<u64>, peak: u64, i: int)
    requires
        is_peak(data, peak),
        0 <= i < data.len(),
    ensures
        data[i] <= peak,
        peak >= crate::order::total_order(0),
        peak != crate::order::total_order(0) ==> data.contains(peak),
{
    if peak != ZERO_RESPONSE {
        let k = choose|k: int| 0 <= k < data.len() && #[trigger] data[k] == peak;
        assert(data.contains(peak));
    }
}

/// Whether a pixel can be a corner: it is clear of the border and of what the window of
/// a pixel at the border would reach, its response reaches the threshold, and none of
/// its eight neighbours responds more.
pub open spec fn can_be_corner(map: Responses, config: CornerConfig, threshold: u64, x: int, y: int) -> bool {
    &&& config.border <= x < map.width - config.border
    &&& config.border <= y < map.height - config.border
    &&& config.block_radius < x < map.width - config.block_radius - 1
    &&& config.block_radius < y < map.height - config.block_radius - 1
    &&& map.at(x, y) >= threshold
    &&& forall|dx: int, dy: int|
        -1 <= dx <= 1 && -1 <= dy <= 1 ==> #[trigger] map.at(x + dx, y + dy) <= map.at(x, y)
}

proof fn lemma_can_be_corner(map: Responses, config: CornerConfig, threshold: u64, x: int, y: int)
    ensures
        is_candidate(map, config, threshold, x, y) == can_be_corner(map, config, threshold, x, y),
{
    if is_candidate(map, config, threshold, x, y) {
        assert forall|dx: int, dy: int| -1 <= dx <= 1 && -1 <= dy <= 1 implies #[trigger] map.at(
            x + dx,
            y + dy,
        ) <= map.at(x, y) by {
            assert(dx == -1 || dx == 0 || dx == 1);
            assert(dy == -1 || dy == 0 || dy == 1);
        }
    }
    if can_be_corner(map, config, threshold, x, y) {
        assert(map.at(x + -1, y + -1) <= map.at(x, y));
        assert(map.at(x + 0, y + -1) <= map.at(x, y));
        assert(map.at(x + 1, y + -1) <= map.at(x, y));
        assert(map.at(x + -1, y + 0) <= map.at(x, y));
        assert(map.at(x + 1, y + 0) <= map.at(x, y));
        assert(map.at(x + -1, y + 1) <= map.at(x, y));
        assert(map.at(x + 0, y + 1) <= map.at(x, y));
        assert(map.at(x + 1, y + 1) <= map.at(x, y));
    }
}

/// Every corner that is selected can be one, has the response of its pixel, is where
/// nothing is tracked already, and keeps the minimum distance from every other.
pub proof fn law_selected_corners_are_peaks(
    rule: Spacing,
    cells: Seq<Seq<Corner>>,
    map: Responses,
    config: CornerConfig,
    threshold: u64,
    k: int,
    l: int,
)
    requires
        are_buckets(cells, map, config, threshold),
        0 <= k < spread_corners(rule, cells).len(),
        0 <= l < spread_corners(rule, cells).len(),
        k != l,
    ensures
        ({
            let a = spread_corners(rule, cells)[k];
            let b = spread_corners(rule, cells)[l];
            &&& can_be_corner(map, config, threshold, a.x as int, a.y as int)
            &&& a.response == map.at(a.x as int, a.y as int)
            &&& !rule.taken[a.y * rule.width + a.x]
            &&& (a.x - b.x) * (a.x - b.x) + (a.y - b.y) * (a.y - b.y) >= rule.min_distance_sq
        }),
{
    let a = spread_corners(rule, cells)[k];
    let b = spread_corners(rule, cells)[l];
    law_corners_avoid_what_is_tracked(rule, cells, k);
    let (p, q) = choose|p: int, q: int|
        0 <= p < cells.len() && 0 <= q < cells[p].len() && #[trigger] cells[p][q] == a;
    assert(is_candidate_corner(map, config, threshold, cells[p][q]));
    lemma_can_be_corner(map, config, threshold, a.x as int, a.y as int);
    if k < l {
        law_corners_keep_their_distance(rule, cells, k, l);
    } else {
        law_corners_keep_their_distance(rule, cells, l, k);
        assert((a.x - b.x) * (a.x - b.x) == (b.x - a.x) * (b.x - a.x)) by (nonlinear_arith);
        assert((a.y - b.y) * (a.y - b.y) == (b.y - a.y) * (b.y - a.y)) by (nonlinear_arith);
    }
}

/// Where fewer corners come out than were asked for, nothing that can be one was passed
/// over: it was selected, something is tracked there, or a corner is too close to it.
pub proof fn law_every_peak_is_accounted_for(
    rule: Spacing,
    cells: Seq<Seq<Corner>>,
    map: Responses,
    config: CornerConfig,
    threshold: u64,
    c: Corner,
)
    requires
        are_buckets(cells, map, config, threshold),
        spread_corners(rule, cells).len() < rule.max_corners,
        can_be_corner(map, config, threshold, c.x as int, c.y as int),
        c.response == map.at(c.x as int, c.y as int),
    ensures
        spread_corners(rule, cells).contains(c) || rule.taken[c.y * rule.width + c.x] || exists|
            k: int,
        |
            0 <= k < spread_corners(rule, cells).len() && ({
                let a = #[trigger] spread_corners(rule, cells)[k];
                (a.x - c.x) * (a.x - c.x) + (a.y - c.y) * (a.y - c.y) < rule.min_distance_sq
            }),
{
    lemma_can_be_corner(map, config, threshold, c.x as int, c.y as int);
    assert(is_candidate_corner(map, config, threshold, c));
    assert(buckets_hold(cells, c));
    law_no_candidate_is_passed_over(rule, cells, c);
    let picked = spread_corners(rule, cells);
    if !is_free(rule, picked, c) && !rule.taken[c.y * rule.width + c.x] {
        let k = choose|k: int|
            0 <= k < picked.len() && too_close(#[trigger] picked[k], c, rule.min_distance_sq);
        assert(too_close(spread_corners(rule, cells)[k], c, rule.min_distance_sq));
    }
}

// ---------------------------------------------------------------------------
// In turn
// ---------------------------------------------------------------------------

/// How many of some corners are in a cell.
spec fn given_by(picked: Seq<Corner>, g: spec_fn(Corner) -> int, v: int) -> nat
    decreases picked.len(),
{
    if picked.len() == 0 {
        0
    } else {
        given_by(picked.drop_last(), g, v) + if g(picked.last()) == v {
            1nat
        } else {
            0nat
        }
    }
}

proof fn lemma_given_by(picked: Seq<Corner>, g: spec_fn(Corner) -> int, v: int, c: Corner)
    ensures
        given_by(picked.push(c), g, v) == given_by(picked, g, v) + (if g(c) == v {
            1nat
        } else {
            0nat
        }),
{
    assert(picked.push(c).drop_last() =~= picked);
}

proof fn lemma_given_is_how_many(
    picked: Seq<Corner>,
    g: spec_fn(Corner) -> int,
    v: int,
    n: nat,
    p: spec_fn(int) -> bool,
)
    requires
        n <= picked.len(),
        forall|i: int| 0 <= i < n ==> #[trigger] p(i) == (g(picked[i]) == v),
    ensures
        given_by(picked.take(n as int), g, v) == how_many(n, p),
    decreases n,
{
    if n > 0 {
        lemma_given_is_how_many(picked, g, v, (n - 1) as nat, p);
        lemma_how_many(n, p);
        assert(picked.take(n as int).drop_last() =~= picked.take(n - 1));
        assert(p(n - 1) == (g(picked[n - 1]) == v));
    } else {
        lemma_how_many(1, p);
    }
}

/// The corner at `k` comes in the round in which its cell gave as many before.
spec fn round_of(picked: Seq<Corner>, g: spec_fn(Corner) -> int, k: int) -> nat {
    given_by(picked.take(k), g, g(picked[k]))
}

/// Every bucket is one cell, and cells rise from bucket to bucket.
spec fn is_celled(cells: Seq<Seq<Corner>>, g: spec_fn(Corner) -> int, h: spec_fn(int) -> int) -> bool {
    &&& forall|b: int, k: int|
        #![trigger cells[b][k]]
        0 <= b < cells.len() && 0 <= k < cells[b].len() ==> g(cells[b][k]) == h(b)
    &&& forall|a: int, b: int| 0 <= a < b < cells.len() ==> #[trigger] h(a) < #[trigger] h(b)
}

/// Whether a bucket has nothing more to give.
spec fn is_spent(rule: Spacing, picked: Seq<Corner>, cell: Seq<Corner>) -> bool {
    forall|j: int|
        0 <= j < cell.len() ==> picked.contains(#[trigger] cell[j]) || !is_free(
            rule,
            picked,
            cell[j],
        )
}

/// Whether a corner came in its turn: every bucket that should have given before it
/// did so or was spent.
spec fn came_in_turn(
    rule: Spacing,
    cells: Seq<Seq<Corner>>,
    g: spec_fn(Corner) -> int,
    h: spec_fn(int) -> int,
    picked: Seq<Corner>,
    k: int,
) -> bool {
    forall|b: int|
        0 <= b < cells.len() ==> ({
            let given = #[trigger] given_by(picked.take(k), g, h(b));
            let r = round_of(picked, g, k);
            &&& given <= r + 1
            &&& given == r + 1 ==> h(b) < g(picked[k])
            &&& given < r || (given == r && h(b) < g(picked[k])) ==> is_spent(
                rule,
                picked.take(k),
                cells[b],
            )
        })
}

/// Whether a corner was picked from behind where its bucket stands.
spec fn is_behind(cells: Seq<Seq<Corner>>, s: Progress, k: int) -> bool {
    exists|b: int, at: int|
        0 <= b < cells.len() && 0 <= at < s.cursor[b] && #[trigger] cells[b][at] == s.picked[k]
}

/// Where the selection stands in round `r` with `n` buckets visited.
spec fn in_turn(
    rule: Spacing,
    cells: Seq<Seq<Corner>>,
    g: spec_fn(Corner) -> int,
    h: spec_fn(int) -> int,
    s: Progress,
    r: nat,
    n: nat,
) -> bool {
    &&& keeps_spacing(rule, cells, s)
    &&& forall|k: int|
        0 <= k < s.picked.len() ==> #[trigger] came_in_turn(rule, cells, g, h, s.picked, k)
    &&& forall|k: int| 0 <= k < s.picked.len() ==> #[trigger] is_behind(cells, s, k)
    &&& s.picked.len() < rule.max_corners ==> forall|b: int|
        0 <= b < cells.len() ==> ({
            let turns = r + (if b < n {
                1nat
            } else {
                0nat
            });
            let given = #[trigger] given_by(s.picked, g, h(b));
            given <= turns && (given < turns ==> s.cursor[b] == cells[b].len())
        })
}

proof fn lemma_visit_in_turn(
    rule: Spacing,
    cells: Seq<Seq<Corner>>,
    g: spec_fn(Corner) -> int,
    h: spec_fn(int) -> int,
    s: Progress,
    r: nat,
    n: nat,
)
    requires
        is_celled(cells, g, h),
        n < cells.len(),
        in_turn(rule, cells, g, h, s, r, n),
    ensures
        in_turn(rule, cells, g, h, visited(rule, cells, s, n as int), r, n + 1),
{
    let b = n as int;
    let t = visited(rule, cells, s, b);
    lemma_visit_keeps_spacing(rule, cells, s, b);
    if s.picked.len() < rule.max_corners {
        assert(0 <= s.cursor[b] <= cells[b].len());
        lemma_next_free(rule, s.picked, cells[b], s.cursor[b]);
        let at = next_free(rule, s.picked, cells[b], s.cursor[b]);
        if at < cells[b].len() {
            let c = cells[b][at];
            let m = s.picked.len() as int;
            assert(g(c) == h(b));
            assert(t.picked.take(m) =~= s.picked);
            assert(given_by(s.picked, g, h(b)) == r);
            assert(round_of(t.picked, g, m) == r);
            assert forall|k: int| 0 <= k < t.picked.len() implies #[trigger] came_in_turn(
                rule,
                cells,
                g,
                h,
                t.picked,
                k,
            ) by {
                if k < m {
                    assert(came_in_turn(rule, cells, g, h, s.picked, k));
                    assert(t.picked.take(k) =~= s.picked.take(k));
                    assert(t.picked[k] == s.picked[k]);
                    assert forall|d: int| 0 <= d < cells.len() implies ({
                        let given = #[trigger] given_by(t.picked.take(k), g, h(d));
                        let q = round_of(t.picked, g, k);
                        &&& given <= q + 1
                        &&& given == q + 1 ==> h(d) < g(t.picked[k])
                        &&& given < q || (given == q && h(d) < g(t.picked[k])) ==> is_spent(
                            rule,
                            t.picked.take(k),
                            cells[d],
                        )
                    }) by {
                        assert(given_by(s.picked.take(k), g, h(d)) == given_by(
                            t.picked.take(k),
                            g,
                            h(d),
                        ));
                    }
                } else {
                    assert forall|d: int| 0 <= d < cells.len() implies ({
                        let given = #[trigger] given_by(t.picked.take(k), g, h(d));
                        let q = round_of(t.picked, g, k);
                        &&& given <= q + 1
                        &&& given == q + 1 ==> h(d) < g(t.picked[k])
                        &&& given < q || (given == q && h(d) < g(t.picked[k])) ==> is_spent(
                            rule,
                            t.picked.take(k),
                            cells[d],
                        )
                    }) by {
                        let given = given_by(s.picked, g, h(d));
                        if d < b {
                            assert(h(d) < h(b));
                        } else if b < d {
                            assert(h(b) < h(d));
                        }
                        if given < r || (given == r && h(d) < h(b)) {
                            assert(s.cursor[d] == cells[d].len());
                            assert forall|j: int| 0 <= j < cells[d].len() implies s.picked.contains(
                                #[trigger] cells[d][j],
                            ) || !is_free(rule, s.picked, cells[d][j]) by {}
                        }
                    }
                }
            }
            assert forall|k: int| 0 <= k < t.picked.len() implies #[trigger] is_behind(
                cells,
                t,
                k,
            ) by {
                if k < m {
                    assert(is_behind(cells, s, k));
                    assert(t.picked[k] == s.picked[k]);
                    let (d, e) = choose|d: int, e: int|
                        0 <= d < cells.len() && 0 <= e < s.cursor[d] && #[trigger] cells[d][e]
                            == s.picked[k];
                    assert(cells[d][e] == t.picked[k] && e < t.cursor[d]);
                } else {
                    assert(cells[b][at] == t.picked[k] && at < t.cursor[b]);
                }
            }
            assert forall|d: int| 0 <= d < cells.len() && t.picked.len() < rule.max_corners implies ({
                let turns = r + (if d < n + 1 {
                    1nat
                } else {
                    0nat
                });
                let given = #[trigger] given_by(t.picked, g, h(d));
                given <= turns && (given < turns ==> t.cursor[d] == cells[d].len())
            }) by {
                lemma_given_by(s.picked, g, h(d), c);
                let before = given_by(s.picked, g, h(d));
                if d < b {
                    assert(h(d) < h(b));
                } else if b < d {
                    assert(h(b) < h(d));
                }
            }
        } else {
            assert forall|d: int| 0 <= d < cells.len() implies ({
                let turns = r + (if d < n + 1 {
                    1nat
                } else {
                    0nat
                });
                let given = #[trigger] given_by(t.picked, g, h(d));
                given <= turns && (given < turns ==> t.cursor[d] == cells[d].len())
            }) by {
                let before = given_by(s.picked, g, h(d));
            }
            assert forall|k: int| 0 <= k < t.picked.len() implies #[trigger] is_behind(
                cells,
                t,
                k,
            ) by {
                assert(is_behind(cells, s, k));
                let (d, e) = choose|d: int, e: int|
                    0 <= d < cells.len() && 0 <= e < s.cursor[d] && #[trigger] cells[d][e]
                        == s.picked[k];
                assert(cells[d][e] == t.picked[k] && e < t.cursor[d]);
            }
        }
    }
}

proof fn lemma_round_in_turn(
    rule: Spacing,
    cells: Seq<Seq<Corner>>,
    g: spec_fn(Corner) -> int,
    h: spec_fn(int) -> int,
    s: Progress,
    r: nat,
    n: nat,
)
    requires
        is_celled(cells, g, h),
        n <= cells.len(),
        in_turn(rule, cells, g, h, s, r, 0),
    ensures
        in_turn(rule, cells, g, h, round(rule, cells, s, n), r, n),
    decreases n,
{
    if n > 0 {
        lemma_round_in_turn(rule, cells, g, h, s, r, (n - 1) as nat);
        lemma_visit_in_turn(
            rule,
            cells,
            g,
            h,
            round(rule, cells, s, (n - 1) as nat),
            r,
            (n - 1) as nat,
        );
    }
}

proof fn lemma_rounds_in_turn(
    rule: Spacing,
    cells: Seq<Seq<Corner>>,
    g: spec_fn(Corner) -> int,
    h: spec_fn(int) -> int,
    s: Progress,
    r: nat,
) -> (q: nat)
    requires
        is_celled(cells, g, h),
        in_turn(rule, cells, g, h, s, r, 0),
    ensures
        in_turn(rule, cells, g, h, rounds(rule, cells, s), q, 0),
    decreases rule.max_corners - s.picked.len(),
{
    let t = round(rule, cells, s, cells.len());
    lemma_round_in_turn(rule, cells, g, h, s, r, cells.len());
    assert(in_turn(rule, cells, g, h, t, r, cells.len()));
    if t.picked.len() < rule.max_corners {
        assert forall|b: int| 0 <= b < cells.len() implies ({
            let turns = r + 1 + (if b < 0nat {
                1nat
            } else {
                0nat
            });
            let given = #[trigger] given_by(t.picked, g, h(b));
            given <= turns && (given < turns ==> t.cursor[b] == cells[b].len())
        }) by {
            let given = given_by(t.picked, g, h(b));
            assert(given <= r + 1 && (given < r + 1 ==> t.cursor[b] == cells[b].len()));
        }
    }
    assert(in_turn(rule, cells, g, h, t, r + 1, 0));
    if t.picked.len() > s.picked.len() && t.picked.len() < rule.max_corners {
        lemma_rounds_in_turn(rule, cells, g, h, t, r + 1)
    } else {
        r + 1
    }
}

/// The cell of the grid that a corner is in: cells are counted row by row.
pub open spec fn home_of(map: Responses, config: CornerConfig, c: Corner) -> int {
    let cols = if config.grid_cols == 0 {
        1
    } else {
        config.grid_cols as int
    };
    let rows = if config.grid_rows == 0 {
        1
    } else {
        config.grid_rows as int
    };
    (c.y * rows) / map.height as int * cols + (c.x * cols) / map.width as int
}

proof fn lemma_selection_in_turn(
    rule: Spacing,
    cells: Seq<Seq<Corner>>,
    map: Responses,
    config: CornerConfig,
    threshold: u64,
) -> (last: Progress)
    requires
        are_buckets(cells, map, config, threshold),
    ensures
        ({
            let g = |c: Corner| home_of(map, config, c);
            let h = |b: int| home_of(map, config, cells[b][0]);
            &&& is_celled(cells, g, h)
            &&& last.picked == spread_corners(rule, cells)
            &&& exists|q: nat| #[trigger] in_turn(rule, cells, g, h, last, q, 0)
        }),
{
    let g = |c: Corner| home_of(map, config, c);
    let h = |b: int| home_of(map, config, cells[b][0]);
    assert(is_celled(cells, g, h)) by {
        assert forall|b: int, k: int|
            #![trigger cells[b][k]]
            0 <= b < cells.len() && 0 <= k < cells[b].len() implies g(cells[b][k]) == h(b) by {
            if k > 0 {
                assert(grid_cell(map, config, cells[b][0].x as int, cells[b][0].y as int)
                    == grid_cell(map, config, cells[b][k].x as int, cells[b][k].y as int));
            }
        }
        assert forall|a: int, b: int| 0 <= a < b < cells.len() implies #[trigger] h(a)
            < #[trigger] h(b) by {
            assert(cells[a].len() > 0 && cells[b].len() > 0);
            assert(grid_cell(map, config, cells[a][0].x as int, cells[a][0].y as int) < grid_cell(
                map,
                config,
                cells[b][0].x as int,
                cells[b][0].y as int,
            ));
        }
    }
    let s = Progress { cursor: Seq::new(cells.len(), |b: int| 0int), picked: seq![] };
    assert(in_turn(rule, cells, g, h, s, 0, 0)) by {
        assert forall|b: int| 0 <= b < cells.len() implies #[trigger] given_by(s.picked, g, h(b))
            == 0 by {}
    }
    let q = lemma_rounds_in_turn(rule, cells, g, h, s, 0);
    let last = rounds(rule, cells, s);
    assert(in_turn(rule, cells, g, h, last, q, 0));
    last
}

/// Corners come in rounds. The corner at `k` comes in the round in which its cell has
/// given as many before: no cell is more than one corner ahead of that, and a cell that
/// is one ahead comes earlier in the grid. So every cell gives one corner before any
/// gives a second, and a truncated list keeps the spread.
pub proof fn law_corners_come_in_rounds(
    rule: Spacing,
    cells: Seq<Seq<Corner>>,
    map: Responses,
    config: CornerConfig,
    threshold: u64,
    k: int,
    c: Corner,
)
    requires
        are_buckets(cells, map, config, threshold),
        0 <= k < spread_corners(rule, cells).len(),
        can_be_corner(map, config, threshold, c.x as int, c.y as int),
        c.response == map.at(c.x as int, c.y as int),
    ensures
        ({
            let picked = spread_corners(rule, cells);
            let mine = home_of(map, config, picked[k]);
            let other = home_of(map, config, c);
            let round = how_many(k as nat, |i: int| home_of(map, config, picked[i]) == mine);
            let given = how_many(k as nat, |i: int| home_of(map, config, picked[i]) == other);
            &&& given <= round + 1
            &&& given == round + 1 ==> other < mine
            &&& given < round || (given == round && other < mine) ==> picked.take(k).contains(c)
                || !is_free(rule, picked.take(k), c)
        }),
{
    let g = |c: Corner| home_of(map, config, c);
    let h = |b: int| home_of(map, config, cells[b][0]);
    let last = lemma_selection_in_turn(rule, cells, map, config, threshold);
    let q = choose|q: nat| #[trigger] in_turn(rule, cells, g, h, last, q, 0);
    let picked = spread_corners(rule, cells);
    assert(came_in_turn(rule, cells, g, h, picked, k));
    lemma_can_be_corner(map, config, threshold, c.x as int, c.y as int);
    assert(is_candidate_corner(map, config, threshold, c));
    assert(buckets_hold(cells, c));
    let (b, j) = choose|b: int, j: int|
        0 <= b < cells.len() && 0 <= j < cells[b].len() && #[trigger] cells[b][j] == c;
    assert(g(cells[b][j]) == h(b));
    let mine = home_of(map, config, picked[k]);
    let other = home_of(map, config, c);
    assert(other == h(b));
    lemma_given_is_how_many(
        picked,
        g,
        other,
        k as nat,
        |i: int| home_of(map, config, picked[i]) == other,
    );
    lemma_given_is_how_many(
        picked,
        g,
        mine,
        k as nat,
        |i: int| home_of(map, config, picked[i]) == mine,
    );
    assert(given_by(picked.take(k), g, h(b)) == given_by(picked.take(k), g, other));
}

/// A cell gives its strongest corners: where one was selected, nothing stronger in its
/// cell was left out, unless something is tracked there or a corner is too close to it.
pub proof fn law_strongest_of_a_cell_comes_first(
    rule: Spacing,
    cells: Seq<Seq<Corner>>,
    map: Responses,
    config: CornerConfig,
    threshold: u64,
    k: int,
    c: Corner,
)
    requires
        are_buckets(cells, map, config, threshold),
        0 <= k < spread_corners(rule, cells).len(),
        can_be_corner(map, config, threshold, c.x as int, c.y as int),
        c.response == map.at(c.x as int, c.y as int),
        home_of(map, config, c) == home_of(map, config, spread_corners(rule, cells)[k]),
        c.response > spread_corners(rule, cells)[k].response,
    ensures
        spread_corners(rule, cells).contains(c) || !is_free(rule, spread_corners(rule, cells), c),
{
    let g = |c: Corner| home_of(map, config, c);
    let h = |b: int| home_of(map, config, cells[b][0]);
    let last = lemma_selection_in_turn(rule, cells, map, config, threshold);
    let q = choose|q: nat| #[trigger] in_turn(rule, cells, g, h, last, q, 0);
    assert(is_behind(cells, last, k));
    let (b, at) = choose|b: int, at: int|
        0 <= b < cells.len() && 0 <= at < last.cursor[b] && #[trigger] cells[b][at]
            == last.picked[k];
    assert(0 <= last.cursor[b] <= cells[b].len());
    lemma_can_be_corner(map, config, threshold, c.x as int, c.y as int);
    assert(is_candidate_corner(map, config, threshold, c));
    assert(buckets_hold(cells, c));
    let (d, j) = choose|d: int, j: int|
        0 <= d < cells.len() && 0 <= j < cells[d].len() && #[trigger] cells[d][j] == c;
    assert(g(cells[d][j]) == h(d));
    assert(g(cells[b][at]) == h(b));
    if d < b {
        assert(h(d) < h(b));
    } else if b < d {
        assert(h(b) < h(d));
    }
    if at < j {
        assert(stronger_first(cells[b][at], cells[b][j]));
    }
    assert(j < last.cursor[b]);
    assert(last.picked.contains(cells[b][j]) || !is_free(rule, last.picked, cells[b][j]));
}

proof fn lemma_first_set(flags: Seq<bool>, max: nat, n: nat, i: int)
    requires
        n <= flags.len(),
    ensures
        first_set(flags, max, n).len() == (if how_many(n, |k: int| flags[k]) < max {
            how_many(n, |k: int| flags[k])
        } else {
            max
        }),
        0 <= i < n && flags[i] && how_many(i as nat, |k: int| flags[k]) < max ==> how_many(
            i as nat,
            |k: int| flags[k],
        ) < first_set(flags, max, n).len() && first_set(flags, max, n)[how_many(
            i as nat,
            |k: int| flags[k],
        ) as int] == i as usize,
    decreases n,
{
    let p = |k: int| flags[k];
    if n > 0 {
        lemma_first_set(flags, max, (n - 1) as nat, i);
        lemma_how_many(n, p);
    } else {
        lemma_how_many(1, p);
    }
}

/// Of the corners from elsewhere the first ones that are clear are taken, in their
/// order, as many as there is room for.
pub proof fn law_first_clear_corners_are_taken(flags: Seq<bool>, max: nat, i: int)
    requires
        0 <= i < flags.len() <= usize::MAX,
    ensures
        ({
            let taken = first_set(flags, max, flags.len());
            let clear = how_many(flags.len(), |k: int| flags[k]);
            let before = how_many(i as nat, |k: int| flags[k]);
            &&& taken.len() == (if clear < max {
                clear
            } else {
                max
            })
            &&& flags[i] && before < max ==> before < taken.len() && taken[before as int] == i
        }),
{
    lemma_first_set(flags, max, flags.len(), i);
}

/// A refinement step that moves is followed, counted, and is the last when it settles;
/// a refinement that is over stays where it is.
pub proof fn law_refinement_follows_its_steps<V>(r: Refinement<V>, at: V, settles: bool)
    ensures
        ({
            let t = refined(r, RefineEvent::Moved { at, settles });
            &&& t.from == r.from
            &&& r.left > 0 ==> t.at == at
            &&& r.left > 0 && settles ==> t.left == 0
            &&& r.left > 0 && !settles ==> t.left == r.left - 1
            &&& r.left == 0 ==> t == r
        }),
        r.left == 0 ==> refined(r, RefineEvent::Strayed) == r && refined(r, RefineEvent::Singular)
            == r,
{
}

/// Responses follow each other row by row.
pub proof fn law_responses_follow_each_other(map: Responses, i: int)
    requires
        map.wf(),
        0 <= i < map.data.len(),
    ensures
        map.holds(i % map.width as int, i / map.width as int),
        map.at(i % map.width as int, i / map.width as int) == map.data[i],
{
    lemma_coordinates(i, map.width as int, map.height as int);
}

} // verus!
