//! Eight-bit rasters: the ghost model every pixel contract speaks of, and the
//! grey image the detectors read.

use vstd::prelude::*;

verus! {

/// A row-major grid of bytes.
pub struct Raster {
    pub width: nat,
    pub height: nat,
    pub data: Seq<u8>,
}

impl Raster {
    /// One byte per pixel.
    pub open spec fn wf(self) -> bool {
        self.data.len() == self.width * self.height
    }

    /// Whether `(x, y)` names a pixel.
    pub open spec fn holds(self, x: int, y: int) -> bool {
        0 <= x < self.width && 0 <= y < self.height
    }

    /// The byte at `(x, y)`.
    pub open spec fn at(self, x: int, y: int) -> u8 {
        self.data[y * self.width + x]
    }
}

/// A pixel's linear index lies in the grid and gives its coordinates back.
pub proof fn lemma_linear_index(x: int, y: int, w: int, h: int)
    requires
        0 <= x < w,
        0 <= y < h,
    ensures
        0 <= y * w <= y * w + x < w * h,
        (y * w + x) % w == x,
        (y * w + x) / w == y,
{
    assert(0 <= y * w <= y * w + x < w * h) by (nonlinear_arith)
        requires
            0 <= x < w,
            0 <= y < h,
    ;
    vstd::arithmetic::div_mod::lemma_fundamental_div_mod_converse(y * w + x, w, y, x);
}

/// A linear index inside the grid names exactly one pixel.
pub proof fn lemma_coordinates(i: int, w: int, h: int)
    requires
        0 <= i < w * h,
        0 <= w,
        0 <= h,
    ensures
        0 < w,
        0 < h,
        0 <= i % w < w,
        0 <= i / w < h,
        (i / w) * w + i % w == i,
{
    assert(0 < w && 0 < h) by (nonlinear_arith)
        requires
            0 <= i < w * h,
            0 <= w,
            0 <= h,
    ;
    vstd::arithmetic::div_mod::lemma_fundamental_div_mod(i, w);
    assert((i / w) * w == w * (i / w)) by (nonlinear_arith);
    assert(i / w < h) by (nonlinear_arith)
        requires
            i == w * (i / w) + i % w,
            0 <= i % w,
            i < w * h,
            0 < w,
    ;
    assert(0 <= i / w) by (nonlinear_arith)
        requires
            i == w * (i / w) + i % w,
            i % w < w,
            0 <= i,
            0 < w,
    ;
}

/// Position of pixel `(x, y)` in a buffer of `len` bytes, one per pixel.
pub(crate) fn linear_index(x: u32, y: u32, width: u32, Ghost(height): Ghost<nat>, len: usize) -> (i:
    usize)
    requires
        x < width,
        y < height,
        len == width * height,
    ensures
        i == y * width + x,
        i < len,
{
    proof {
        lemma_linear_index(x as int, y as int, width as int, height as int);
    }
    (y as usize) * (width as usize) + (x as usize)
}

/// An eight-bit grey image.
#[derive(Debug)]
pub struct GrayImage {
    width: u32,
    height: u32,
    data: Vec<u8>,
}

impl View for GrayImage {
    type V = Raster;

    closed spec fn view(&self) -> Raster {
        Raster { width: self.width as nat, height: self.height as nat, data: self.data@ }
    }
}

impl Clone for GrayImage {
    fn clone(&self) -> (copy: GrayImage)
        ensures
            copy@ == self@,
    {
        let data: Vec<u8> = self.data.clone();
        assert(data@ =~= self.data@);
        GrayImage { width: self.width, height: self.height, data }
    }
}

/// `v` moved into `[0, n)` by the shortest way.
pub open spec fn clamped(v: int, n: int) -> int {
    if v < 0 {
        0
    } else if v >= n {
        n - 1
    } else {
        v
    }
}

impl GrayImage {
    /// A black image.
    pub fn new(width: u32, height: u32) -> (image: GrayImage)
        requires
            width * height <= isize::MAX,
        ensures
            image@.wf(),
            image@.width == width,
            image@.height == height,
            forall|i: int| 0 <= i < width * height ==> image@.data[i] == 0,
    {
        let n: usize = (width as usize) * (height as usize);
        GrayImage { width, height, data: vec![0u8; n] }
    }

    /// An image over row-major bytes, or `None` when there is not exactly one
    /// byte per pixel.
    pub fn from_data(width: u32, height: u32, data: Vec<u8>) -> (image: Option<GrayImage>)
        ensures
            image is Some <==> data@.len() == width * height,
            image matches Some(g) ==> g@.wf() && g@ == (Raster {
                width: width as nat,
                height: height as nat,
                data: data@,
            }),
    {
        assert(width * height <= u64::MAX) by (nonlinear_arith)
            requires
                width <= u32::MAX,
                height <= u32::MAX,
        ;
        assert(0 <= width * height) by (nonlinear_arith);
        let n: u64 = (width as u64) * (height as u64);
        if data.len() as u64 == n {
            Some(GrayImage { width, height, data })
        } else {
            None
        }
    }

    /// Image width.
    pub fn width(&self) -> (width: u32)
        ensures
            width == self@.width,
    {
        self.width
    }

    /// Image height.
    pub fn height(&self) -> (height: u32)
        ensures
            height == self@.height,
    {
        self.height
    }

    /// Row-major bytes.
    pub fn data(&self) -> (data: &[u8])
        ensures
            data@ == self@.data,
    {
        self.data.as_slice()
    }

    /// The byte at a pixel of the image.
    pub fn get(&self, x: u32, y: u32) -> (v: u8)
        requires
            self@.wf(),
            self@.holds(x as int, y as int),
        ensures
            v == self@.at(x as int, y as int),
    {
        let i: usize = linear_index(x, y, self.width, Ghost(self@.height), self.data.len());
        self.data[i]
    }

    /// The byte at `(x, y)`, read at the nearest pixel when that lies outside.
    pub fn at(&self, x: i32, y: i32) -> (v: u8)
        requires
            self@.wf(),
            0 < self@.width,
            0 < self@.height,
        ensures
            v == self@.at(
                clamped(x as int, self@.width as int),
                clamped(y as int, self@.height as int),
            ),
    {
        let cx: u32 = if x < 0 {
            0
        } else if x as u32 >= self.width {
            self.width - 1
        } else {
            x as u32
        };
        let cy: u32 = if y < 0 {
            0
        } else if y as u32 >= self.height {
            self.height - 1
        } else {
            y as u32
        };
        self.get(cx, cy)
    }

    /// Overwrite one pixel.
    pub fn set(&mut self, x: u32, y: u32, v: u8)
        requires
            old(self)@.wf(),
            old(self)@.holds(x as int, y as int),
        ensures
            final(self)@.wf(),
            final(self)@ == (Raster {
                data: old(self)@.data.update(y * old(self)@.width + x, v),
                ..old(self)@
            }),
    {
        let i: usize = linear_index(x, y, self.width, Ghost(self@.height), self.data.len());
        self.data[i] = v;
    }

    /// Overwrite every pixel.
    pub fn fill(&mut self, v: u8)
        requires
            old(self)@.wf(),
        ensures
            final(self)@.wf(),
            final(self)@.width == old(self)@.width,
            final(self)@.height == old(self)@.height,
            forall|i: int| 0 <= i < final(self)@.data.len() ==> final(self)@.data[i] == v,
    {
        let n: usize = self.data.len();
        self.data = vec![v; n];
    }
}

/// Rows follow each other: the pixels of a row are next to each other, and byte `i` is
/// that of the pixel in column `i` modulo the width.
pub proof fn law_rows_follow_each_other(image: Raster, i: int)
    requires
        image.wf(),
        0 <= i < image.data.len(),
    ensures
        image.holds(i % image.width as int, i / image.width as int),
        image.at(i % image.width as int, i / image.width as int) == image.data[i],
{
    lemma_coordinates(i, image.width as int, image.height as int);
}

/// What is written is read back, and no other pixel changes.
pub proof fn law_write_is_read_back(image: Raster, x: int, y: int, v: u8, px: int, py: int)
    requires
        image.wf(),
        image.holds(x, y),
        image.holds(px, py),
    ensures
        ({
            let after = Raster { data: image.data.update(y * image.width + x, v), ..image };
            &&& after.wf()
            &&& after.at(x, y) == v
            &&& (px, py) != (x, y) ==> after.at(px, py) == image.at(px, py)
        }),
{
    lemma_linear_index(x, y, image.width as int, image.height as int);
    lemma_linear_index(px, py, image.width as int, image.height as int);
}

/// A place outside stands for the nearest one inside.
pub proof fn law_outside_is_read_at_the_edge(v: int, n: int, w: int)
    requires
        0 < n,
        0 <= w < n,
    ensures
        0 <= clamped(v, n) < n,
        0 <= v < n ==> clamped(v, n) == v,
        v <= w ==> v <= clamped(v, n) <= w,
        v >= w ==> v >= clamped(v, n) >= w,
{
}

} // verus!
