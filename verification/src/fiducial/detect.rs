//! The decisions of the marker detector: which interfaces are looked at, what is
//! read off a quad, and in which order detections come out.

use vstd::prelude::*;

use crate::fiducial::code36h11::{
    assemble_word, is_lookup, payload_bit, CodeMatch, Codebook, NBITS,
    PAYLOAD_MASK, TOTAL_WIDTH, WIDTH_AT_BORDER,
};
use crate::fiducial::segment::{
    are_clusters, component_labels, connected_components, crossings, gradient_clusters, Cluster,
    UnionFind,
};
use crate::fiducial::threshold::{adaptive_threshold, binarised, Binary};
use crate::order::{is_stable_order, stable_order, SortKey};
use crate::raster::GrayImage;

verus! {

/// The integer thresholds of the detector.
#[derive(Debug, Clone, Copy, PartialEq, Eq, Structural)]
pub struct DetectorConfig {
    /// Tile edge for the adaptive threshold, in pixels.
    pub tile_size: u32,
    /// Smallest local contrast that is binarised at all.
    pub min_contrast: u8,
    /// Smallest boundary cluster considered for quad fitting.
    pub min_cluster_points: usize,
    /// Bit errors the decoder may correct.
    pub max_hamming: u32,
}

impl Default for DetectorConfig {
    fn default() -> (config: DetectorConfig)
        ensures
            config == (DetectorConfig {
                tile_size: 4,
                min_contrast: 25,
                min_cluster_points: 24,
                max_hamming: 2,
            }),
    {
        DetectorConfig { tile_size: 4, min_contrast: 25, min_cluster_points: 24, max_hamming: 2 }
    }
}

/// The boundary clusters of a frame that are worth fitting a quad to.
pub fn find_interfaces(image: &GrayImage, config: &DetectorConfig) -> (clusters: Vec<Cluster>)
    requires
        image@.wf(),
        image@.data.len() <= u32::MAX,
    ensures
        ({
            let binary = binarised(image@, config.tile_size, config.min_contrast);
            are_clusters(
                clusters@,
                crossings(binary, component_labels(binary)),
                config.min_cluster_points as int,
            )
        }),
{
    let binary: Binary = adaptive_threshold(image, config.tile_size, config.min_contrast);
    let mut uf: UnionFind = connected_components(&binary);
    proof {
        crate::fiducial::segment::lemma_component_count(binary@);
    }
    gradient_clusters(&binary, &mut uf, config.min_cluster_points)
}

/// The `k`-th cell read on the ring of a square of `width` cells, as
/// `(column, row)`: top, bottom, left and right of each step in turn.
pub open spec fn ring_cell(width: int, k: int) -> (int, int) {
    let i = k / 4;
    if k % 4 == 0 {
        (i, 0)
    } else if k % 4 == 1 {
        (i, width - 1)
    } else if k % 4 == 2 {
        (0, i)
    } else {
        (width - 1, i)
    }
}

/// The cells read on the ring of a square of `width` cells, as
/// `(column, row)`; the four corners come twice.
pub fn ring_cells(width: usize) -> (cells: Vec<(usize, usize)>)
    requires
        4 * width <= usize::MAX,
    ensures
        cells@.len() == 4 * width,
        forall|k: int|
            0 <= k < 4 * width ==> (#[trigger] cells@[k]).0 == ring_cell(width as int, k).0
                && cells@[k].1 == ring_cell(width as int, k).1,
{
    let mut cells: Vec<(usize, usize)> = Vec::new();
    let mut i: usize = 0;
    while i < width
        invariant
            i <= width,
            cells@.len() == 4 * i,
            forall|k: int|
                0 <= k < 4 * i ==> (#[trigger] cells@[k]).0 == ring_cell(width as int, k).0
                    && cells@[k].1 == ring_cell(width as int, k).1,
        decreases width - i,
    {
        cells.push((i, 0));
        cells.push((i, width - 1));
        cells.push((0, i));
        cells.push((width - 1, i));
        i = i + 1;
    }
    cells
}

/// Every cell of the ring is read, and no other.
pub proof fn law_ring_is_covered(width: int, col: int, row: int)
    requires
        1 <= width,
        0 <= col < width,
        0 <= row < width,
    ensures
        (row == 0 || col == 0 || row == width - 1 || col == width - 1) <==> exists|k: int|
            0 <= k < 4 * width && #[trigger] ring_cell(width, k) == (col, row),
{
    if row == 0 {
        assert(ring_cell(width, 4 * col) == (col, row));
    } else if row == width - 1 {
        assert(ring_cell(width, 4 * col + 1) == (col, row));
    } else if col == 0 {
        assert(ring_cell(width, 4 * row + 2) == (col, row));
    } else if col == width - 1 {
        assert(ring_cell(width, 4 * row + 3) == (col, row));
    }
}

/// What was sampled on a quad.
#[derive(Debug)]
pub struct PayloadReading {
    /// Border cells whose sample lies in the frame.
    pub border_samples: usize,
    /// Whether each payload cell is lighter than the decision level, or `None`
    /// when a payload cell lies outside the frame.
    pub white_cells: Option<Vec<bool>>,
    /// Whether the white level clears the black level by the required margin.
    pub contrast_is_enough: bool,
    /// Whether the mean distance from the decision level is large enough.
    pub margin_is_enough: bool,
}

/// Border samples needed to trust the black level.
pub const MIN_BORDER_SAMPLES: usize = 16;

/// Margin samples needed to take the white level from the quiet margin.
pub const MIN_MARGIN_SAMPLES: usize = 20;

/// Whether the white level is taken from the quiet margin; otherwise it is that
/// of the brightest payload cell.
pub fn quiet_margin_is_usable(margin_samples: usize) -> (usable: bool)
    ensures
        usable == (margin_samples >= TOTAL_WIDTH * 2),
        usable == has_quiet_margin(margin_samples as nat),
{
    margin_samples >= MIN_MARGIN_SAMPLES
}

/// Whether a reading passes every gate before the codebook is asked.
pub open spec fn is_readable(reading: PayloadReading) -> bool {
    &&& reading.border_samples >= WIDTH_AT_BORDER * 2
    &&& reading.white_cells matches Some(cells) && cells@.len() == NBITS
    &&& reading.contrast_is_enough
    &&& reading.margin_is_enough
}

/// `word` is the payload word of the sampled cells.
pub open spec fn is_word_of(word: u64, cells: Seq<bool>) -> bool {
    word <= PAYLOAD_MASK && forall|i: int|
        0 <= i < NBITS ==> payload_bit(word, i) == #[trigger] cells[i]
}

/// The marker a reading shows, if any.
pub fn decode_reading(reading: &PayloadReading, book: &Codebook, max_hamming: u32) -> (found: Option<
    CodeMatch,
>)
    requires
        book.wf(),
    ensures
        !is_readable(*reading) ==> found is None,
        is_readable(*reading) ==> exists|word: u64| #[trigger]
            is_word_of(word, reading.white_cells->0@) && is_lookup(
                book@,
                word,
                max_hamming,
                found,
            ),
{
    if reading.border_samples < MIN_BORDER_SAMPLES {
        return None;
    }
    match &reading.white_cells {
        None => None,
        Some(cells) => {
            if cells.len() != NBITS || !reading.contrast_is_enough || !reading.margin_is_enough {
                None
            } else {
                let word: u64 = assemble_word(cells);
                assert(is_word_of(word, cells@));
                book.lookup(word, max_hamming)
            }
        },
    }
}

/// The corners of a quad in the marker's own order, given how the marker was
/// turned: the list starts `rotation` corners further on.
pub fn turned_corners<T: Copy>(corners: &[T; 4], rotation: u8) -> (turned: [T; 4])
    requires
        rotation < 4,
    ensures
        forall|i: int| 0 <= i < 4 ==> #[trigger] turned@[i] == corners@[(i + rotation) % 4],
        turned@ == corners_turned(corners@, rotation as int),
{
    let r: usize = rotation as usize;
    let turned: [T; 4] = [
        corners[r % 4],
        corners[(r + 1) % 4],
        corners[(r + 2) % 4],
        corners[(r + 3) % 4],
    ];
    assert(turned@ =~= corners_turned(corners@, rotation as int));
    turned
}

/// The sort key of a detection: its id, then its centre.
pub open spec fn detection_key(id: u32, x: u64, y: u64) -> SortKey {
    SortKey { major: id as u64, minor: x, last: y }
}

/// The order in which detections come out: by id, then by the abscissa and the
/// ordinate of the centre, each given as a sort key.
pub fn detection_order(detections: &Vec<(u32, u64, u64)>) -> (order: Vec<usize>)
    ensures
        is_stable_order(
            detections@.map_values(|d: (u32, u64, u64)| detection_key(d.0, d.1, d.2)),
            order@,
        ),
{
    let ghost want = detections@.map_values(|d: (u32, u64, u64)| detection_key(d.0, d.1, d.2));
    let mut keys: Vec<SortKey> = Vec::new();
    let mut i: usize = 0;
    while i < detections.len()
        invariant
            want == detections@.map_values(
                |d: (u32, u64, u64)| detection_key(d.0, d.1, d.2),
            ),
            i <= detections@.len(),
            keys@.len() == i,
            forall|k: int| 0 <= k < i ==> #[trigger] keys@[k] == want[k],
        decreases detections@.len() - i,
    {
        let d: (u32, u64, u64) = detections[i];
        keys.push(SortKey { major: d.0 as u64, minor: d.1, last: d.2 });
        i = i + 1;
    }
    assert(keys@ =~= want);
    stable_order(&keys)
}

/// Two words that agree in their last `n` bits agree once the rest is shifted out.
proof fn lemma_low_bits_agree(a: u64, b: u64, n: u64)
    requires
        1 <= n <= 36,
        forall|s: u64| s < n ==> #[trigger] (a >> s) & 1u64 == (b >> s) & 1u64,
    ensures
        a << ((64 - n) as u64) == b << ((64 - n) as u64),
    decreases n,
{
    assert((a >> 0u64) & 1u64 == (b >> 0u64) & 1u64);
    if n == 1 {
        assert((a >> 0u64) & 1u64 == (b >> 0u64) & 1u64 ==> a << 63u64 == b << 63u64)
            by (bit_vector);
    } else {
        let m = (n - 1) as u64;
        lemma_low_bits_agree(a, b, m);
        let s = (64 - n) as u64;
        let t = (64 - m) as u64;
        assert((a >> m) & 1u64 == (b >> m) & 1u64);
        assert(a << s == b << s) by (bit_vector)
            requires
                1 <= m < 36,
                t == 64 - m,
                s == 63 - m,
                a << t == b << t,
                (a >> m) & 1u64 == (b >> m) & 1u64,
        ;
    }
}

/// The sampled cells determine the payload word, so a reading has one decoding.
pub proof fn law_reading_has_one_word(a: u64, b: u64, cells: Seq<bool>)
    requires
        cells.len() == NBITS,
        is_word_of(a, cells),
        is_word_of(b, cells),
    ensures
        a == b,
{
    assert forall|s: u64| s < 36 implies #[trigger] (a >> s) & 1u64 == (b >> s) & 1u64 by {
        let i = 35 - s as int;
        assert(payload_bit(a, i) == cells[i]);
        assert(payload_bit(b, i) == cells[i]);
        assert((35 - i) as u64 == s);
        assert((a >> s) & 1u64 == 0u64 || (a >> s) & 1u64 == 1u64) by (bit_vector);
        assert((b >> s) & 1u64 == 0u64 || (b >> s) & 1u64 == 1u64) by (bit_vector);
    }
    lemma_low_bits_agree(a, b, 36);
    assert(a <= 0xf_ffff_ffff && b <= 0xf_ffff_ffff && a << 28u64 == b << 28u64 ==> a == b)
        by (bit_vector);
}

/// A quad is decoded exactly as far as it can be read: at least sixteen cells of its
/// border are in the frame, all thirty-six payload cells are, the white level clears
/// the black one, and the cells are far enough from the decision level. What is then
/// looked up is the word whose bits are the payload cells, white for one.
pub proof fn law_reading_passes_every_gate(reading: PayloadReading, word: u64, i: int)
    ensures
        is_readable(reading) <==> reading.border_samples >= 16 && reading.white_cells is Some
            && reading.white_cells->0@.len() == 36 && reading.contrast_is_enough
            && reading.margin_is_enough,
        is_readable(reading) && is_word_of(word, reading.white_cells->0@) && 0 <= i < 36
            ==> payload_bit(word, i) == reading.white_cells->0@[i] && word < 0x10_0000_0000,
{
}

/// Detections come in the order of their ids, and those of one id from left to right and
/// then from top to bottom.
pub proof fn law_detections_come_by_id(
    detections: Seq<(u32, u64, u64)>,
    order: Seq<usize>,
    a: int,
    b: int,
)
    requires
        is_stable_order(
            detections.map_values(|d: (u32, u64, u64)| detection_key(d.0, d.1, d.2)),
            order,
        ),
        0 <= a < b < order.len(),
    ensures
        ({
            let p = detections[order[a] as int];
            let q = detections[order[b] as int];
            &&& order.len() == detections.len()
            &&& p.0 <= q.0
            &&& p.0 == q.0 ==> p.1 <= q.1
            &&& p.0 == q.0 && p.1 == q.1 ==> p.2 <= q.2
            &&& order[a] != order[b]
        }),
{
    let keys = detections.map_values(|d: (u32, u64, u64)| detection_key(d.0, d.1, d.2));
    crate::order::law_order_is_ascending(keys, order);
    assert(order.contains(order[a]) && order.contains(order[b]));
    assert(keys[order[a] as int] == detection_key(
        detections[order[a] as int].0,
        detections[order[a] as int].1,
        detections[order[a] as int].2,
    ));
    assert(keys[order[b] as int] == detection_key(
        detections[order[b] as int].0,
        detections[order[b] as int].1,
        detections[order[b] as int].2,
    ));
}

/// The cells of the ring come side by side: the `i`-th of the top row, of the bottom
/// row, of the left column and of the right column, for each `i` in turn.
pub proof fn law_ring_is_read_step_by_step(width: int, i: int)
    requires
        0 <= i < width,
    ensures
        ring_cell(width, 4 * i) == (i, 0int),
        ring_cell(width, 4 * i + 1) == (i, width - 1),
        ring_cell(width, 4 * i + 2) == (0int, i),
        ring_cell(width, 4 * i + 3) == (width - 1, i),
{
}

/// The corners of a quad, begun at another one.
pub open spec fn corners_turned<T>(corners: Seq<T>, rotation: int) -> Seq<T> {
    Seq::new(4, |i: int| corners[(i + rotation) % 4])
}

/// Corners are turned and never shuffled: a turn by one begins at the next corner, turns
/// add up, and four of them are none.
pub proof fn law_turns_of_corners_add_up<T>(corners: Seq<T>, a: int, b: int)
    requires
        corners.len() == 4,
        0 <= a < 4,
        0 <= b < 4,
    ensures
        corners_turned(corners, 0) =~= corners,
        corners_turned(corners, 1) =~= seq![corners[1], corners[2], corners[3], corners[0]],
        corners_turned(corners_turned(corners, a), b) =~= corners_turned(corners, (a + b) % 4),
{
    assert forall|i: int| 0 <= i < 4 implies corners_turned(corners_turned(corners, a), b)[i]
        == corners_turned(corners, (a + b) % 4)[i] by {
        assert(((i + b) % 4 + a) % 4 == (i + (a + b) % 4) % 4);
    }
}

/// Whether enough of the quiet margin is in the frame to tell white by.
pub open spec fn has_quiet_margin(samples: nat) -> bool {
    samples >= 2 * TOTAL_WIDTH
}

/// The quiet margin tells white by as soon as half of the forty samples around it are in
/// the frame.
pub proof fn law_half_the_margin_is_enough(samples: nat)
    ensures
        has_quiet_margin(samples) <==> 2 * samples >= 4 * 10,
{
}

} // verus!
