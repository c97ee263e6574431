//! The 36-bit square marker family: payload layout, rotation, lookup.
//!
//! A marker is a six-by-six payload inside a one-cell black border. The payload
//! bits are numbered so that a quarter turn of the marker is a rotation of the
//! 36-bit word by nine places. The table of [`Codebook::standard`] is a
//! generated one and not the published `tag36h11` list;
//! [`Codebook::from_codes`] takes any other.

use vstd::prelude::*;

use crate::count::{how_many, lemma_how_many, lemma_same_count};

verus! {

/// Payload bits of a marker.
pub const NBITS: usize = 36;

/// Cells along one side of the black-bordered square.
pub const WIDTH_AT_BORDER: usize = 8;

/// Cells along one side of the printed marker, the white margin counted.
pub const TOTAL_WIDTH: usize = 10;

/// The low 36 bits.
pub const PAYLOAD_MASK: u64 = 0xf_ffff_ffff;

/// Payload bit `i` of `code`, the most significant of the 36 being bit zero.
pub open spec fn payload_bit(code: u64, i: int) -> bool {
    (code >> ((35 - i) as u64)) & 1u64 == 1u64
}

/// Cell of payload bit `i` of the first nine, as `(column, row)` of the
/// bordered square.
pub open spec fn quadrant_cell(i: int) -> (int, int) {
    if i < 5 {
        (i + 1, 1)
    } else if i < 8 {
        (i - 3, 2)
    } else {
        (3, 3)
    }
}

/// Cell of payload bit `i`: each further nine bits are the first nine turned by
/// another quarter.
pub open spec fn bit_cell(i: int) -> (int, int) {
    let (x, y) = quadrant_cell(i % 9);
    if i < 9 {
        (x, y)
    } else if i < 18 {
        (7 - y, x)
    } else if i < 27 {
        (7 - x, 7 - y)
    } else {
        (y, 7 - x)
    }
}

/// A quarter turn of the bordered square takes bit `i` to bit `i + 9`.
pub proof fn law_quarter_turn_shifts_bits(i: int)
    requires
        0 <= i < 36,
    ensures
        ({
            let (x, y) = bit_cell(i);
            bit_cell((i + 9) % 36) == (7 - y, x)
        }),
{
}

/// The payload bits fill the six-by-six interior, one bit to a cell.
pub proof fn law_bits_fill_the_interior(i: int, j: int)
    requires
        0 <= i < 36,
        0 <= j < 36,
    ensures
        1 <= bit_cell(i).0 <= 6,
        1 <= bit_cell(i).1 <= 6,
        bit_cell(i) == bit_cell(j) ==> i == j,
{
}

/// The payload bit of an interior cell.
pub open spec fn cell_bit(x: int, y: int) -> int {
    choose|i: int| 0 <= i < 36 && #[trigger] bit_cell(i) == (x, y)
}

/// Every interior cell has its payload bit.
pub proof fn law_every_interior_cell_has_a_bit(x: int, y: int)
    requires
        1 <= x <= 6,
        1 <= y <= 6,
    ensures
        0 <= cell_bit(x, y) < 36,
        bit_cell(cell_bit(x, y)) == (x, y),
{
    let i = if y <= 3 && y <= x <= 6 - y {
        let k = if y == 1 {
            x - 1
        } else if y == 2 {
            x + 3
        } else {
            8
        };
        k
    } else if x >= 4 && 7 - x <= y <= x - 1 {
        let k = if x == 6 {
            y - 1
        } else if x == 5 {
            y + 3
        } else {
            8
        };
        k + 9
    } else if y >= 4 && 8 - y <= x <= y {
        let k = if y == 6 {
            6 - x
        } else if y == 5 {
            10 - x
        } else {
            8
        };
        k + 18
    } else {
        let k = if x == 1 {
            6 - y
        } else if x == 2 {
            10 - y
        } else {
            8
        };
        k + 27
    };
    assert(0 <= i < 36 && bit_cell(i) == (x, y));
}

/// Where each payload bit is sampled, as `(column, row)` of the bordered
/// square.
pub fn bit_positions() -> (cells: Vec<(usize, usize)>)
    ensures
        cells@.len() == NBITS,
        forall|i: int|
            0 <= i < NBITS ==> (#[trigger] cells@[i]).0 == bit_cell(i).0 && cells@[i].1 == bit_cell(
                i,
            ).1,
{
    let mut cells: Vec<(usize, usize)> = Vec::new();
    let mut i: usize = 0;
    while i < NBITS
        invariant
            i <= NBITS,
            cells@.len() == i,
            forall|k: int|
                0 <= k < i ==> (#[trigger] cells@[k]).0 == bit_cell(k).0 && cells@[k].1 == bit_cell(
                    k,
                ).1,
        decreases NBITS - i,
    {
        let k: usize = i % 9;
        let cell: (usize, usize) = if k < 5 {
            (k + 1, 1)
        } else if k < 8 {
            (k - 3, 2)
        } else {
            (3, 3)
        };
        let x: usize = cell.0;
        let y: usize = cell.1;
        let turned: (usize, usize) = if i < 9 {
            (x, y)
        } else if i < 18 {
            (7 - y, x)
        } else if i < 27 {
            (7 - x, 7 - y)
        } else {
            (y, 7 - x)
        };
        cells.push(turned);
        i = i + 1;
    }
    cells
}

/// The six-by-six payload as rows of cells; `true` is white.
pub fn to_grid(code: u64) -> (grid: [[bool; 6]; 6])
    ensures
        forall|r: int, c: int|
            #![trigger grid@[r]@[c]]
            0 <= r < 6 && 0 <= c < 6 ==> grid@[r]@[c] == payload_bit(code, cell_bit(c + 1, r + 1)),
{
    let cells: Vec<(usize, usize)> = bit_positions();
    let mut grid: [[bool; 6]; 6] = [[false; 6]; 6];
    let mut i: usize = 0;
    while i < NBITS
        invariant
            i <= NBITS,
            cells@.len() == NBITS,
            forall|k: int|
                0 <= k < NBITS ==> (#[trigger] cells@[k]).0 == bit_cell(k).0 && cells@[k].1
                    == bit_cell(k).1,
            forall|k: int|
                #![trigger bit_cell(k)]
                0 <= k < i ==> grid@[bit_cell(k).1 - 1]@[bit_cell(k).0 - 1] == payload_bit(code, k),
        decreases NBITS - i,
    {
        proof {
            law_bits_fill_the_interior(i as int, i as int);
        }
        let x: usize = cells[i].0 - 1;
        let y: usize = cells[i].1 - 1;
        let shift: u64 = 35 - (i as u64);
        let white: bool = (code >> shift) & 1u64 == 1u64;
        let ghost before = grid;
        grid[y][x] = white;
        proof {
            assert forall|k: int|
                #![trigger bit_cell(k)]
                0 <= k < i + 1 implies grid@[bit_cell(k).1 - 1]@[bit_cell(k).0 - 1] == payload_bit(
                code,
                k,
            ) by {
                law_bits_fill_the_interior(k, i as int);
            }
        }
        i = i + 1;
    }
    proof {
        assert forall|r: int, c: int|
            #![trigger grid@[r]@[c]]
            0 <= r < 6 && 0 <= c < 6 implies grid@[r]@[c] == payload_bit(
            code,
            cell_bit(c + 1, r + 1),
        ) by {
            law_every_interior_cell_has_a_bit(c + 1, r + 1);
            assert(bit_cell(cell_bit(c + 1, r + 1)) == (c + 1, r + 1));
        }
    }
    grid
}

/// The payload word whose bit `i` is `white[i]`.
pub fn assemble_word(white: &Vec<bool>) -> (word: u64)
    requires
        white@.len() == NBITS,
    ensures
        word <= PAYLOAD_MASK,
        forall|i: int| 0 <= i < NBITS ==> payload_bit(word, i) == #[trigger] white@[i],
{
    let mut word: u64 = 0;
    let mut i: usize = 0;
    assert forall|k: int| 0 <= k < NBITS implies !payload_bit(0u64, k) by {
        let s = (35 - k) as u64;
        assert((0u64 >> s) & 1u64 == 0u64) by (bit_vector);
    }
    while i < NBITS
        invariant
            i <= NBITS,
            white@.len() == NBITS,
            word <= PAYLOAD_MASK,
            forall|k: int| 0 <= k < i ==> payload_bit(word, k) == #[trigger] white@[k],
            forall|k: int| i <= k < NBITS ==> !payload_bit(word, k),
        decreases NBITS - i,
    {
        let shift: u64 = 35 - (i as u64);
        if white[i] {
            let before: u64 = word;
            word = before | (1u64 << shift);
            proof {
                assert(before <= 0xf_ffff_ffff && shift < 36 ==> (before | (1u64 << shift))
                    <= 0xf_ffff_ffff) by (bit_vector);
                assert forall|k: int| 0 <= k < NBITS implies payload_bit(word, k) == (k == i
                    || payload_bit(before, k)) by {
                    let s = (35 - k) as u64;
                    assert(s < 36 && shift < 36 ==> (((before | (1u64 << shift)) >> s) & 1u64
                        == 1u64 <==> (s == shift || (before >> s) & 1u64 == 1u64))) by (bit_vector);
                }
            }
        }
        i = i + 1;
    }
    word
}

/// `word` after a quarter turn of the marker it was read from.
pub fn quarter_turn(word: u64) -> (turned: u64)
    ensures
        turned <= PAYLOAD_MASK,
        forall|i: int|
            0 <= i < NBITS ==> #[trigger] payload_bit(turned, i) == payload_bit(word, (i + 9) % 36),
{
    let w: u64 = word & PAYLOAD_MASK;
    let turned: u64 = ((w << 9u64) | (w >> 27u64)) & PAYLOAD_MASK;
    proof {
        assert((((w << 9u64) | (w >> 27u64)) & 0xf_ffff_ffffu64) <= 0xf_ffff_ffffu64)
            by (bit_vector);
        assert forall|i: int| 0 <= i < NBITS implies #[trigger] payload_bit(turned, i)
            == payload_bit(word, (i + 9) % 36) by {
            let s = (35 - i) as u64;
            let t = (35 - (i + 9) % 36) as u64;
            assert(s >= 9 ==> t == s - 9);
            assert(s < 9 ==> t == s + 27);
            assert((((((word & 0xf_ffff_ffffu64) << 9u64) | ((word & 0xf_ffff_ffffu64) >> 27u64))
                & 0xf_ffff_ffffu64) >> s) & 1u64 == (word >> t) & 1u64) by (bit_vector)
                requires
                    s < 36,
                    s >= 9 ==> t == s - 9,
                    s < 9 ==> t == s + 27,
            ;
        }
    }
    turned
}

/// How many of the first `n` bits of `code` differ from those of `word` after
/// `turns` quarter turns.
pub open spec fn mismatches(code: u64, word: u64, turns: int, n: nat) -> nat
    decreases n,
{
    if n == 0 {
        0
    } else {
        mismatches(code, word, turns, (n - 1) as nat) + if payload_bit(code, n - 1) != payload_bit(
            word,
            (n - 1 + 9 * turns) % 36,
        ) {
            1nat
        } else {
            0nat
        }
    }
}

/// Hamming distance of `code` from `word` after `turns` quarter turns.
pub open spec fn turned_distance(code: u64, word: u64, turns: int) -> nat {
    mismatches(code, word, turns, 36)
}

/// Whether `turned` is `word` after `turns` quarter turns.
#[verifier::opaque]
spec fn is_turn(turned: u64, word: u64, turns: int) -> bool {
    forall|i: int|
        0 <= i < NBITS ==> #[trigger] payload_bit(turned, i) == payload_bit(
            word,
            (i + 9 * turns) % 36,
        )
}

/// One bit of a turned word.
proof fn lemma_turned_bit(turned: u64, word: u64, turns: int, i: int)
    requires
        is_turn(turned, word, turns),
        0 <= i < NBITS,
    ensures
        payload_bit(turned, i) == payload_bit(word, (i + 9 * turns) % 36),
{
    reveal(is_turn);
}

/// Turns of a position around the word add up.
proof fn lemma_turns_of_a_bit(i: int, turns: int)
    requires
        0 <= i < 36,
        0 <= turns < 4,
    ensures
        0 <= (i + 9) % 36 < 36,
        ((i + 9) % 36 + 9 * turns) % 36 == (i + 9 * (turns + 1)) % 36,
{
}

/// A further quarter turn of a word that was turned before.
proof fn lemma_further_turn(turned: u64, before: u64, word: u64, turns: int)
    requires
        is_turn(before, word, turns),
        is_turn(turned, before, 1),
        0 <= turns < 4,
    ensures
        is_turn(turned, word, turns + 1),
{
    assert forall|i: int| 0 <= i < NBITS implies #[trigger] payload_bit(turned, i) == payload_bit(
        word,
        (i + 9 * (turns + 1)) % 36,
    ) by {
        lemma_turns_of_a_bit(i, turns);
        lemma_turned_bit(turned, before, 1, i);
        lemma_turned_bit(before, word, turns, (i + 9) % 36);
    }
    assert(is_turn(turned, word, turns + 1)) by {
        reveal(is_turn);
    }
}

/// `word` after a quarter turn.
fn turned_once(word: u64) -> (turned: u64)
    ensures
        is_turn(turned, word, 1),
{
    let turned: u64 = quarter_turn(word);
    assert(is_turn(turned, word, 1)) by {
        reveal(is_turn);
    }
    turned
}

/// A word is itself after no turn.
proof fn lemma_no_turn(word: u64)
    ensures
        is_turn(word, word, 0),
{
    reveal(is_turn);
    assert forall|i: int| 0 <= i < NBITS implies #[trigger] payload_bit(word, i) == payload_bit(
        word,
        (i + 9 * 0) % 36,
    ) by {
        assert((i + 9 * 0) % 36 == i);
    }
}

/// Hamming distance over the payload bits of two words.
fn distance(code: u64, turned: u64, Ghost(word): Ghost<u64>, Ghost(turns): Ghost<int>) -> (d: u32)
    requires
        is_turn(turned, word, turns),
    ensures
        d == turned_distance(code, word, turns),
        d <= NBITS,
{
    proof {
        reveal(is_turn);
    }
    let mut d: u32 = 0;
    let mut i: usize = 0;
    while i < NBITS
        invariant
            i <= NBITS,
            forall|k: int|
                0 <= k < NBITS ==> #[trigger] payload_bit(turned, k) == payload_bit(
                    word,
                    (k + 9 * turns) % 36,
                ),
            d == mismatches(code, word, turns, i as nat),
            d <= i,
        decreases NBITS - i,
    {
        let shift: u64 = 35 - (i as u64);
        let a: bool = (code >> shift) & 1u64 == 1u64;
        let b: bool = (turned >> shift) & 1u64 == 1u64;
        assert(a == payload_bit(code, i as int));
        assert(b == payload_bit(turned, i as int));
        if a != b {
            d = d + 1;
        }
        i = i + 1;
    }
    d
}

/// A codebook entry found for an observed payload.
#[derive(Debug, Clone, Copy, PartialEq, Eq, Structural)]
pub struct CodeMatch {
    /// Index in the codebook.
    pub id: u32,
    /// Bits in which the observation differs from the entry.
    pub hamming: u32,
    /// Quarter turns that bring the observation onto the entry.
    pub rotation: u8,
}

/// Whether `m` describes how `observed` compares with its entry.
pub open spec fn describes(codes: Seq<u64>, observed: u64, m: CodeMatch) -> bool {
    &&& m.id < codes.len()
    &&& m.rotation < 4
    &&& m.hamming == turned_distance(codes[m.id as int], observed, m.rotation as int)
}

/// Whether `m` is preferred to entry `id` at `rotation`: fewer differing bits,
/// then the lower id, then the lower rotation.
pub open spec fn preferred(
    codes: Seq<u64>,
    observed: u64,
    m: CodeMatch,
    id: int,
    rotation: int,
) -> bool {
    let d = turned_distance(codes[id], observed, rotation);
    m.hamming < d || (m.hamming == d && (m.id < id || (m.id == id && m.rotation <= rotation)))
}

/// Whether `m` is the entry and rotation closest to `observed`.
pub open spec fn is_closest(codes: Seq<u64>, observed: u64, m: CodeMatch) -> bool {
    &&& describes(codes, observed, m)
    &&& forall|id: int, rotation: int|
        0 <= id < codes.len() && 0 <= rotation < 4 ==> #[trigger] preferred(
            codes,
            observed,
            m,
            id,
            rotation,
        )
}

/// `found` is the closest entry when that differs in at most `max_hamming` bits,
/// and nothing when every entry differs in more.
pub open spec fn is_lookup(
    codes: Seq<u64>,
    observed: u64,
    max_hamming: u32,
    found: Option<CodeMatch>,
) -> bool {
    match found {
        Some(m) => is_closest(codes, observed, m) && m.hamming <= max_hamming,
        None => forall|id: int, rotation: int|
            #![trigger turned_distance(codes[id], observed, rotation)]
            0 <= id < codes.len() && 0 <= rotation < 4 ==> turned_distance(
                codes[id],
                observed,
                rotation,
            ) > max_hamming,
    }
}

/// A table of payload words, indexed by marker id.
#[derive(Debug, Clone)]
pub struct Codebook {
    codes: Vec<u64>,
}

impl View for Codebook {
    type V = Seq<u64>;

    closed spec fn view(&self) -> Seq<u64> {
        self.codes@
    }
}

/// The generated table.
pub open spec fn standard_codes() -> Seq<u64> {
    seq![
        0x5dc0b13a8u64, 0x6169a196du64, 0x651291f32u64, 0x68bb824f7u64,
        0x6c6472abcu64, 0x700d63081u64, 0x775f43c0bu64, 0x7b08341d0u64,
        0x825a14d5au64, 0x86030531fu64, 0x89abf58e4u64, 0x8d54e5ea9u64,
        0x90fdd646eu64, 0x94a6c6a33u64, 0x984fb6ff8u64, 0xa34a88147u64,
        0xb1ee4985bu64, 0xb59739e20u64, 0xb9402a3e5u64, 0xbce91a9aau64,
        0xc7e3ebaf9u64, 0xcb8cdc0beu64, 0xda309d7d2u64, 0xe52b6e921u64,
        0xe8d45eee6u64, 0xf778205fau64, 0xfb2110bbfu64, 0xfeca01184u64,
        0x0272f1749u64, 0x0d6dc2898u64, 0x14bfa3422u64, 0x1c1183facu64,
        0x236364b36u64, 0x270c550fbu64, 0x2ab5456c0u64, 0x32072624au64,
        0x3d01f7399u64, 0x4ba5b8aadu64, 0x52f799637u64, 0x56a089bfcu64,
        0x5df26a786u64, 0x6c962be9au64, 0x7b39ed5aeu64, 0x828bce138u64,
        0x89ddaecc2u64, 0x912f8f84cu64, 0x94d87fe11u64, 0x9881703d6u64,
        0xa37c41525u64, 0xa72531aeau64, 0xae7712674u64, 0xb22002c39u64,
        0xbd1ad3d88u64, 0xd31076026u64, 0xda6256bb0u64, 0xde0b47175u64,
        0xe1b43773au64, 0xe906182c4u64, 0xf057f8e4eu64, 0xfb52c9f9du64,
        0x09f68b6b1u64, 0x0d9f7bc76u64, 0x273e0e4d9u64, 0x3238df628u64,
    ]
}

impl Codebook {
    /// A table of the caller's. Ids are 32-bit, so no more entries than those.
    pub fn from_codes(codes: Vec<u64>) -> (book: Option<Codebook>)
        ensures
            book is Some <==> codes@.len() <= u32::MAX,
            book matches Some(b) ==> b.wf() && b@ == codes@,
    {
        if codes.len() as u64 <= 0xffff_ffffu64 {
            Some(Codebook { codes })
        } else {
            None
        }
    }

    /// Every entry has a 32-bit id.
    pub open spec fn wf(&self) -> bool {
        self@.len() <= u32::MAX
    }

    /// The generated table of 64 words.
    pub fn standard() -> (book: Codebook)
        ensures
            book.wf(),
            book@ == standard_codes(),
            book@.len() == 64,
            separated(book@, 11),
    {
        let codes: Vec<u64> = vec![
            0x5dc0b13a8u64, 0x6169a196du64, 0x651291f32u64, 0x68bb824f7u64,
            0x6c6472abcu64, 0x700d63081u64, 0x775f43c0bu64, 0x7b08341d0u64,
            0x825a14d5au64, 0x86030531fu64, 0x89abf58e4u64, 0x8d54e5ea9u64,
            0x90fdd646eu64, 0x94a6c6a33u64, 0x984fb6ff8u64, 0xa34a88147u64,
            0xb1ee4985bu64, 0xb59739e20u64, 0xb9402a3e5u64, 0xbce91a9aau64,
            0xc7e3ebaf9u64, 0xcb8cdc0beu64, 0xda309d7d2u64, 0xe52b6e921u64,
            0xe8d45eee6u64, 0xf778205fau64, 0xfb2110bbfu64, 0xfeca01184u64,
            0x0272f1749u64, 0x0d6dc2898u64, 0x14bfa3422u64, 0x1c1183facu64,
            0x236364b36u64, 0x270c550fbu64, 0x2ab5456c0u64, 0x32072624au64,
            0x3d01f7399u64, 0x4ba5b8aadu64, 0x52f799637u64, 0x56a089bfcu64,
            0x5df26a786u64, 0x6c962be9au64, 0x7b39ed5aeu64, 0x828bce138u64,
            0x89ddaecc2u64, 0x912f8f84cu64, 0x94d87fe11u64, 0x9881703d6u64,
            0xa37c41525u64, 0xa72531aeau64, 0xae7712674u64, 0xb22002c39u64,
            0xbd1ad3d88u64, 0xd31076026u64, 0xda6256bb0u64, 0xde0b47175u64,
            0xe1b43773au64, 0xe906182c4u64, 0xf057f8e4eu64, 0xfb52c9f9du64,
            0x09f68b6b1u64, 0x0d9f7bc76u64, 0x273e0e4d9u64, 0x3238df628u64,
        ];
        assert(codes@ =~= standard_codes());
        proof {
            law_standard_codes_keep_their_distance();
        }
        Codebook { codes }
    }

    /// How many entries there are.
    pub fn len(&self) -> (n: usize)
        ensures
            n == self@.len(),
    {
        self.codes.len()
    }

    /// The payload word of marker `id`.
    pub fn code(&self, id: u32) -> (code: Option<u64>)
        ensures
            code == (if id < self@.len() {
                Some(self@[id as int])
            } else {
                None
            }),
    {
        if (id as u64) < self.codes.len() as u64 {
            Some(self.codes[id as usize])
        } else {
            None
        }
    }

    /// The entry closest to `observed` over the four rotations, when it differs
    /// in at most `max_hamming` bits.
    pub fn lookup(&self, observed: u64, max_hamming: u32) -> (found: Option<CodeMatch>)
        requires
            self.wf(),
        ensures
            is_lookup(self@, observed, max_hamming, found),
    {
        let w0: u64 = observed;
        let w1: u64 = turned_once(w0);
        let w2: u64 = turned_once(w1);
        let w3: u64 = turned_once(w2);
        proof {
            lemma_no_turn(w0);
            lemma_further_turn(w1, w0, observed, 0);
            lemma_further_turn(w2, w1, observed, 1);
            lemma_further_turn(w3, w2, observed, 2);
        }
        let ghost codes = self@;
        let mut best: Option<CodeMatch> = None;
        let mut i: usize = 0;
        while i < self.codes.len()
            invariant
                codes == self@,
                codes.len() <= u32::MAX,
                i <= codes.len(),
                is_turn(w0, observed, 0),
                is_turn(w1, observed, 1),
                is_turn(w2, observed, 2),
                is_turn(w3, observed, 3),
                best is None <==> i == 0,
                best matches Some(m) ==> describes(codes, observed, m) && m.id < i,
                best matches Some(m) ==> forall|id: int, rotation: int|
                    0 <= id < i && 0 <= rotation < 4 ==> #[trigger] preferred(
                        codes,
                        observed,
                        m,
                        id,
                        rotation,
                    ),
            decreases codes.len() - i,
        {
            let code: u64 = self.codes[i];
            let d0: u32 = distance(code, w0, Ghost(observed), Ghost(0));
            let d1: u32 = distance(code, w1, Ghost(observed), Ghost(1));
            let d2: u32 = distance(code, w2, Ghost(observed), Ghost(2));
            let d3: u32 = distance(code, w3, Ghost(observed), Ghost(3));
            let mut d: u32 = d0;
            let mut r: u8 = 0;
            if d1 < d {
                d = d1;
                r = 1;
            }
            if d2 < d {
                d = d2;
                r = 2;
            }
            if d3 < d {
                d = d3;
                r = 3;
            }
            let replace: bool = match best {
                None => true,
                Some(m) => d < m.hamming,
            };
            let ghost before = best;
            if replace {
                best = Some(CodeMatch { id: i as u32, hamming: d, rotation: r });
            }
            proof {
                let m = best->0;
                assert forall|id: int, rotation: int|
                    0 <= id < i + 1 && 0 <= rotation < 4 implies #[trigger] preferred(
                    codes,
                    observed,
                    m,
                    id,
                    rotation,
                ) by {
                    if id < i {
                        assert(preferred(codes, observed, before->0, id, rotation));
                    } else {
                        assert(rotation == 0 || rotation == 1 || rotation == 2 || rotation == 3);
                    }
                }
            }
            i = i + 1;
        }
        match best {
            None => None,
            Some(m) => {
                if m.hamming <= max_hamming {
                    Some(m)
                } else {
                    assert forall|id: int, rotation: int|
                        #![trigger turned_distance(self@[id], observed, rotation)]
                        0 <= id < self@.len() && 0 <= rotation < 4 implies turned_distance(
                        self@[id],
                        observed,
                        rotation,
                    ) > max_hamming by {
                        assert(preferred(codes, observed, m, id, rotation));
                    }
                    None
                }
            },
        }
    }
}

/// Whether bit `i` of `code` differs from `word` after `turns` quarter turns.
spec fn differs(code: u64, word: u64, turns: int, i: int) -> nat {
    if payload_bit(code, i) != payload_bit(word, (i + 9 * turns) % 36) {
        1
    } else {
        0
    }
}

/// Differing bits counted from bit `9 * shift` on, around the word.
spec fn mismatches_from(code: u64, word: u64, turns: int, shift: int, n: nat) -> nat
    decreases n,
{
    if n == 0 {
        0
    } else {
        mismatches_from(code, word, turns, shift, (n - 1) as nat) + differs(
            code,
            word,
            turns,
            (n - 1 + 9 * shift) % 36,
        )
    }
}

/// `f(lo) + ... + f(lo + n - 1)`.
spec fn total(f: spec_fn(int) -> nat, lo: int, n: nat) -> nat
    decreases n,
{
    if n == 0 {
        0
    } else {
        total(f, lo, (n - 1) as nat) + f(lo + n - 1)
    }
}

proof fn lemma_total_splits(f: spec_fn(int) -> nat, lo: int, n: nat, m: nat)
    ensures
        total(f, lo, n + m) == total(f, lo, n) + total(f, lo + n, m),
    decreases m,
{
    if m > 0 {
        lemma_total_splits(f, lo, n, (m - 1) as nat);
    }
}

proof fn lemma_total_matches(
    f: spec_fn(int) -> nat,
    g: spec_fn(int) -> nat,
    lo: int,
    other: int,
    n: nat,
)
    requires
        forall|i: int| 0 <= i < n ==> #[trigger] f(lo + i) == g(other + i),
    ensures
        total(f, lo, n) == total(g, other, n),
    decreases n,
{
    if n > 0 {
        lemma_total_matches(f, g, lo, other, (n - 1) as nat);
        assert(f(lo + (n - 1)) == g(other + (n - 1)));
    }
}

proof fn lemma_mismatches_are_totals(code: u64, word: u64, turns: int, shift: int, n: nat)
    ensures
        mismatches(code, word, turns, n) == total(|i: int| differs(code, word, turns, i), 0, n),
        mismatches_from(code, word, turns, shift, n) == total(
            |i: int| differs(code, word, turns, (i + 9 * shift) % 36),
            0,
            n,
        ),
    decreases n,
{
    if n > 0 {
        lemma_mismatches_are_totals(code, word, turns, shift, (n - 1) as nat);
    }
}

/// Counting around the word gives the same number from any start.
proof fn lemma_start_is_immaterial(code: u64, word: u64, turns: int, shift: int)
    requires
        0 <= shift < 4,
    ensures
        mismatches_from(code, word, turns, shift, 36) == mismatches(code, word, turns, 36),
{
    let f = |i: int| differs(code, word, turns, i);
    let g = |i: int| differs(code, word, turns, (i + 9 * shift) % 36);
    let head = (36 - 9 * shift) as nat;
    let tail = (9 * shift) as nat;
    lemma_mismatches_are_totals(code, word, turns, shift, 36);
    lemma_total_splits(g, 0, head, tail);
    lemma_total_splits(f, 0, tail, head);
    assert forall|i: int| 0 <= i < head implies #[trigger] g(0 + i) == f(9 * shift + i) by {
        assert((i + 9 * shift) % 36 == 9 * shift + i);
    }
    lemma_total_matches(g, f, 0, 9 * shift, head);
    assert forall|i: int| 0 <= i < tail implies #[trigger] g(head + i) == f(0 + i) by {
        assert((head + i + 9 * shift) % 36 == i);
    }
    lemma_total_matches(g, f, head as int, 0, tail);
}

/// Turning by the difference of two rotations and then by the second is
/// turning by the first.
proof fn lemma_turns_compose(i: int, ra: int, rb: int)
    requires
        0 <= i < 36,
        0 <= ra < 4,
        0 <= rb < 4,
    ensures
        ((i + 9 * ((ra - rb + 4) % 4)) % 36 + 9 * rb) % 36 == (i + 9 * ra) % 36,
{
    let t = (ra - rb + 4) % 4;
    vstd::arithmetic::div_mod::lemma_add_mod_noop(i + 9 * t, 9 * rb, 36);
    vstd::arithmetic::div_mod::lemma_add_mod_noop((i + 9 * t) % 36, 9 * rb, 36);
    if ra >= rb {
        assert(t == ra - rb);
    } else {
        assert(t == ra - rb + 4);
        vstd::arithmetic::div_mod::lemma_mod_multiples_vanish(1, i + 9 * ra, 36);
        assert(i + 9 * t + 9 * rb == 36 * 1 + (i + 9 * ra));
    }
}

/// The distance between two entries is at most the sum of their distances from
/// a common observation.
proof fn lemma_triangle(a: u64, b: u64, observed: u64, ra: int, rb: int, n: nat)
    requires
        0 <= ra < 4,
        0 <= rb < 4,
        n <= 36,
    ensures
        mismatches(a, b, (ra - rb + 4) % 4, n) <= mismatches(a, observed, ra, n) + mismatches_from(
            b,
            observed,
            rb,
            (ra - rb + 4) % 4,
            n,
        ),
    decreases n,
{
    if n > 0 {
        lemma_triangle(a, b, observed, ra, rb, (n - 1) as nat);
        lemma_turns_compose(n - 1, ra, rb);
    }
}

/// Any two entries differ in at least `d` bits, in every relative rotation, and
/// an entry differs as much from its own quarter turns.
pub open spec fn separated(codes: Seq<u64>, d: nat) -> bool {
    forall|a: int, b: int, turns: int|
        #![trigger turned_distance(codes[a], codes[b], turns)]
        0 <= a < codes.len() && 0 <= b < codes.len() && 0 <= turns < 4 && (a != b || turns != 0)
            ==> turned_distance(codes[a], codes[b], turns) >= d
}

/// Reading corrects errors: in a table whose entries are separated by more than
/// twice the number of bits read wrongly, the closest entry is the marker that
/// was seen, at the rotation in which it was seen.
pub proof fn law_reading_corrects_errors(codes: Seq<u64>, observed: u64, seen: CodeMatch)
    requires
        describes(codes, observed, seen),
        separated(codes, (2 * seen.hamming + 1) as nat),
    ensures
        is_closest(codes, observed, seen),
{
    assert forall|id: int, rotation: int|
        0 <= id < codes.len() && 0 <= rotation < 4 implies #[trigger] preferred(
        codes,
        observed,
        seen,
        id,
        rotation,
    ) by {
        let t = (rotation - seen.rotation + 4) % 4;
        if id != seen.id || rotation != seen.rotation {
            assert(id != seen.id || t != 0);
            lemma_triangle(
                codes[id],
                codes[seen.id as int],
                observed,
                rotation,
                seen.rotation as int,
                36,
            );
            lemma_start_is_immaterial(
                codes[seen.id as int],
                observed,
                seen.rotation as int,
                t,
            );
            assert(turned_distance(codes[id], codes[seen.id as int], t) >= 2 * seen.hamming + 1);
        }
    }
}

/// There is one closest entry.
pub proof fn law_closest_entry_is_unique(
    codes: Seq<u64>,
    observed: u64,
    a: CodeMatch,
    b: CodeMatch,
)
    requires
        is_closest(codes, observed, a),
        is_closest(codes, observed, b),
    ensures
        a == b,
{
    assert(preferred(codes, observed, a, b.id as int, b.rotation as int));
    assert(preferred(codes, observed, b, a.id as int, a.rotation as int));
}

/// A clean reading of entry `id` turned by some quarters differs nowhere.
pub proof fn law_clean_reading_has_no_errors(code: u64, observed: u64, turns: int)
    requires
        forall|i: int|
            0 <= i < 36 ==> #[trigger] payload_bit(code, i) == payload_bit(
                observed,
                (i + 9 * turns) % 36,
            ),
    ensures
        turned_distance(code, observed, turns) == 0,
{
    lemma_clean_prefix(code, observed, turns, 36);
}

proof fn lemma_clean_prefix(code: u64, observed: u64, turns: int, n: nat)
    requires
        n <= 36,
        forall|i: int|
            0 <= i < 36 ==> #[trigger] payload_bit(code, i) == payload_bit(
                observed,
                (i + 9 * turns) % 36,
            ),
    ensures
        mismatches(code, observed, turns, n) == 0,
    decreases n,
{
    if n > 0 {
        lemma_clean_prefix(code, observed, turns, (n - 1) as nat);
    }
}

/// Reading back what was written: when the marker that was seen is separated
/// from all others by more than twice the bits read wrongly, and the bits read
/// wrongly are within the budget, the lookup gives that marker.
pub proof fn law_lookup_gives_the_marker_seen(
    codes: Seq<u64>,
    observed: u64,
    max_hamming: u32,
    seen: CodeMatch,
    found: Option<CodeMatch>,
)
    requires
        describes(codes, observed, seen),
        separated(codes, (2 * seen.hamming + 1) as nat),
        seen.hamming <= max_hamming,
        is_lookup(codes, observed, max_hamming, found),
    ensures
        found == Some(seen),
{
    law_reading_corrects_errors(codes, observed, seen);
    match found {
        Some(m) => law_closest_entry_is_unique(codes, observed, m, seen),
        None => {
            assert(turned_distance(codes[seen.id as int], observed, seen.rotation as int)
                == seen.hamming);
        },
    }
}

/// Whether an entry is far enough from another in every relative rotation; from
/// itself, in every rotation that turns it.
spec fn is_clear_of(codes: Seq<u64>, a: int, b: int, d: nat) -> bool {
    forall|turns: int|
        #![trigger turned_distance(codes[a], codes[b], turns)]
        0 <= turns < 4 && (a != b || turns != 0) ==> turned_distance(codes[a], codes[b], turns)
            >= d
}

impl Codebook {
    /// Whether any two entries differ in at least `d` bits, in every relative
    /// rotation, so that half as many errors can be corrected.
    pub fn is_separated(&self, d: u32) -> (yes: bool)
        ensures
            yes == separated(self@, d as nat),
    {
        let ghost codes = self@;
        let mut b: usize = 0;
        while b < self.codes.len()
            invariant
                codes == self@,
                b <= codes.len(),
                forall|i: int, j: int|
                    0 <= i < codes.len() && 0 <= j < b ==> #[trigger] is_clear_of(
                        codes,
                        i,
                        j,
                        d as nat,
                    ),
            decreases codes.len() - b,
        {
            let w0: u64 = self.codes[b];
            let w1: u64 = turned_once(w0);
            let w2: u64 = turned_once(w1);
            let w3: u64 = turned_once(w2);
            proof {
                lemma_no_turn(w0);
                lemma_further_turn(w1, w0, w0, 0);
                lemma_further_turn(w2, w1, w0, 1);
                lemma_further_turn(w3, w2, w0, 2);
            }
            let mut a: usize = 0;
            while a < self.codes.len()
                invariant
                    codes == self@,
                    b < codes.len(),
                    a <= codes.len(),
                    w0 == codes[b as int],
                    is_turn(w0, w0, 0),
                    is_turn(w1, w0, 1),
                    is_turn(w2, w0, 2),
                    is_turn(w3, w0, 3),
                    forall|i: int|
                        0 <= i < a ==> #[trigger] is_clear_of(codes, i, b as int, d as nat),
                decreases codes.len() - a,
            {
                let code: u64 = self.codes[a];
                let d0: u32 = distance(code, w0, Ghost(w0), Ghost(0));
                let d1: u32 = distance(code, w1, Ghost(w0), Ghost(1));
                let d2: u32 = distance(code, w2, Ghost(w0), Ghost(2));
                let d3: u32 = distance(code, w3, Ghost(w0), Ghost(3));
                if (a != b && d0 < d) || d1 < d || d2 < d || d3 < d {
                    assert(!separated(codes, d as nat)) by {
                        let t: int = if a != b && d0 < d {
                            0
                        } else if d1 < d {
                            1
                        } else if d2 < d {
                            2
                        } else {
                            3
                        };
                        assert(turned_distance(codes[a as int], codes[b as int], t) < d);
                    }
                    return false;
                }
                assert forall|turns: int|
                    #![trigger turned_distance(codes[a as int], codes[b as int], turns)]
                    0 <= turns < 4 && (a != b || turns != 0) implies turned_distance(
                    codes[a as int],
                    codes[b as int],
                    turns,
                ) >= d by {
                    assert(turns == 0 || turns == 1 || turns == 2 || turns == 3);
                }
                assert(is_clear_of(codes, a as int, b as int, d as nat));
                a = a + 1;
            }
            b = b + 1;
        }
        assert(separated(codes, d as nat)) by {
            assert forall|i: int, j: int, turns: int|
                #![trigger turned_distance(codes[i], codes[j], turns)]
                0 <= i < codes.len() && 0 <= j < codes.len() && 0 <= turns < 4 && (i != j || turns
                    != 0) implies turned_distance(codes[i], codes[j], turns) >= d by {
                assert(is_clear_of(codes, i, j, d as nat));
            }
        }
        true
    }
}

/// Whether a word is in the generated table.
#[verifier::inline]
spec fn is_generated(w: u64) -> bool {
    w == 0x5dc0b13a8u64 || w == 0x6169a196du64 || w == 0x651291f32u64 || w == 0x68bb824f7u64
        || w == 0x6c6472abcu64 || w == 0x700d63081u64 || w == 0x775f43c0bu64 || w == 0x7b08341d0u64
        || w == 0x825a14d5au64 || w == 0x86030531fu64 || w == 0x89abf58e4u64 || w == 0x8d54e5ea9u64
        || w == 0x90fdd646eu64 || w == 0x94a6c6a33u64 || w == 0x984fb6ff8u64 || w == 0xa34a88147u64
        || w == 0xb1ee4985bu64 || w == 0xb59739e20u64 || w == 0xb9402a3e5u64 || w == 0xbce91a9aau64
        || w == 0xc7e3ebaf9u64 || w == 0xcb8cdc0beu64 || w == 0xda309d7d2u64 || w == 0xe52b6e921u64
        || w == 0xe8d45eee6u64 || w == 0xf778205fau64 || w == 0xfb2110bbfu64 || w == 0xfeca01184u64
        || w == 0x0272f1749u64 || w == 0x0d6dc2898u64 || w == 0x14bfa3422u64 || w == 0x1c1183facu64
        || w == 0x236364b36u64 || w == 0x270c550fbu64 || w == 0x2ab5456c0u64 || w == 0x32072624au64
        || w == 0x3d01f7399u64 || w == 0x4ba5b8aadu64 || w == 0x52f799637u64 || w == 0x56a089bfcu64
        || w == 0x5df26a786u64 || w == 0x6c962be9au64 || w == 0x7b39ed5aeu64 || w == 0x828bce138u64
        || w == 0x89ddaecc2u64 || w == 0x912f8f84cu64 || w == 0x94d87fe11u64 || w == 0x9881703d6u64
        || w == 0xa37c41525u64 || w == 0xa72531aeau64 || w == 0xae7712674u64 || w == 0xb22002c39u64
        || w == 0xbd1ad3d88u64 || w == 0xd31076026u64 || w == 0xda6256bb0u64 || w == 0xde0b47175u64
        || w == 0xe1b43773au64 || w == 0xe906182c4u64 || w == 0xf057f8e4eu64 || w == 0xfb52c9f9du64
        || w == 0x09f68b6b1u64 || w == 0x0d9f7bc76u64 || w == 0x273e0e4d9u64 || w == 0x3238df628u64
}

/// How many of the 36 bits of a word are set.
#[verifier::inline]
spec fn ones(x: u64) -> int {
    ((x >> 0u64) & 1u64) + ((x >> 1u64) & 1u64) + ((x >> 2u64) & 1u64) + ((x >> 3u64) & 1u64)
        + ((x >> 4u64) & 1u64) + ((x >> 5u64) & 1u64) + ((x >> 6u64) & 1u64) + ((x >> 7u64) & 1u64)
        + ((x >> 8u64) & 1u64) + ((x >> 9u64) & 1u64) + ((x >> 10u64) & 1u64) + ((x >> 11u64) & 1u64)
        + ((x >> 12u64) & 1u64) + ((x >> 13u64) & 1u64) + ((x >> 14u64) & 1u64) + ((x >> 15u64) & 1u64)
        + ((x >> 16u64) & 1u64) + ((x >> 17u64) & 1u64) + ((x >> 18u64) & 1u64) + ((x >> 19u64) & 1u64)
        + ((x >> 20u64) & 1u64) + ((x >> 21u64) & 1u64) + ((x >> 22u64) & 1u64) + ((x >> 23u64) & 1u64)
        + ((x >> 24u64) & 1u64) + ((x >> 25u64) & 1u64) + ((x >> 26u64) & 1u64) + ((x >> 27u64) & 1u64)
        + ((x >> 28u64) & 1u64) + ((x >> 29u64) & 1u64) + ((x >> 30u64) & 1u64) + ((x >> 31u64) & 1u64)
        + ((x >> 32u64) & 1u64) + ((x >> 33u64) & 1u64) + ((x >> 34u64) & 1u64) + ((x >> 35u64) & 1u64)
}

/// Distinct words of the table differ in eleven bits or more.
proof fn lemma_generated_apart(a: u64, b: u64)
    requires
        is_generated(a),
        is_generated(b),
        a != b,
    ensures
        ones(a ^ b) >= 11,
{
    assert(ones(a ^ b) >= 11) by (bit_vector)
        requires
            is_generated(a),
            is_generated(b),
            a != b,
    ;
}

/// A quarter turn of a word of the table differs from every word of the table.
proof fn lemma_generated_apart_turned_once(a: u64, b: u64)
    requires
        is_generated(a),
        is_generated(b),
    ensures
        ones(a ^ ((b << 9u64) | (b >> 27u64))) >= 11,
{
    assert(ones(a ^ ((b << 9u64) | (b >> 27u64))) >= 11) by (bit_vector)
        requires
            is_generated(a),
            is_generated(b),
    ;
}

/// So does a half turn.
proof fn lemma_generated_apart_turned_twice(a: u64, b: u64)
    requires
        is_generated(a),
        is_generated(b),
    ensures
        ones(a ^ ((b << 18u64) | (b >> 18u64))) >= 11,
{
    assert(ones(a ^ ((b << 18u64) | (b >> 18u64))) >= 11) by (bit_vector)
        requires
            is_generated(a),
            is_generated(b),
    ;
}

/// So does the turn back.
proof fn lemma_generated_apart_turned_back(a: u64, b: u64)
    requires
        is_generated(a),
        is_generated(b),
    ensures
        ones(a ^ ((b << 27u64) | (b >> 9u64))) >= 11,
{
    assert(ones(a ^ ((b << 27u64) | (b >> 9u64))) >= 11) by (bit_vector)
        requires
            is_generated(a),
            is_generated(b),
    ;
}

/// A word after a turn that moves its bits by `r` places.
spec fn moved(b: u64, r: u64) -> u64 {
    (b << r) | (b >> ((36 - r) as u64))
}

/// How many of the first `n` payload bits of a word are set.
spec fn ones_before(x: u64, n: nat) -> nat
    decreases n,
{
    if n == 0 {
        0
    } else {
        ones_before(x, (n - 1) as nat) + ((x >> ((36 - n) as u64)) & 1u64) as nat
    }
}

proof fn lemma_mismatches_are_ones(a: u64, b: u64, turns: int, n: nat)
    requires
        0 <= turns < 4,
        n <= 36,
        b <= PAYLOAD_MASK,
    ensures
        mismatches(a, b, turns, n) == ones_before(a ^ moved(b, (9 * turns) as u64), n),
    decreases n,
{
    if n > 0 {
        lemma_mismatches_are_ones(a, b, turns, (n - 1) as nat);
        let r = (9 * turns) as u64;
        let back = (36 - r) as u64;
        let s = (36 - n) as u64;
        let t = (35 - (n - 1 + 9 * turns) % 36) as u64;
        let x = a ^ moved(b, r);
        assert(s >= r ==> t == s - r);
        assert(s < r ==> t == s + back);
        assert((x >> s) & 1u64 == (if ((a >> s) & 1u64 == 1u64) != ((b >> t) & 1u64 == 1u64) {
            1u64
        } else {
            0u64
        })) by (bit_vector)
            requires
                x == a ^ ((b << r) | (b >> back)),
                b <= 0xf_ffff_ffffu64,
                r == 0 || r == 9 || r == 18 || r == 27,
                back == 36 - r,
                s < 36,
                s >= r ==> t == s - r,
                s < r ==> t == s + back,
        ;
    }
}

proof fn lemma_ones(x: u64)
    ensures
        ones_before(x, 36) == ones(x),
{
    reveal_with_fuel(ones_before, 37);
}

proof fn lemma_words_are_generated(i: int)
    requires
        0 <= i < 64,
    ensures
        is_generated(standard_codes()[i]),
        standard_codes()[i] <= PAYLOAD_MASK,
{
}

proof fn lemma_words_are_distinct(i: int, j: int)
    requires
        0 <= i < j < 64,
    ensures
        standard_codes()[i] != standard_codes()[j],
{
}

/// Any two words of the generated table differ in eleven bits or more, in every
/// relative rotation.
pub proof fn law_standard_codes_keep_their_distance()
    ensures
        separated(standard_codes(), 11),
{
    let codes = standard_codes();
    assert(codes.len() == 64);
    assert forall|i: int, j: int, turns: int|
        #![trigger turned_distance(codes[i], codes[j], turns)]
        0 <= i < codes.len() && 0 <= j < codes.len() && 0 <= turns < 4 && (i != j || turns
            != 0) implies turned_distance(codes[i], codes[j], turns) >= 11 by {
        let a = codes[i];
        let b = codes[j];
        lemma_words_are_generated(i);
        lemma_words_are_generated(j);
        lemma_mismatches_are_ones(a, b, turns, 36);
        lemma_ones(a ^ moved(b, (9 * turns) as u64));
        if turns == 0 {
            if i < j {
                lemma_words_are_distinct(i, j);
            } else {
                lemma_words_are_distinct(j, i);
            }
            assert((b << 0u64) | (b >> 36u64) == b) by (bit_vector)
                requires
                    b <= 0xf_ffff_ffffu64,
            ;
            lemma_generated_apart(a, b);
        } else if turns == 1 {
            lemma_generated_apart_turned_once(a, b);
        } else if turns == 2 {
            lemma_generated_apart_turned_twice(a, b);
        } else {
            lemma_generated_apart_turned_back(a, b);
        }
    }
}

/// The generated table corrects five errors: a marker of it read with at most five
/// wrong bits, within the budget, is found as the one that was seen.
pub proof fn law_standard_lookup_corrects_five_errors(
    observed: u64,
    max_hamming: u32,
    seen: CodeMatch,
    found: Option<CodeMatch>,
)
    requires
        describes(standard_codes(), observed, seen),
        seen.hamming <= 5,
        seen.hamming <= max_hamming,
        is_lookup(standard_codes(), observed, max_hamming, found),
    ensures
        found == Some(seen),
{
    law_standard_codes_keep_their_distance();
    law_lookup_gives_the_marker_seen(standard_codes(), observed, max_hamming, seen, found);
}

/// The bits of a payload word are its binary digits, the one of greatest weight first.
pub proof fn law_bits_are_binary_digits(code: u64, i: int)
    requires
        0 <= i < 36,
    ensures
        payload_bit(code, i) <==> (code as int / vstd::arithmetic::power2::pow2(
            (35 - i) as nat,
        ) as int) % 2 == 1,
{
    let s = (35 - i) as u64;
    vstd::bits::lemma_u64_shr_is_div(code, s);
    let q = code >> s;
    assert(q & 1u64 == q % 2u64) by (bit_vector);
}

/// The first nine bits run through the cells of one quadrant row by row: the cells of
/// the top three rows that lie between the two diagonals. The other quadrants are the
/// same cells turned.
pub proof fn law_first_quadrant_is_read_row_by_row(i: int, j: int)
    requires
        0 <= i < j < 9,
    ensures
        ({
            let (x, y) = bit_cell(i);
            let (u, v) = bit_cell(j);
            &&& 1 <= y <= 3 && y <= x <= 6 - y
            &&& 1 <= v <= 3 && v <= u <= 6 - v
            &&& y < v || (y == v && x < u)
        }),
{
}

proof fn lemma_mismatches_counted(code: u64, word: u64, turns: int, n: nat)
    ensures
        mismatches(code, word, turns, n) == how_many(
            n,
            |i: int| payload_bit(code, i) != payload_bit(word, (i + 9 * turns) % 36),
        ),
    decreases n,
{
    let p = |i: int| payload_bit(code, i) != payload_bit(word, (i + 9 * turns) % 36);
    if n > 0 {
        lemma_mismatches_counted(code, word, turns, (n - 1) as nat);
        lemma_how_many(n, p);
    } else {
        lemma_how_many(1, p);
    }
}

/// The distance of a reading from an entry is the number of payload bits in which they
/// differ once the reading has been turned, nine bits for each quarter.
pub proof fn law_distance_counts_the_wrong_bits(code: u64, word: u64, turns: int)
    ensures
        turned_distance(code, word, turns) == how_many(
            36,
            |i: int| payload_bit(code, i) != payload_bit(word, (i + 9 * turns) % 36),
        ),
{
    lemma_mismatches_counted(code, word, turns, 36);
}

/// A lookup gives the nearest entry over the four turns, the lower id among equals and
/// then the lower turn, with the number of bits in which it differs. It gives nothing
/// exactly when no entry is within the budget in any turn.
pub proof fn law_lookup_gives_the_nearest(
    codes: Seq<u64>,
    observed: u64,
    max_hamming: u32,
    found: Option<CodeMatch>,
    id: int,
    turns: int,
)
    requires
        is_lookup(codes, observed, max_hamming, found),
        0 <= id < codes.len(),
        0 <= turns < 4,
    ensures
        ({
            let d = how_many(
                36,
                |i: int| payload_bit(codes[id], i) != payload_bit(observed, (i + 9 * turns) % 36),
            );
            &&& d <= max_hamming ==> found is Some
            &&& found matches Some(m) ==> {
                &&& m.id < codes.len()
                &&& m.rotation < 4
                &&& m.hamming <= max_hamming
                &&& m.hamming == how_many(
                    36,
                    |i: int|
                        payload_bit(codes[m.id as int], i) != payload_bit(
                            observed,
                            (i + 9 * m.rotation) % 36,
                        ),
                )
                &&& m.hamming <= d
                &&& m.hamming == d ==> m.id <= id
                &&& m.hamming == d && m.id == id ==> m.rotation <= turns
            }
        }),
{
    law_distance_counts_the_wrong_bits(codes[id], observed, turns);
    let d = turned_distance(codes[id], observed, turns);
    match found {
        Some(m) => {
            assert(preferred(codes, observed, m, id, turns));
            let code = codes[m.id as int];
            let r = m.rotation as int;
            law_distance_counts_the_wrong_bits(code, observed, r);
            lemma_same_count(
                36,
                |i: int| payload_bit(code, i) != payload_bit(observed, (i + 9 * r) % 36),
                |i: int|
                    payload_bit(codes[m.id as int], i) != payload_bit(
                        observed,
                        (i + 9 * m.rotation) % 36,
                    ),
            );
        },
        None => {},
    }
    let code = codes[id];
    lemma_same_count(
        36,
        |i: int| payload_bit(code, i) != payload_bit(observed, (i + 9 * turns) % 36),
        |i: int| payload_bit(codes[id], i) != payload_bit(observed, (i + 9 * turns) % 36),
    );
    lemma_mismatches_counted(code, observed, turns, 36);
}

} // verus!
