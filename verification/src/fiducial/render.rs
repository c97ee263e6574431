//! The cells of a drawn marker.

use vstd::prelude::*;

use crate::fiducial::code36h11::{
    bit_cell, cell_bit, law_bits_fill_the_interior, law_every_interior_cell_has_a_bit, payload_bit,
    to_grid, NBITS, WIDTH_AT_BORDER,
};

verus! {

/// Whether cell `(col, row)` of the bordered square is on its border ring.
pub open spec fn on_border(col: int, row: int) -> bool {
    row == 0 || col == 0 || row == WIDTH_AT_BORDER - 1 || col == WIDTH_AT_BORDER - 1
}

/// Whether cell `(col, row)` of the bordered square of `code` is white.
pub open spec fn cell_is_white(code: u64, col: int, row: int) -> bool {
    !on_border(col, row) && payload_bit(code, cell_bit(col, row))
}

/// The 8x8 cell grid: a one-cell black border around the 6x6 payload.
/// `true` is white.
pub fn cell_grid(code: u64) -> (cells: [[bool; WIDTH_AT_BORDER]; WIDTH_AT_BORDER])
    ensures
        forall|r: int, c: int|
            #![trigger cells@[r]@[c]]
            0 <= r < WIDTH_AT_BORDER && 0 <= c < WIDTH_AT_BORDER ==> cells@[r]@[c] == cell_is_white(
                code,
                c,
                r,
            ),
{
    let data: [[bool; 6]; 6] = to_grid(code);
    let mut cells: [[bool; WIDTH_AT_BORDER]; WIDTH_AT_BORDER] = [[false; WIDTH_AT_BORDER];
        WIDTH_AT_BORDER];
    let mut r: usize = 1;
    while r < WIDTH_AT_BORDER - 1
        invariant
            1 <= r <= WIDTH_AT_BORDER - 1,
            forall|y: int, x: int|
                #![trigger data@[y]@[x]]
                0 <= y < 6 && 0 <= x < 6 ==> data@[y]@[x] == payload_bit(
                    code,
                    cell_bit(x + 1, y + 1),
                ),
            forall|y: int, x: int|
                #![trigger cells@[y]@[x]]
                0 <= y < WIDTH_AT_BORDER && 0 <= x < WIDTH_AT_BORDER ==> cells@[y]@[x] == (y < r
                    && cell_is_white(code, x, y)),
        decreases WIDTH_AT_BORDER - r,
    {
        let mut c: usize = 1;
        while c < WIDTH_AT_BORDER - 1
            invariant
                1 <= r < WIDTH_AT_BORDER - 1,
                1 <= c <= WIDTH_AT_BORDER - 1,
                forall|y: int, x: int|
                    #![trigger data@[y]@[x]]
                    0 <= y < 6 && 0 <= x < 6 ==> data@[y]@[x] == payload_bit(
                        code,
                        cell_bit(x + 1, y + 1),
                    ),
                forall|y: int, x: int|
                    #![trigger cells@[y]@[x]]
                    0 <= y < WIDTH_AT_BORDER && 0 <= x < WIDTH_AT_BORDER ==> cells@[y]@[x] == ((y
                        < r || (y == r && x < c)) && cell_is_white(code, x, y)),
            decreases WIDTH_AT_BORDER - c,
        {
            let white: bool = data[r - 1][c - 1];
            cells[r][c] = white;
            c = c + 1;
        }
        r = r + 1;
    }
    cells
}

/// The border ring of a marker is black, whatever its payload.
pub proof fn law_border_ring_is_black(code: u64, col: int, row: int)
    requires
        on_border(col, row),
    ensures
        !cell_is_white(code, col, row),
{
}

/// Drawing keeps the payload: each payload bit is the colour of its cell.
pub proof fn law_drawing_keeps_the_payload(code: u64, i: int)
    requires
        0 <= i < NBITS,
    ensures
        cell_is_white(code, bit_cell(i).0, bit_cell(i).1) == payload_bit(code, i),
{
    let (x, y) = bit_cell(i);
    law_bits_fill_the_interior(i, i);
    law_every_interior_cell_has_a_bit(x, y);
    law_bits_fill_the_interior(cell_bit(x, y), i);
}

} // verus!
