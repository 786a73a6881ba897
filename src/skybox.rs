use vstd::prelude::*;

verus! {

/// The texel that a lattice position selects on a `width` by `height`
/// equirectangular grid stored row by row: the column wraps around the
/// horizon and the row is clamped to the last row.
pub open spec fn texel_spec(col: int, row: int, width: int, height: int) -> int {
    let r = if row < height { row } else { height - 1 };
    r * width + col % width
}

/// Index of the texel at column `col` and row `row`; `col` wraps modulo
/// `width`, a `row` past the bottom is clamped to the last row.
pub fn texel_index(col: u64, row: u64, width: usize, height: usize) -> (r: usize)
    requires
        width > 0,
        height > 0,
        width * height <= usize::MAX,
    ensures
        r as int == texel_spec(col as int, row as int, width as int, height as int),
        r < width * height,
{
    let c = (col % (width as u64)) as usize;
    let rw: usize = if row < height as u64 { row as usize } else { height - 1 };
    assert(rw * width + c < width * height) by (nonlinear_arith)
        requires
            rw < height,
            c < width,
    ;
    rw * width + c
}

/// The first row of the grid holds what lies straight up.
pub proof fn lemma_top_row(col: int, width: int, height: int)
    requires
        width > 0,
        height > 0,
        col >= 0,
    ensures
        0 <= texel_spec(col, 0, width, height) < width,
{
}

/// Any row at or past the bottom selects the last row.
pub proof fn lemma_bottom_row(col: int, row: int, width: int, height: int)
    requires
        width > 0,
        height > 0,
        col >= 0,
        row >= height,
    ensures
        (height - 1) * width <= texel_spec(col, row, width, height) < height * width,
{
    assert((height - 1) * width + width == height * width) by (nonlinear_arith);
}

} // verus!
