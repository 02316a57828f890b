//! Flat indexing of the residual 3D LUT.
//!
//! Cells are stored with red varying fastest, then green, then blue, so that
//! cell `(r, g, b)` sits at `b * 17² + g * 17 + r`.
use vstd::prelude::*;

verus! {

/// Number of grid points along each axis of the residual LUT.
pub const LUT_SIZE: usize = 17;

/// Number of cells of the residual LUT (`LUT_SIZE³`).
pub const LUT_TOTAL: usize = 4913;

/// The flat position of cell `(r, g, b)`.
pub open spec fn lut_index_spec(r: int, g: int, b: int) -> int {
    b * 289 + g * 17 + r
}

/// The grid coordinates `(r, g, b)` of flat position `idx`.
pub open spec fn lut_coords_spec(idx: int) -> (int, int, int) {
    ((idx % 289) % 17, (idx % 289) / 17, idx / 289)
}

/// Whether `(r, g, b)` is a point of the 17×17×17 grid.
pub open spec fn in_grid(r: int, g: int, b: int) -> bool {
    0 <= r < 17 && 0 <= g < 17 && 0 <= b < 17
}

/// Flat position of the LUT cell with grid coordinates `(r, g, b)`.
pub fn get_lut_index(r: usize, g: usize, b: usize) -> (idx: usize)
    requires
        lut_index_spec(r as int, g as int, b as int) <= usize::MAX,
    ensures
        idx == lut_index_spec(r as int, g as int, b as int),
        in_grid(r as int, g as int, b as int) ==> idx < LUT_TOTAL,
{
    b * LUT_SIZE * LUT_SIZE + g * LUT_SIZE + r
}

/// Grid coordinates `(r, g, b)` of the LUT cell at flat position `idx`.
pub fn get_lut_coords(idx: usize) -> (rgb: (usize, usize, usize))
    ensures
        (rgb.0 as int, rgb.1 as int, rgb.2 as int) == lut_coords_spec(idx as int),
        rgb.0 < LUT_SIZE,
        rgb.1 < LUT_SIZE,
        idx < LUT_TOTAL ==> rgb.2 < LUT_SIZE,
{
    let b = idx / (LUT_SIZE * LUT_SIZE);
    let remainder = idx % (LUT_SIZE * LUT_SIZE);
    let g = remainder / LUT_SIZE;
    let r = remainder % LUT_SIZE;
    (r, g, b)
}

/// Decoding a cell's flat position gives back the cell's coordinates.
pub proof fn lemma_coords_of_index(r: int, g: int, b: int)
    requires
        in_grid(r, g, b),
    ensures
        lut_coords_spec(lut_index_spec(r, g, b)) == (r, g, b),
        0 <= lut_index_spec(r, g, b) < 4913,
{
    let idx = lut_index_spec(r, g, b);
    assert(idx / 289 == b && idx % 289 == g * 17 + r) by (nonlinear_arith)
        requires idx == b * 289 + g * 17 + r, 0 <= r < 17, 0 <= g < 17, 0 <= b < 17;
    let rem = g * 17 + r;
    assert(rem / 17 == g && rem % 17 == r) by (nonlinear_arith)
        requires rem == g * 17 + r, 0 <= r < 17, 0 <= g < 17;
}

/// Encoding the decoded coordinates of a flat position gives back the position,
/// and every position of the LUT decodes to a point of the grid.
pub proof fn lemma_index_of_coords(idx: int)
    requires
        0 <= idx < 4913,
    ensures
        in_grid(lut_coords_spec(idx).0, lut_coords_spec(idx).1, lut_coords_spec(idx).2),
        lut_index_spec(lut_coords_spec(idx).0, lut_coords_spec(idx).1, lut_coords_spec(idx).2)
            == idx,
{
    let b = idx / 289;
    let rem = idx % 289;
    assert(idx == b * 289 + rem && 0 <= rem < 289 && 0 <= b < 17) by (nonlinear_arith)
        requires 0 <= idx < 4913, b == idx / 289, rem == idx % 289;
    assert(rem == (rem / 17) * 17 + rem % 17 && 0 <= rem / 17 < 17 && 0 <= rem % 17 < 17)
        by (nonlinear_arith)
        requires 0 <= rem < 289;
}

/// Distinct cells of the grid have distinct flat positions.
pub proof fn lemma_index_injective(r1: int, g1: int, b1: int, r2: int, g2: int, b2: int)
    requires
        in_grid(r1, g1, b1),
        in_grid(r2, g2, b2),
        lut_index_spec(r1, g1, b1) == lut_index_spec(r2, g2, b2),
    ensures
        r1 == r2 && g1 == g2 && b1 == b2,
{
    lemma_coords_of_index(r1, g1, b1);
    lemma_coords_of_index(r2, g2, b2);
}

} // verus!
