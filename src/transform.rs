use vstd::prelude::*;

verus! {

/// Integer division rounding towards zero, as Rust's `/` does on signed integers.
pub open spec fn div_trunc(a: int, d: int) -> int {
    if a >= 0 {
        a / d
    } else {
        -((-a) / d)
    }
}

fn div_toward_zero(a: i32, d: i32) -> (r: i32)
    requires
        d > 0,
    ensures
        r == div_trunc(a as int, d as int),
{
    if a >= 0 {
        ((a as u32) / (d as u32)) as i32
    } else {
        let m: u64 = (-(a as i64)) as u64;
        let q: u64 = m / (d as u64);
        assert(q <= m) by (nonlinear_arith)
            requires
                q == m / (d as u64),
                d > 0,
        ;
        -(q as i64) as i32
    }
}

/// Grid cell under a pointer, given the pointer's offset `(local_x, local_y)`
/// from the canvas's top-left corner on screen and the on-screen size of a cell.
/// Offsets are divided rounding towards zero; the result is not clamped, so a
/// caller checks it against the canvas with `cell_in_canvas`.
pub fn to_grid(local_x: i32, local_y: i32, grid_size: i32) -> (r: (i32, i32))
    requires
        grid_size > 0,
    ensures
        r.0 == div_trunc(local_x as int, grid_size as int),
        r.1 == div_trunc(local_y as int, grid_size as int),
{
    (div_toward_zero(local_x, grid_size), div_toward_zero(local_y, grid_size))
}

/// The cell `(col, row)` as indices when it lies on a `width` by `height` canvas.
pub fn cell_in_canvas(col: i32, row: i32, width: u16, height: u16) -> (r: Option<(usize, usize)>)
    ensures
        r is Some <==> (0 <= col < width && 0 <= row < height),
        r matches Some(c) ==> c.0 == col && c.1 == row,
{
    if col < 0 || row < 0 || col >= width as i32 || row >= height as i32 {
        None
    } else {
        Some((col as usize, row as usize))
    }
}

/// An offset anywhere inside the on-screen square of cell `col` (in particular
/// its centre) resolves back to `col`.
pub proof fn lemma_offset_in_cell_resolves(col: int, within: int, grid_size: int)
    requires
        0 <= col,
        0 <= within < grid_size,
    ensures
        div_trunc(col * grid_size + within, grid_size) == col,
{
    assert(0 <= col * grid_size) by (nonlinear_arith)
        requires
            0 <= col,
            0 < grid_size,
    ;
    assert((col * grid_size + within) / grid_size == col) by (nonlinear_arith)
        requires
            0 <= col,
            0 <= within < grid_size,
    ;
}

/// A pointer placed at the centre of an in-bounds cell resolves to that cell.
pub proof fn lemma_cell_centre_resolves(col: int, row: int, grid_size: int, width: int, height: int)
    requires
        0 <= col < width,
        0 <= row < height,
        grid_size > 0,
    ensures
        div_trunc(col * grid_size + grid_size / 2, grid_size) == col,
        div_trunc(row * grid_size + grid_size / 2, grid_size) == row,
{
    lemma_offset_in_cell_resolves(col, grid_size / 2, grid_size);
    lemma_offset_in_cell_resolves(row, grid_size / 2, grid_size);
}

} // verus!
