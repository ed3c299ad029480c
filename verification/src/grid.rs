//! The layout of pixels in the buffer and of blocks on the canvas.

use vstd::arithmetic::div_mod::{lemma_fundamental_div_mod, lemma_fundamental_div_mod_converse};
use vstd::prelude::*;

verus! {

/// Byte position at which pixel `(px, py)` starts on a canvas `width` pixels
/// wide.
pub open spec fn pixel_offset(width: int, px: int, py: int) -> int {
    (py * width + px) * 4
}

/// Whether the four bytes of a pixel that starts at byte `i` lie inside a
/// buffer of `len` bytes.
pub open spec fn pixel_in_buffer(len: int, i: int) -> bool {
    0 <= i && i + 3 < len
}

/// Number of blocks of side `dot` that it takes to cover `extent` pixels.
pub open spec fn blocks_across(extent: int, dot: int) -> int {
    (extent + dot - 1) / dot
}

/// The block with `count` blocks before it starts inside `extent` exactly
/// when fewer than `blocks_across` blocks come before it.
pub proof fn lemma_blocks_across(extent: int, dot: int, count: int)
    requires
        0 <= extent,
        0 < dot,
        0 <= count,
    ensures
        0 <= blocks_across(extent, dot),
        count * dot < extent <==> count < blocks_across(extent, dot),
{
    let n = blocks_across(extent, dot);
    let r = (extent + dot - 1) % dot;
    lemma_fundamental_div_mod(extent + dot - 1, dot);
    assert(extent + dot - 1 == dot * n + r);
    assert(0 <= r < dot);
    assert(0 <= n) by (nonlinear_arith)
        requires
            0 <= extent,
            0 < dot,
            0 <= r < dot,
            extent + dot - 1 == dot * n + r,
    ;
    if count < n {
        assert(count * dot < extent) by (nonlinear_arith)
            requires
                0 <= count <= n - 1,
                0 < dot,
                0 <= r < dot,
                extent + dot - 1 == dot * n + r,
        ;
    } else {
        assert(count * dot >= extent) by (nonlinear_arith)
            requires
                count >= n,
                0 < dot,
                0 <= r < dot,
                extent + dot - 1 == dot * n + r,
        ;
    }
}

/// In a grid `cols` wide, the cell in line `row` and column `col` is number
/// `row * cols + col`, and the number gives both back.
pub proof fn lemma_grid_position(rows: int, cols: int, row: int, col: int)
    requires
        0 <= row < rows,
        0 <= col < cols,
    ensures
        0 <= row * cols + col < rows * cols,
        (row * cols + col) / cols == row,
        (row * cols + col) % cols == col,
        (row + 1) * cols == row * cols + cols,
        0 <= row * cols,
        (row + 1) * cols <= rows * cols,
{
    assert(0 <= row * cols && row * cols + col < rows * cols && (row + 1) * cols == row * cols
        + cols && (row + 1) * cols <= rows * cols) by (nonlinear_arith)
        requires
            0 <= row < rows,
            0 <= col < cols,
    ;
    lemma_fundamental_div_mod_converse(row * cols + col, cols, row, col);
}

/// In a grid of `rows` lines of `cols` cells, cell number `k` stands in line
/// `k / cols` and column `k % cols`.
pub proof fn lemma_grid_cell(rows: int, cols: int, k: int)
    requires
        0 < cols,
        0 <= k < rows * cols,
    ensures
        0 <= k / cols < rows,
        0 <= k % cols < cols,
        k == (k / cols) * cols + k % cols,
{
    let line = k / cols;
    let column = k % cols;
    lemma_fundamental_div_mod(k, cols);
    assert(0 <= line < rows && k == line * cols + column) by (nonlinear_arith)
        requires
            0 < cols,
            0 <= column < cols,
            k == cols * line + column,
            0 <= k < rows * cols,
    ;
}

/// A coordinate between the origins of block `block` and of the next lies in
/// block `block`.
pub proof fn lemma_block_of(v: int, dot: int, block: int)
    requires
        0 < dot,
        block * dot <= v < (block + 1) * dot,
    ensures
        v / dot == block,
        v % dot == v - block * dot,
{
    assert((block + 1) * dot == block * dot + dot) by (nonlinear_arith);
    lemma_fundamental_div_mod_converse(v, dot, block, v - block * dot);
}

/// Where `dot` divides `extent`, the blocks cover it exactly.
pub proof fn lemma_whole_blocks(extent: int, dot: int)
    requires
        0 <= extent,
        0 < dot,
        extent % dot == 0,
    ensures
        0 <= blocks_across(extent, dot),
        blocks_across(extent, dot) * dot == extent,
{
    let n = extent / dot;
    lemma_fundamental_div_mod(extent, dot);
    assert(extent == n * dot && 0 <= n) by (nonlinear_arith)
        requires
            extent == dot * n + 0,
            0 <= extent,
            0 < dot,
    ;
    assert(extent + dot - 1 == n * dot + (dot - 1));
    lemma_fundamental_div_mod_converse(extent + dot - 1, dot, n, dot - 1);
}

/// The mean of `area` bytes is a byte.
pub proof fn lemma_mean_is_byte(sum: int, area: int)
    requires
        0 < area,
        0 <= sum <= 255 * area,
    ensures
        0 <= sum / area <= 255,
{
    lemma_fundamental_div_mod(sum, area);
    let q = sum / area;
    let r = sum % area;
    assert(0 <= q <= 255) by (nonlinear_arith)
        requires
            0 < area,
            0 <= sum <= 255 * area,
            sum == area * q + r,
            0 <= r < area,
    ;
}

} // verus!
