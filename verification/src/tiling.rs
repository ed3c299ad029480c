//! The pixelator on a canvas whose width is a whole number of blocks. There
//! no block reaches into another, so the order in which the blocks are taken
//! does not matter: every block is painted with the palette colour nearest
//! to its own mean in the buffer as it was given.

use crate::grid::{
    blocks_across, lemma_block_of, lemma_blocks_across, lemma_grid_cell, lemma_grid_position,
    lemma_whole_blocks, pixel_in_buffer,
};
use crate::glyph::{cell_pixel, cell_prefix, is_uniform_cell};
use crate::palette::nearest_color;
use crate::pixelate::{
    block_mean, block_offsets, channel_sum, color_byte, paint, pixelate_line, pixelate_lines,
    sample, spec_pixelate, spec_pixelate_block,
};
use vstd::arithmetic::div_mod::{
    lemma_div_pos_is_pos, lemma_fundamental_div_mod, lemma_fundamental_div_mod_converse,
};
use vstd::prelude::*;

verus! {

/// Origin of the block that holds the coordinate `v`.
pub open spec fn block_origin(v: int, dot: int) -> int {
    (v / dot) * dot
}

/// The colour that the block holding pixel number `p` is painted with: the
/// palette colour nearest to the mean of that block in `buf`.
pub open spec fn block_paint(buf: Seq<u8>, width: int, dot: int, p: int) -> (u8, u8, u8) {
    nearest_color(
        block_mean(buf, width, block_origin(p % width, dot), block_origin(p / width, dot), dot),
    )
}

/// Byte `j` of the buffer once the first `lines` lines of blocks, and the
/// first `blocks` blocks of the line after them, are painted: the byte of
/// its block's colour where its pixel lies in one of them and inside the
/// buffer, and the byte of `buf` elsewhere.
pub open spec fn settled_byte(
    buf: Seq<u8>,
    width: int,
    dot: int,
    lines: int,
    blocks: int,
    j: int,
) -> u8 {
    let p = j / 4;
    if width > 0 && 4 * p + 3 < buf.len() && (p / width < lines * dot || (p / width < (lines + 1)
        * dot && p % width < blocks * dot)) {
        color_byte(block_paint(buf, width, dot, p), j % 4)
    } else {
        buf[j]
    }
}

/// The buffer once the first `lines` lines of blocks, and the first `blocks`
/// blocks of the line after them, are painted.
pub open spec fn settled(buf: Seq<u8>, width: int, dot: int, lines: int, blocks: int) -> Seq<u8> {
    Seq::new(buf.len(), |j: int| settled_byte(buf, width, dot, lines, blocks, j))
}

/// The buffer with every block painted in the colour of its own mean in
/// `buf`: the pixels of the `blocks_across(height, dot)` lines of blocks
/// that lie inside the buffer, alpha opaque, and every other byte as it was.
pub open spec fn pixelated_by_blocks(buf: Seq<u8>, width: int, height: int, dot: int) -> Seq<u8> {
    settled(buf, width, dot, blocks_across(height, dot), 0)
}

/// Two buffers that agree on the pixels at `offsets` have the same sums
/// there.
pub proof fn lemma_channel_sum_same(a: Seq<u8>, b: Seq<u8>, offsets: Seq<int>, channel: int)
    requires
        forall|k: int|
            0 <= k < offsets.len() ==> #[trigger] sample(a, offsets[k], channel) == sample(
                b,
                offsets[k],
                channel,
            ),
    ensures
        channel_sum(a, offsets, channel) == channel_sum(b, offsets, channel),
    decreases offsets.len(),
{
    if offsets.len() > 0 {
        let front = offsets.drop_last();
        assert forall|k: int| 0 <= k < front.len() implies #[trigger] sample(
            a,
            front[k],
            channel,
        ) == sample(b, front[k], channel) by {
            assert(front[k] == offsets[k]);
        }
        lemma_channel_sum_same(a, b, front, channel);
        assert(offsets.last() == offsets[offsets.len() - 1]);
    }
}

/// The pixel that a block visits `k`-th: where its line and column are, and
/// that its number gives both back.
pub proof fn lemma_offset_pixel(width: int, dot: int, x: int, y: int, k: int)
    requires
        0 < dot,
        0 < width,
        0 <= x,
        0 <= y,
        x + dot <= width,
        0 <= k < dot * dot,
    ensures
        0 <= k / dot < dot,
        0 <= k % dot < dot,
        ({
            let p = (y + k / dot) * width + (x + k % dot);
            &&& block_offsets(width, x, y, dot)[k] == 4 * p
            &&& 0 <= p
            &&& p / width == y + k / dot
            &&& p % width == x + k % dot
        }),
{
    lemma_grid_cell(dot, dot, k);
    let line = y + k / dot;
    let column = x + k % dot;
    assert(0 <= line * width) by (nonlinear_arith)
        requires
            0 <= line,
            0 < width,
    ;
    lemma_fundamental_div_mod_converse(line * width + column, width, line, column);
}

/// A block visits exactly the pixels of its `dot` lines and `dot` columns.
pub proof fn lemma_offsets_contain(width: int, dot: int, x: int, y: int, p: int)
    requires
        0 < dot,
        0 < width,
        0 <= x,
        0 <= y,
        x + dot <= width,
        0 <= p,
    ensures
        block_offsets(width, x, y, dot).contains(4 * p) <==> (y <= p / width < y + dot && x <= p
            % width < x + dot),
{
    let offsets = block_offsets(width, x, y, dot);
    let line = p / width;
    let column = p % width;
    lemma_fundamental_div_mod(p, width);
    if y <= line < y + dot && x <= column < x + dot {
        let dy = line - y;
        let dx = column - x;
        let k = dy * dot + dx;
        lemma_grid_position(dot, dot, dy, dx);
        assert(line * width == width * line) by (nonlinear_arith);
        assert(offsets[k] == 4 * p);
    }
    if offsets.contains(4 * p) {
        let k = choose|k: int| 0 <= k < offsets.len() && offsets[k] == 4 * p;
        lemma_offset_pixel(width, dot, x, y, k);
    }
}

/// Painting the next block of a line, on the buffer as the blocks before it
/// left it, gives the buffer with that block painted too.
pub proof fn lemma_block_settles(buf: Seq<u8>, width: int, dot: int, lines: int, blocks: int)
    requires
        0 < dot,
        0 < width,
        0 <= lines,
        0 <= blocks,
        (blocks + 1) * dot <= width,
    ensures
        spec_pixelate_block(
            settled(buf, width, dot, lines, blocks),
            width,
            blocks * dot,
            lines * dot,
            dot,
        ) == settled(buf, width, dot, lines, blocks + 1),
{
    let before = settled(buf, width, dot, lines, blocks);
    let x = blocks * dot;
    let y = lines * dot;
    let offsets = block_offsets(width, x, y, dot);
    assert(0 <= x && 0 <= y && (blocks + 1) * dot == x + dot && (lines + 1) * dot == y + dot)
        by (nonlinear_arith)
        requires
            0 < dot,
            0 <= lines,
            0 <= blocks,
            x == blocks * dot,
            y == lines * dot,
    ;
    assert(0 <= dot * dot) by (nonlinear_arith);
    assert forall|k: int, channel: int|
        0 <= k < offsets.len() && 0 <= channel < 3 implies #[trigger] sample(
        before,
        offsets[k],
        channel,
    ) == sample(buf, offsets[k], channel) by {
        lemma_offset_pixel(width, dot, x, y, k);
        let p = (y + k / dot) * width + (x + k % dot);
        if pixel_in_buffer(buf.len() as int, 4 * p) {
            assert((4 * p + channel) / 4 == p);
            assert(before[4 * p + channel] == settled_byte(
                buf,
                width,
                dot,
                lines,
                blocks,
                4 * p + channel,
            ));
        }
    }
    lemma_channel_sum_same(before, buf, offsets, 0);
    lemma_channel_sum_same(before, buf, offsets, 1);
    lemma_channel_sum_same(before, buf, offsets, 2);
    let color = nearest_color(block_mean(buf, width, x, y, dot));
    assert(block_mean(before, width, x, y, dot) == block_mean(buf, width, x, y, dot));
    let painted = spec_pixelate_block(before, width, x, y, dot);
    let after = settled(buf, width, dot, lines, blocks + 1);
    assert forall|j: int| 0 <= j < buf.len() implies painted[j] == after[j] by {
        let p = j / 4;
        assert(j - j % 4 == 4 * p);
        assert(before[j] == settled_byte(buf, width, dot, lines, blocks, j));
        if 4 * p + 3 < buf.len() {
            let line = p / width;
            let column = p % width;
            lemma_offsets_contain(width, dot, x, y, p);
            lemma_fundamental_div_mod(p, width);
            lemma_div_pos_is_pos(p, width);
            if y <= line < y + dot && x <= column < x + dot {
                lemma_block_of(column, dot, blocks);
                lemma_block_of(line, dot, lines);
                assert(block_paint(buf, width, dot, p) == color);
            }
        }
    }
    assert(painted =~= after);
}

/// Painting the first `count` blocks of a line, one after the other, gives
/// the buffer with those blocks painted.
pub proof fn lemma_line_settles(buf: Seq<u8>, width: int, dot: int, lines: int, count: nat)
    requires
        0 < dot,
        0 < width,
        0 <= lines,
        count * dot <= width,
    ensures
        pixelate_line(settled(buf, width, dot, lines, 0), width, lines * dot, dot, count)
            == settled(buf, width, dot, lines, count as int),
    decreases count,
{
    if count > 0 {
        assert((count - 1) * dot <= count * dot) by (nonlinear_arith)
            requires
                0 < dot,
        ;
        lemma_line_settles(buf, width, dot, lines, (count - 1) as nat);
        lemma_block_settles(buf, width, dot, lines, count - 1);
    }
}

/// A line of blocks that is painted whole counts as a line done.
pub proof fn lemma_line_done(buf: Seq<u8>, width: int, dot: int, lines: int)
    requires
        0 < dot,
        0 < width,
        width % dot == 0,
        0 <= lines,
    ensures
        settled(buf, width, dot, lines, blocks_across(width, dot)) == settled(
            buf,
            width,
            dot,
            lines + 1,
            0,
        ),
{
    let across = blocks_across(width, dot);
    lemma_whole_blocks(width, dot);
    assert(0 * dot == 0 && lines * dot <= (lines + 1) * dot) by (nonlinear_arith)
        requires
            0 < dot,
    ;
    let whole = settled(buf, width, dot, lines, across);
    let next = settled(buf, width, dot, lines + 1, 0);
    assert forall|j: int| 0 <= j < buf.len() implies whole[j] == next[j] by {
        let p = j / 4;
        lemma_fundamental_div_mod(p, width);
    }
    assert(whole =~= next);
}

/// Painting the first `count` lines of blocks gives the buffer with those
/// lines painted.
pub proof fn lemma_lines_settle(buf: Seq<u8>, width: int, dot: int, count: nat)
    requires
        0 < dot,
        0 <= width,
        width % dot == 0,
    ensures
        pixelate_lines(buf, width, dot, blocks_across(width, dot) as nat, count) == settled(
            buf,
            width,
            dot,
            count as int,
            0,
        ),
    decreases count,
{
    let across = blocks_across(width, dot);
    lemma_whole_blocks(width, dot);
    if count == 0 {
        assert(0 * dot == 0) by (nonlinear_arith);
        assert forall|j: int| 0 <= j < buf.len() implies settled_byte(buf, width, dot, 0, 0, j)
            == buf[j] by {
            if width > 0 {
                lemma_div_pos_is_pos(j / 4, width);
                lemma_fundamental_div_mod(j / 4, width);
            }
        }
        assert(settled(buf, width, dot, 0, 0) =~= buf);
    } else {
        let earlier = pixelate_lines(buf, width, dot, across as nat, (count - 1) as nat);
        lemma_lines_settle(buf, width, dot, (count - 1) as nat);
        if width > 0 {
            lemma_line_settles(buf, width, dot, count - 1, across as nat);
            lemma_line_done(buf, width, dot, count - 1);
        } else {
            assert(across == 0) by (nonlinear_arith)
                requires
                    across * dot == 0,
                    0 < dot,
            ;
            assert(settled(buf, width, dot, count - 1, 0) =~= settled(
                buf,
                width,
                dot,
                count as int,
                0,
            ));
        }
    }
}

/// On a canvas whose width is a whole number of blocks, pixelating paints
/// every block in the colour of its own mean in the buffer as it was given:
/// no block sees what another has painted.
pub proof fn lemma_pixelate_by_blocks(buf: Seq<u8>, width: int, height: int, dot: int)
    requires
        0 < dot,
        0 <= width,
        0 <= height,
        width % dot == 0,
    ensures
        spec_pixelate(buf, width, height, dot) == pixelated_by_blocks(buf, width, height, dot),
{
    lemma_blocks_across(height, dot, 0);
    lemma_lines_settle(buf, width, dot, blocks_across(height, dot) as nat);
}

/// On such a canvas, with a buffer that holds all of it, the cell of a block
/// of the pixelated buffer holds nothing but the block's colour.
pub proof fn lemma_painted_cell(
    buf: Seq<u8>,
    width: int,
    height: int,
    dot: int,
    column: int,
    line: int,
    count: nat,
)
    requires
        0 < dot,
        0 < width,
        0 <= height,
        buf.len() >= 4 * (width * height),
        0 <= column,
        (column + 1) * dot <= width,
        0 <= line,
        line * dot < height,
        count <= dot * dot,
    ensures
        is_uniform_cell(
            cell_prefix(
                pixelated_by_blocks(buf, width, height, dot),
                width,
                height,
                column * dot,
                line * dot,
                dot,
                count,
            ),
            nearest_color(block_mean(buf, width, column * dot, line * dot, dot)),
        ),
    decreases count,
{
    let out = pixelated_by_blocks(buf, width, height, dot);
    let down = blocks_across(height, dot);
    let x = column * dot;
    let y = line * dot;
    let color = nearest_color(block_mean(buf, width, x, y, dot));
    if count > 0 {
        let k = count - 1;
        lemma_painted_cell(buf, width, height, dot, column, line, k as nat);
        let front = cell_prefix(out, width, height, x, y, dot, k as nat);
        lemma_grid_cell(dot, dot, k);
        let px = x + k % dot;
        let py = y + k / dot;
        let pixel = cell_pixel(out, width, height, px, py);
        let cell = cell_prefix(out, width, height, x, y, dot, count);
        assert(cell == front + pixel);
        assert(0 <= x && 0 <= y && (column + 1) * dot == x + dot && (line + 1) * dot == y + dot)
            by (nonlinear_arith)
            requires
                0 < dot,
                0 <= line,
                0 <= column,
                x == column * dot,
                y == line * dot,
        ;
        if px < width && py < height {
            let p = py * width + px;
            assert(0 <= p && p + 1 <= width * height) by (nonlinear_arith)
                requires
                    0 <= px < width,
                    0 <= py < height,
                    p == py * width + px,
            ;
            lemma_fundamental_div_mod_converse(p, width, py, px);
            lemma_block_of(px, dot, column);
            lemma_block_of(py, dot, line);
            lemma_blocks_across(height, dot, down);
            assert(block_paint(buf, width, dot, p) == color);
            assert forall|t: int| 0 <= t < 4 implies #[trigger] pixel[t] == color_byte(color, t) by {
                assert((4 * p + t) / 4 == p);
                assert(pixel[t] == out[4 * p + t]);
                assert(out[4 * p + t] == settled_byte(buf, width, dot, down, 0, 4 * p + t));
            }
            assert(pixel.len() == 4);
        } else {
            assert(pixel.len() == 0);
        }
        assert forall|i: int| 0 <= i < cell.len() && i % 4 != 3 implies #[trigger] cell[i]
            == color_byte(color, i % 4) by {
            if i >= front.len() {
                assert(cell[i] == pixel[i - front.len()]);
            } else {
                assert(cell[i] == front[i]);
            }
        }
    }
}

} // verus!
