//! Block averaging: the canvas is cut into square blocks, and every block is
//! overwritten with the palette colour nearest to its mean colour.
//!
//! The buffer holds four bytes per pixel (red, green, blue, alpha), line by
//! line. A pixel is located by its byte position alone: a position past the
//! right edge of the canvas is the start of the next line, and only a
//! position past the end of the buffer is left out.

use crate::grid::{
    blocks_across, lemma_blocks_across, lemma_grid_position, lemma_mean_is_byte, pixel_in_buffer,
    pixel_offset,
};
use crate::palette::{closest_color, nearest_color};
use crate::tiling::{lemma_pixelate_by_blocks, pixelated_by_blocks};
use vstd::prelude::*;
use vstd::slice::slice_to_vec;

verus! {

/// The byte positions that the block with origin `(x, y)` visits, line by
/// line and left to right: `dot * dot` of them, whether or not they lie on
/// the canvas or in the buffer.
pub open spec fn block_offsets(width: int, x: int, y: int, dot: int) -> Seq<int> {
    Seq::new((dot * dot) as nat, |k: int| pixel_offset(width, x + k % dot, y + k / dot))
}

/// What the pixel at byte `i` adds to a block's sum for `channel`: its byte,
/// or nothing where the pixel is not inside the buffer.
pub open spec fn sample(buf: Seq<u8>, i: int, channel: int) -> int {
    if pixel_in_buffer(buf.len() as int, i) {
        buf[i + channel] as int
    } else {
        0
    }
}

/// Sum of `channel` over the pixels at `offsets`.
pub open spec fn channel_sum(buf: Seq<u8>, offsets: Seq<int>, channel: int) -> int
    decreases offsets.len(),
{
    if offsets.len() == 0 {
        0
    } else {
        channel_sum(buf, offsets.drop_last(), channel) + sample(buf, offsets.last(), channel)
    }
}

/// Mean colour of the block with origin `(x, y)`. The divisor is always
/// `dot * dot`, however many of the block's pixels lie inside the buffer.
pub open spec fn block_mean(buf: Seq<u8>, width: int, x: int, y: int, dot: int) -> (u8, u8, u8) {
    let offsets = block_offsets(width, x, y, dot);
    (
        (channel_sum(buf, offsets, 0) / (dot * dot)) as u8,
        (channel_sum(buf, offsets, 1) / (dot * dot)) as u8,
        (channel_sum(buf, offsets, 2) / (dot * dot)) as u8,
    )
}

/// The byte that a painted pixel holds at position `channel` of its four:
/// the colour, then full opacity.
pub open spec fn color_byte(color: (u8, u8, u8), channel: int) -> u8 {
    if channel == 0 {
        color.0
    } else if channel == 1 {
        color.1
    } else if channel == 2 {
        color.2
    } else {
        255
    }
}

/// `buf` with every pixel at one of `offsets` that lies inside the buffer
/// set to `color`, fully opaque. Every other byte is kept.
pub open spec fn paint(buf: Seq<u8>, offsets: Seq<int>, color: (u8, u8, u8)) -> Seq<u8> {
    Seq::new(
        buf.len(),
        |j: int|
            if offsets.contains(j - j % 4) && pixel_in_buffer(buf.len() as int, j - j % 4) {
                color_byte(color, j % 4)
            } else {
                buf[j]
            },
    )
}

/// `buf` after the block with origin `(x, y)` has been averaged and painted
/// with the palette colour nearest to its mean.
pub open spec fn spec_pixelate_block(buf: Seq<u8>, width: int, x: int, y: int, dot: int) -> Seq<
    u8,
> {
    paint(buf, block_offsets(width, x, y, dot), nearest_color(block_mean(buf, width, x, y, dot)))
}

/// `buf` after the first `count` blocks of the block line at `y`, taken from
/// left to right.
pub open spec fn pixelate_line(buf: Seq<u8>, width: int, y: int, dot: int, count: nat) -> Seq<u8>
    decreases count,
{
    if count == 0 {
        buf
    } else {
        spec_pixelate_block(
            pixelate_line(buf, width, y, dot, (count - 1) as nat),
            width,
            (count - 1) * dot,
            y,
            dot,
        )
    }
}

/// `buf` after the first `count` block lines, taken from top to bottom, each
/// `across` blocks long.
pub open spec fn pixelate_lines(buf: Seq<u8>, width: int, dot: int, across: nat, count: nat) -> Seq<
    u8,
>
    decreases count,
{
    if count == 0 {
        buf
    } else {
        pixelate_line(
            pixelate_lines(buf, width, dot, across, (count - 1) as nat),
            width,
            (count - 1) * dot,
            dot,
            across,
        )
    }
}

/// The pixelated buffer: all blocks of the canvas, line by line and left to
/// right, each one averaged over the buffer as the blocks before it left it.
pub open spec fn spec_pixelate(buf: Seq<u8>, width: int, height: int, dot: int) -> Seq<u8> {
    pixelate_lines(
        buf,
        width,
        dot,
        blocks_across(width, dot) as nat,
        blocks_across(height, dot) as nat,
    )
}

/// `buf` with the pixel at byte `i` set to `color`, if it lies inside the
/// buffer.
pub open spec fn write_pixel(buf: Seq<u8>, i: int, color: (u8, u8, u8)) -> Seq<u8> {
    if pixel_in_buffer(buf.len() as int, i) {
        buf.update(i, color.0).update(i + 1, color.1).update(i + 2, color.2).update(i + 3, 255u8)
    } else {
        buf
    }
}

/// Taking one more offset into account adds its sample to the sum.
pub proof fn lemma_channel_sum_step(buf: Seq<u8>, offsets: Seq<int>, k: int, channel: int)
    requires
        0 <= k < offsets.len(),
    ensures
        channel_sum(buf, offsets.take(k + 1), channel) == channel_sum(
            buf,
            offsets.take(k),
            channel,
        ) + sample(buf, offsets[k], channel),
{
    assert(offsets.take(k + 1).drop_last() =~= offsets.take(k));
    assert(offsets.take(k + 1).last() == offsets[k]);
}

/// A sum over `n` pixels is at most `255 * n`, for a channel that is a byte
/// of the pixel.
pub proof fn lemma_channel_sum_bound(buf: Seq<u8>, offsets: Seq<int>, channel: int)
    ensures
        0 <= channel_sum(buf, offsets, channel) <= 255 * offsets.len(),
    decreases offsets.len(),
{
    if offsets.len() > 0 {
        lemma_channel_sum_bound(buf, offsets.drop_last(), channel);
    }
}

/// Painting one more offset is painting the pixel there.
pub proof fn lemma_paint_step(buf: Seq<u8>, offsets: Seq<int>, k: int, color: (u8, u8, u8))
    requires
        0 <= k < offsets.len(),
        0 <= offsets[k],
        offsets[k] % 4 == 0,
    ensures
        paint(buf, offsets.take(k + 1), color) == write_pixel(
            paint(buf, offsets.take(k), color),
            offsets[k],
            color,
        ),
{
    let before = offsets.take(k);
    let after = offsets.take(k + 1);
    let i = offsets[k];
    assert forall|v: int| after.contains(v) <==> (before.contains(v) || v == i) by {
        if before.contains(v) {
            let w = choose|w: int| 0 <= w < before.len() && before[w] == v;
            assert(after[w] == v);
        }
        if v == i {
            assert(after[k] == v);
        }
        if after.contains(v) {
            let w = choose|w: int| 0 <= w < after.len() && after[w] == v;
            if w < k {
                assert(before[w] == v);
            }
        }
    }
    let lhs = paint(buf, after, color);
    let mid = paint(buf, before, color);
    let rhs = write_pixel(mid, i, color);
    assert(lhs.len() == rhs.len());
    assert forall|j: int| 0 <= j < lhs.len() implies lhs[j] == rhs[j] by {
        let g = j - j % 4;
        assert(after.contains(g) <==> (before.contains(g) || g == i));
        if g == i && pixel_in_buffer(buf.len() as int, i) {
            assert(i <= j < i + 4);
        } else if pixel_in_buffer(buf.len() as int, i) {
            assert(j < i || j >= i + 4);
        }
    }
    assert(lhs =~= rhs);
}

/// The sums of the three colour channels over the block with origin
/// `(x, y)`.
fn block_sums(buf: &Vec<u8>, width: u32, x: u32, y: u32, dot_size: u32) -> (sums: (
    u128,
    u128,
    u128,
))
    requires
        dot_size > 0,
    ensures
        sums.0 == channel_sum(
            buf@,
            block_offsets(width as int, x as int, y as int, dot_size as int),
            0,
        ),
        sums.1 == channel_sum(
            buf@,
            block_offsets(width as int, x as int, y as int, dot_size as int),
            1,
        ),
        sums.2 == channel_sum(
            buf@,
            block_offsets(width as int, x as int, y as int, dot_size as int),
            2,
        ),
{
    let ghost offsets = block_offsets(width as int, x as int, y as int, dot_size as int);
    let ghost dot = dot_size as int;
    let len: u128 = buf.len() as u128;
    let mut r: u128 = 0;
    let mut g: u128 = 0;
    let mut b: u128 = 0;
    let mut dy: u32 = 0;
    assert(dot * dot <= 0xFFFF_FFFF * 0xFFFF_FFFF) by (nonlinear_arith)
        requires
            0 < dot <= 0xFFFF_FFFF,
    ;
    assert(offsets.take(0) =~= Seq::<int>::empty());
    while dy < dot_size
        invariant
            dot == dot_size,
            0 < dot,
            dot * dot <= 0xFFFF_FFFF * 0xFFFF_FFFF,
            len == buf@.len(),
            len <= usize::MAX,
            offsets == block_offsets(width as int, x as int, y as int, dot),
            0 <= dy <= dot,
            0 <= dy * dot <= dot * dot,
            r == channel_sum(buf@, offsets.take(dy * dot), 0),
            g == channel_sum(buf@, offsets.take(dy * dot), 1),
            b == channel_sum(buf@, offsets.take(dy * dot), 2),
        decreases dot - dy,
    {
        let mut dx: u32 = 0;
        while dx < dot_size
            invariant
                dot == dot_size,
                0 < dot,
                dot * dot <= 0xFFFF_FFFF * 0xFFFF_FFFF,
                len == buf@.len(),
                len <= usize::MAX,
            len <= usize::MAX,
                offsets == block_offsets(width as int, x as int, y as int, dot),
                0 <= dy < dot,
                0 <= dx <= dot,
                0 <= dy * dot + dx <= dot * dot,
                r == channel_sum(buf@, offsets.take(dy * dot + dx), 0),
                g == channel_sum(buf@, offsets.take(dy * dot + dx), 1),
                b == channel_sum(buf@, offsets.take(dy * dot + dx), 2),
            decreases dot - dx,
        {
            let ghost k: int = dy * dot + dx;
            proof {
                lemma_grid_position(dot, dot, dy as int, dx as int);
                lemma_channel_sum_step(buf@, offsets, k, 0);
                lemma_channel_sum_step(buf@, offsets, k, 1);
                lemma_channel_sum_step(buf@, offsets, k, 2);
                lemma_channel_sum_bound(buf@, offsets.take(k), 0);
                lemma_channel_sum_bound(buf@, offsets.take(k), 1);
                lemma_channel_sum_bound(buf@, offsets.take(k), 2);
            }
            let i: u128 = pixel_position(width, x, y, dx, dy);
            if i + 3 < len {
                let at: usize = i as usize;
                r += buf[at] as u128;
                g += buf[at + 1] as u128;
                b += buf[at + 2] as u128;
            }
            dx += 1;
        }
        proof {
            lemma_grid_position(dot, dot, dy as int, 0);
        }
        dy += 1;
    }
    proof {
        assert(dy * dot == dot * dot);
        assert(offsets.take(dot * dot) =~= offsets);
    }
    (r, g, b)
}

/// Byte position of the pixel `dx` to the right of and `dy` below `(x, y)`.
fn pixel_position(width: u32, x: u32, y: u32, dx: u32, dy: u32) -> (i: u128)
    ensures
        i == pixel_offset(width as int, x + dx, y + dy),
        0 <= i,
        i % 4 == 0,
        i + 3 < u128::MAX,
{
    let line: u128 = y as u128 + dy as u128;
    let column: u128 = x as u128 + dx as u128;
    assert(line * (width as u128) <= 0x1_FFFF_FFFE * 0xFFFF_FFFF) by (nonlinear_arith)
        requires
            0 <= line <= 0x1_FFFF_FFFE,
            0 <= width <= 0xFFFF_FFFF,
    ;
    (line * (width as u128) + column) * 4
}

/// Sets every pixel of the block with origin `(x, y)` that lies inside the
/// buffer to `color`, fully opaque.
fn paint_block(buf: &mut Vec<u8>, width: u32, x: u32, y: u32, dot_size: u32, color: (u8, u8, u8))
    requires
        dot_size > 0,
    ensures
        final(buf)@ == paint(
            old(buf)@,
            block_offsets(width as int, x as int, y as int, dot_size as int),
            color,
        ),
{
    let ghost offsets = block_offsets(width as int, x as int, y as int, dot_size as int);
    let ghost dot = dot_size as int;
    let ghost start = buf@;
    let len: u128 = buf.len() as u128;
    let mut dy: u32 = 0;
    proof {
        assert(offsets.take(0) =~= Seq::<int>::empty());
        assert(paint(start, offsets.take(0), color) =~= start);
    }
    while dy < dot_size
        invariant
            dot == dot_size,
            0 < dot,
            len == start.len(),
            len <= usize::MAX,
            offsets == block_offsets(width as int, x as int, y as int, dot),
            0 <= dy <= dot,
            0 <= dy * dot <= dot * dot,
            buf@ == paint(start, offsets.take(dy * dot), color),
        decreases dot - dy,
    {
        let mut dx: u32 = 0;
        while dx < dot_size
            invariant
                dot == dot_size,
                0 < dot,
                len == start.len(),
                len <= usize::MAX,
            len <= usize::MAX,
                offsets == block_offsets(width as int, x as int, y as int, dot),
                0 <= dy < dot,
                0 <= dx <= dot,
                0 <= dy * dot + dx <= dot * dot,
                buf@ == paint(start, offsets.take(dy * dot + dx), color),
            decreases dot - dx,
        {
            let ghost k: int = dy * dot + dx;
            let i: u128 = pixel_position(width, x, y, dx, dy);
            proof {
                lemma_grid_position(dot, dot, dy as int, dx as int);
                lemma_paint_step(start, offsets, k, color);
            }
            if i + 3 < len {
                let at: usize = i as usize;
                buf.set(at, color.0);
                buf.set(at + 1, color.1);
                buf.set(at + 2, color.2);
                buf.set(at + 3, 255);
            }
            dx += 1;
        }
        proof {
            lemma_grid_position(dot, dot, dy as int, 0);
        }
        dy += 1;
    }
    proof {
        assert(dy * dot == dot * dot);
        assert(offsets.take(dot * dot) =~= offsets);
    }
}

/// Averages the block with origin `(x, y)` and paints it with the palette
/// colour nearest to its mean.
pub fn pixelate_block(buf: &mut Vec<u8>, width: u32, x: u32, y: u32, dot_size: u32)
    requires
        dot_size > 0,
    ensures
        final(buf)@ == spec_pixelate_block(
            old(buf)@,
            width as int,
            x as int,
            y as int,
            dot_size as int,
        ),
        final(buf)@.len() == old(buf)@.len(),
{
    let ghost offsets = block_offsets(width as int, x as int, y as int, dot_size as int);
    let ghost dot = dot_size as int;
    let sums: (u128, u128, u128) = block_sums(buf, width, x, y, dot_size);
    assert(0 < dot * dot <= 0xFFFF_FFFF * 0xFFFF_FFFF) by (nonlinear_arith)
        requires
            0 < dot <= 0xFFFF_FFFF,
    ;
    let area: u128 = (dot_size as u128) * (dot_size as u128);
    proof {
        lemma_channel_sum_bound(buf@, offsets, 0);
        lemma_channel_sum_bound(buf@, offsets, 1);
        lemma_channel_sum_bound(buf@, offsets, 2);
        lemma_mean_is_byte(sums.0 as int, area as int);
        lemma_mean_is_byte(sums.1 as int, area as int);
        lemma_mean_is_byte(sums.2 as int, area as int);
    }
    let r: u8 = (sums.0 / area) as u8;
    let g: u8 = (sums.1 / area) as u8;
    let b: u8 = (sums.2 / area) as u8;
    let color: (u8, u8, u8) = closest_color(r, g, b);
    paint_block(buf, width, x, y, dot_size, color);
}

/// Replaces every block of the canvas by the palette colour nearest to its
/// mean colour, alpha set to opaque. Blocks are taken line by line and left
/// to right, each one as the blocks before it left the buffer. Where the
/// width is a whole number of blocks no block reaches into another, and
/// every block gets the colour of its own mean in `buffer`.
pub fn pixelate(buffer: &[u8], width: u32, height: u32, dot_size: u32) -> (out: Vec<u8>)
    requires
        dot_size > 0,
    ensures
        out@ == spec_pixelate(buffer@, width as int, height as int, dot_size as int),
        out@.len() == buffer@.len(),
        width as int % dot_size as int == 0 ==> out@ == pixelated_by_blocks(
            buffer@,
            width as int,
            height as int,
            dot_size as int,
        ),
{
    let ghost dot = dot_size as int;
    let ghost across = blocks_across(width as int, dot) as nat;
    let mut out: Vec<u8> = slice_to_vec(buffer);
    let mut y: u64 = 0;
    let ghost mut lines: nat = 0;
    proof {
        lemma_blocks_across(width as int, dot, 0);
        lemma_blocks_across(height as int, dot, 0);
    }
    while y < height as u64
        invariant
            dot == dot_size,
            0 < dot,
            across == blocks_across(width as int, dot),
            y == lines * dot,
            lines <= blocks_across(height as int, dot),
            y < height + dot,
            out@.len() == buffer@.len(),
            out@ == pixelate_lines(buffer@, width as int, dot, across, lines),
        decreases height + dot - y,
    {
        let ghost line_start = out@;
        let mut x: u64 = 0;
        let ghost mut blocks: nat = 0;
        proof {
            lemma_blocks_across(height as int, dot, lines as int);
        }
        while x < width as u64
            invariant
                dot == dot_size,
                0 < dot,
                across == blocks_across(width as int, dot),
                x == blocks * dot,
                blocks <= across,
                x < width + dot,
                y < height,
                out@.len() == buffer@.len(),
                out@ == pixelate_line(line_start, width as int, y as int, dot, blocks),
            decreases width + dot - x,
        {
            proof {
                lemma_blocks_across(width as int, dot, blocks as int);
            }
            pixelate_block(&mut out, width, x as u32, y as u32, dot_size);
            proof {
                assert((blocks + 1) * dot == blocks * dot + dot) by (nonlinear_arith);
                blocks = blocks + 1;
            }
            x += dot_size as u64;
        }
        proof {
            lemma_blocks_across(width as int, dot, blocks as int);
            assert(blocks == across);
            assert((lines + 1) * dot == lines * dot + dot) by (nonlinear_arith);
            lines = lines + 1;
        }
        y += dot_size as u64;
    }
    proof {
        lemma_blocks_across(height as int, dot, lines as int);
        if width as int % dot == 0 {
            lemma_pixelate_by_blocks(buffer@, width as int, height as int, dot);
        }
    }
    out
}

} // verus!
