//! From blocks to glyphs: every block of the canvas is sampled, reduced to a
//! palette colour and drawn as the glyph of that colour, one line of text per
//! line of blocks.

use crate::grid::{
    blocks_across, lemma_blocks_across, lemma_grid_cell, lemma_grid_position, lemma_mean_is_byte,
    pixel_offset,
};
use crate::palette::{
    closest_color, lemma_nearest_color, lemma_palette_color_is_nearest, lemma_palette_distinct,
    nearest_color, palette,
};
use crate::pixelate::color_byte;
use vstd::arithmetic::div_mod::lemma_fundamental_div_mod_converse;
use vstd::prelude::*;

verus! {

/// `String::push` of the standard library, which appends one character to
/// the end of the string: afterwards the string reads as before, followed by
/// `ch`.
pub assume_specification[ String::push ](s: &mut String, ch: char)
    ensures
        final(s)@ == old(s)@.push(ch),
;

/// The glyph of the white square, which also stands for a cell without
/// pixels and, among the squares, for a colour that is not in the palette.
pub const WHITE_SQUARE: char = '\u{2B1C}';

/// The character that ends every line of glyphs.
pub const LINE_END: char = '\n';

/// The glyphs of one style, in palette order. The plain style draws
/// coloured squares (red, orange, yellow, green, blue, purple, brown, black,
/// white); the other draws faces and things (angry face, tangerine, star,
/// nauseated face, cold face, devil, pile of poo, alien, ghost).
pub open spec fn glyph_table(plain: bool) -> Seq<char> {
    if plain {
        seq![
            '\u{1F7E5}',
            '\u{1F7E7}',
            '\u{1F7E8}',
            '\u{1F7E9}',
            '\u{1F7E6}',
            '\u{1F7EA}',
            '\u{1F7EB}',
            '\u{2B1B}',
            '\u{2B1C}',
        ]
    } else {
        seq![
            '\u{1F621}',
            '\u{1F34A}',
            '\u{2B50}',
            '\u{1F922}',
            '\u{1F976}',
            '\u{1F608}',
            '\u{1F4A9}',
            '\u{1F47E}',
            '\u{1F47B}',
        ]
    }
}

/// Position of `color` in the palette, where it is one of its entries.
pub open spec fn palette_index(color: (u8, u8, u8)) -> int {
    choose|k: int| 0 <= k < palette().len() && palette()[k] == color
}

/// The glyph of `color` in the given style: the table's glyph at the
/// colour's place in the palette, and white's glyph for any other colour.
pub open spec fn spec_glyph(color: (u8, u8, u8), plain: bool) -> char {
    if palette().contains(color) {
        glyph_table(plain)[palette_index(color)]
    } else {
        glyph_table(plain)[8]
    }
}

/// The bytes that the pixel `(px, py)` adds to a cell: nothing where it is
/// off the canvas, its four bytes where they lie inside the buffer, and a
/// transparent black pixel where they do not.
pub open spec fn cell_pixel(buf: Seq<u8>, width: int, height: int, px: int, py: int) -> Seq<u8> {
    if px < width && py < height {
        let i = pixel_offset(width, px, py);
        if i + 4 <= buf.len() {
            buf.subrange(i, i + 4)
        } else {
            seq![0u8, 0u8, 0u8, 0u8]
        }
    } else {
        Seq::empty()
    }
}

/// The cell of the block with origin `(x, y)` after the first `count` of its
/// pixels, taken line by line and left to right.
pub open spec fn cell_prefix(
    buf: Seq<u8>,
    width: int,
    height: int,
    x: int,
    y: int,
    dot: int,
    count: nat,
) -> Seq<u8>
    decreases count,
{
    if count == 0 {
        Seq::empty()
    } else {
        cell_prefix(buf, width, height, x, y, dot, (count - 1) as nat) + cell_pixel(
            buf,
            width,
            height,
            x + (count - 1) % dot,
            y + (count - 1) / dot,
        )
    }
}

/// The cell of the block with origin `(x, y)`: the bytes of its pixels that
/// lie on the canvas.
pub open spec fn spec_extract_cell(
    buf: Seq<u8>,
    x: int,
    y: int,
    width: int,
    height: int,
    dot: int,
) -> Seq<u8> {
    cell_prefix(buf, width, height, x, y, dot, (dot * dot) as nat)
}

/// Number of pixels that a cell of `len` bytes holds, a last one that lacks
/// its alpha byte included.
pub open spec fn cell_pixels(len: int) -> int {
    (len + 3) / 4
}

/// Sum of `channel` over the first `count` pixels of a cell.
pub open spec fn cell_sum(cell: Seq<u8>, channel: int, count: nat) -> int
    decreases count,
{
    if count == 0 {
        0
    } else {
        cell_sum(cell, channel, (count - 1) as nat) + cell[4 * (count - 1) + channel]
    }
}

/// Mean colour of a cell that holds at least one pixel; alpha is not looked
/// at.
pub open spec fn cell_mean(cell: Seq<u8>) -> (u8, u8, u8) {
    let count = cell_pixels(cell.len() as int);
    (
        (cell_sum(cell, 0, count as nat) / count) as u8,
        (cell_sum(cell, 1, count as nat) / count) as u8,
        (cell_sum(cell, 2, count as nat) / count) as u8,
    )
}

/// The glyph of a cell: the glyph of the palette colour nearest to its mean
/// colour, and the white square, in either style, for a cell without pixels.
pub open spec fn spec_analyze_cell(cell: Seq<u8>, plain: bool) -> char {
    if cell.len() == 0 {
        WHITE_SQUARE
    } else {
        spec_glyph(nearest_color(cell_mean(cell)), plain)
    }
}

/// The glyph of the block with origin `(x, y)`.
pub open spec fn block_glyph(
    buf: Seq<u8>,
    width: int,
    height: int,
    x: int,
    y: int,
    dot: int,
    plain: bool,
) -> char {
    spec_analyze_cell(spec_extract_cell(buf, x, y, width, height, dot), plain)
}

/// The text of the canvas: for every line of blocks the glyphs of its
/// blocks from left to right, then a line end.
pub open spec fn spec_glyph_rows(buf: Seq<u8>, width: int, height: int, dot: int, plain: bool) -> Seq<
    char,
> {
    let across = blocks_across(width, dot);
    let down = blocks_across(height, dot);
    Seq::new(
        (down * (across + 1)) as nat,
        |k: int|
            if k % (across + 1) == across {
                LINE_END
            } else {
                block_glyph(
                    buf,
                    width,
                    height,
                    (k % (across + 1)) * dot,
                    (k / (across + 1)) * dot,
                    dot,
                    plain,
                )
            },
    )
}

/// A palette colour has the glyph that stands at its own place in the table.
pub proof fn lemma_glyph_of_entry(k: int, plain: bool)
    requires
        0 <= k < palette().len(),
    ensures
        palette().contains(palette()[k]),
        palette_index(palette()[k]) == k,
        spec_glyph(palette()[k], plain) == glyph_table(plain)[k],
{
    let color = palette()[k];
    assert(palette().contains(color));
    lemma_palette_distinct(palette_index(color), k);
}

/// A cell is made of whole pixels.
pub proof fn lemma_cell_whole_pixels(
    buf: Seq<u8>,
    width: int,
    height: int,
    x: int,
    y: int,
    dot: int,
    count: nat,
)
    requires
        0 <= width,
        0 <= x,
        0 <= y,
        0 < dot,
    ensures
        cell_prefix(buf, width, height, x, y, dot, count).len() % 4 == 0,
    decreases count,
{
    if count > 0 {
        lemma_cell_whole_pixels(buf, width, height, x, y, dot, (count - 1) as nat);
        let px = x + (count - 1) % dot;
        let py = y + (count - 1) / dot;
        assert(0 <= (count - 1) / dot) by (nonlinear_arith)
            requires
                0 <= count - 1,
                0 < dot,
        ;
        assert(0 <= py * width) by (nonlinear_arith)
            requires
                0 <= py,
                0 <= width,
        ;
        assert(cell_pixel(buf, width, height, px, py).len() % 4 == 0);
    }
}

/// A sum over `count` pixels is at most `255 * count`.
pub proof fn lemma_cell_sum_bound(cell: Seq<u8>, channel: int, count: nat)
    requires
        0 <= channel,
        4 * count + channel < cell.len() + 4,
    ensures
        0 <= cell_sum(cell, channel, count) <= 255 * count,
    decreases count,
{
    if count > 0 {
        lemma_cell_sum_bound(cell, channel, (count - 1) as nat);
    }
}

/// No glyph is the line end.
pub proof fn lemma_glyph_is_no_line_end(color: (u8, u8, u8), plain: bool)
    ensures
        spec_glyph(color, plain) != LINE_END,
        WHITE_SQUARE != LINE_END,
{
    if palette().contains(color) {
        let k = palette_index(color);
        assert(0 <= k < 9);
    }
}

/// The two styles give every palette colour a glyph of its own: the one at
/// the colour's place in the style's table, and no two colours share a glyph.
/// No palette colour is drawn with the glyph that unknown colours fall back
/// to unless it is white itself.
pub proof fn lemma_glyph_coverage(j: int, k: int, plain: bool)
    requires
        0 <= j < palette().len(),
        0 <= k < palette().len(),
    ensures
        palette().contains(palette()[k]),
        spec_glyph(palette()[k], plain) == glyph_table(plain)[k],
        j != k ==> spec_glyph(palette()[j], plain) != spec_glyph(palette()[k], plain),
        spec_glyph(palette()[k], plain) == glyph_table(plain)[8] ==> k == 8,
{
    lemma_glyph_of_entry(j, plain);
    lemma_glyph_of_entry(k, plain);
}

/// The cell of a block whose origin lies on the canvas holds at least that
/// pixel.
pub proof fn lemma_cell_not_empty(
    buf: Seq<u8>,
    width: int,
    height: int,
    x: int,
    y: int,
    dot: int,
    count: nat,
)
    requires
        0 <= x < width,
        0 <= y < height,
        0 < dot,
        1 <= count,
    ensures
        cell_prefix(buf, width, height, x, y, dot, count).len() >= 4,
    decreases count,
{
    if count == 1 {
        assert(cell_prefix(buf, width, height, x, y, dot, 0).len() == 0);
        assert(0int % dot == 0 && 0int / dot == 0) by (nonlinear_arith)
            requires
                0 < dot,
        ;
        assert(0 <= y * width) by (nonlinear_arith)
            requires
                0 <= y,
                0 <= width,
        ;
        assert(cell_pixel(buf, width, height, x, y).len() == 4);
    } else {
        lemma_cell_not_empty(buf, width, height, x, y, dot, (count - 1) as nat);
    }
}

/// `text` is `down` lines of `across` glyphs each: a line end stands after
/// every `across` characters and nowhere else.
pub open spec fn is_grid_text(text: Seq<char>, across: int, down: int) -> bool {
    &&& text.len() == down * (across + 1)
    &&& forall|k: int|
        0 <= k < text.len() ==> ((#[trigger] text[k] == LINE_END) <==> k % (across + 1) == across)
}

/// The colour that the block with origin `(x, y)` is classified as: the
/// palette colour nearest to the mean of its cell. It does not depend on the
/// style.
pub open spec fn block_class(buf: Seq<u8>, width: int, height: int, x: int, y: int, dot: int) -> (
    u8,
    u8,
    u8,
) {
    nearest_color(cell_mean(spec_extract_cell(buf, x, y, width, height, dot)))
}

/// The text of a canvas has one line for every line of blocks and, in each
/// line, one glyph for every block.
pub proof fn lemma_rows_shape(buf: Seq<u8>, width: int, height: int, dot: int, plain: bool)
    requires
        0 <= width,
        0 <= height,
        0 < dot,
    ensures
        is_grid_text(
            spec_glyph_rows(buf, width, height, dot, plain),
            blocks_across(width, dot),
            blocks_across(height, dot),
        ),
{
    let across = blocks_across(width, dot);
    let down = blocks_across(height, dot);
    let text = spec_glyph_rows(buf, width, height, dot, plain);
    lemma_blocks_across(width, dot, 0);
    lemma_blocks_across(height, dot, 0);
    assert(0 <= down * (across + 1)) by (nonlinear_arith)
        requires
            0 <= down,
            0 <= across,
    ;
    assert forall|k: int| 0 <= k < text.len() implies ((#[trigger] text[k] == LINE_END) <==> k % (
    across + 1) == across) by {
        if k % (across + 1) != across {
            let x = (k % (across + 1)) * dot;
            let y = (k / (across + 1)) * dot;
            let cell = spec_extract_cell(buf, x, y, width, height, dot);
            lemma_glyph_is_no_line_end(nearest_color(cell_mean(cell)), plain);
        }
    }
}

/// Switching the style changes the glyphs and nothing else: both texts have
/// the same lines, and at every place the two glyphs are the two styles'
/// glyphs of one palette colour, the one that the block is classified as.
pub proof fn lemma_rows_style_switch(buf: Seq<u8>, width: int, height: int, dot: int)
    requires
        0 <= width,
        0 <= height,
        0 < dot,
    ensures
        ({
            let plain = spec_glyph_rows(buf, width, height, dot, true);
            let themed = spec_glyph_rows(buf, width, height, dot, false);
            let across = blocks_across(width, dot);
            &&& plain.len() == themed.len()
            &&& forall|k: int|
                0 <= k < plain.len() ==> ((#[trigger] plain[k] == LINE_END) <==> themed[k]
                    == LINE_END)
            &&& forall|k: int|
                0 <= k < plain.len() && #[trigger] plain[k] != LINE_END ==> {
                    let class = block_class(
                        buf,
                        width,
                        height,
                        (k % (across + 1)) * dot,
                        (k / (across + 1)) * dot,
                        dot,
                    );
                    &&& palette().contains(class)
                    &&& plain[k] == spec_glyph(class, true)
                    &&& themed[k] == spec_glyph(class, false)
                }
        }),
{
    let plain = spec_glyph_rows(buf, width, height, dot, true);
    let themed = spec_glyph_rows(buf, width, height, dot, false);
    let across = blocks_across(width, dot);
    let down = blocks_across(height, dot);
    lemma_rows_shape(buf, width, height, dot, true);
    lemma_rows_shape(buf, width, height, dot, false);
    assert forall|k: int| 0 <= k < plain.len() && #[trigger] plain[k] != LINE_END implies {
        let class = block_class(
            buf,
            width,
            height,
            (k % (across + 1)) * dot,
            (k / (across + 1)) * dot,
            dot,
        );
        &&& palette().contains(class)
        &&& plain[k] == spec_glyph(class, true)
        &&& themed[k] == spec_glyph(class, false)
    } by {
        let column = k % (across + 1);
        let line = k / (across + 1);
        lemma_blocks_across(width, dot, 0);
        lemma_grid_cell(down, across + 1, k);
        assert(column < across);
        lemma_blocks_across(width, dot, column);
        lemma_blocks_across(height, dot, line);
        assert(0 <= column * dot && 0 <= line * dot && 1 <= dot * dot) by (nonlinear_arith)
            requires
                0 <= column,
                0 <= line,
                0 < dot,
        ;
        lemma_cell_not_empty(buf, width, height, column * dot, line * dot, dot, (dot * dot) as nat);
        let cell = spec_extract_cell(buf, column * dot, line * dot, width, height, dot);
        lemma_nearest_color(cell_mean(cell));
    }
}

/// Every pixel of the cell has the colour `color`; alpha is left open.
pub open spec fn is_uniform_cell(cell: Seq<u8>, color: (u8, u8, u8)) -> bool {
    &&& cell.len() % 4 == 0
    &&& forall|i: int|
        0 <= i < cell.len() && i % 4 != 3 ==> #[trigger] cell[i] == color_byte(color, i % 4)
}

/// Over `count` pixels of one colour a channel sums to `count` times its
/// value.
pub proof fn lemma_uniform_sum(cell: Seq<u8>, color: (u8, u8, u8), channel: int, count: nat)
    requires
        is_uniform_cell(cell, color),
        0 <= channel < 3,
        4 * count <= cell.len(),
    ensures
        cell_sum(cell, channel, count) == count * color_byte(color, channel),
    decreases count,
{
    let value = color_byte(color, channel) as int;
    if count > 0 {
        let fewer = (count - 1) as nat;
        lemma_uniform_sum(cell, color, channel, fewer);
        assert(cell[4 * fewer + channel] == value);
        assert(fewer * value + value == count * value) by (nonlinear_arith)
            requires
                fewer + 1 == count,
        ;
    } else {
        assert(count * value == 0) by (nonlinear_arith)
            requires
                count == 0,
        ;
    }
}

/// A cell whose pixels all have one palette colour is drawn with the glyph
/// of that colour.
pub proof fn lemma_uniform_cell_glyph(cell: Seq<u8>, color: (u8, u8, u8), plain: bool)
    requires
        is_uniform_cell(cell, color),
        cell.len() >= 4,
        palette().contains(color),
    ensures
        spec_analyze_cell(cell, plain) == spec_glyph(color, plain),
{
    let count = cell_pixels(cell.len() as int);
    assert(4 * count == cell.len());
    lemma_uniform_sum(cell, color, 0, count as nat);
    lemma_uniform_sum(cell, color, 1, count as nat);
    lemma_uniform_sum(cell, color, 2, count as nat);
    assert forall|value: int| 0 <= value implies #[trigger] (count * value) / count == value by {
        assert(count * value == value * count + 0) by (nonlinear_arith);
        lemma_fundamental_div_mod_converse(count * value, count, value, 0);
    }
    assert(cell_mean(cell) == color);
    let k = palette_index(color);
    lemma_palette_color_is_nearest(k);
}

/// The glyph of `color` in the given style: one glyph for each palette
/// colour, and white's glyph for every other colour.
pub fn glyph_for(color: (u8, u8, u8), plain: bool) -> (glyph: char)
    ensures
        glyph == spec_glyph(color, plain),
{
    proof {
        lemma_glyph_of_entry(0, plain);
        lemma_glyph_of_entry(1, plain);
        lemma_glyph_of_entry(2, plain);
        lemma_glyph_of_entry(3, plain);
        lemma_glyph_of_entry(4, plain);
        lemma_glyph_of_entry(5, plain);
        lemma_glyph_of_entry(6, plain);
        lemma_glyph_of_entry(7, plain);
        lemma_glyph_of_entry(8, plain);
    }
    if plain {
        match color {
            (255, 119, 99) => '\u{1F7E5}',
            (255, 155, 59) => '\u{1F7E7}',
            (243, 191, 63) => '\u{1F7E8}',
            (131, 211, 19) => '\u{1F7E9}',
            (0, 235, 219) => '\u{1F7E6}',
            (63, 191, 255) => '\u{1F7EA}',
            (134, 74, 43) => '\u{1F7EB}',
            (0, 0, 0) => '\u{2B1B}',
            (255, 255, 255) => '\u{2B1C}',
            _ => '\u{2B1C}',
        }
    } else {
        match color {
            (255, 119, 99) => '\u{1F621}',
            (255, 155, 59) => '\u{1F34A}',
            (243, 191, 63) => '\u{2B50}',
            (131, 211, 19) => '\u{1F922}',
            (0, 235, 219) => '\u{1F976}',
            (63, 191, 255) => '\u{1F608}',
            (134, 74, 43) => '\u{1F4A9}',
            (0, 0, 0) => '\u{1F47E}',
            (255, 255, 255) => '\u{1F47B}',
            _ => '\u{1F47B}',
        }
    }
}

/// Collects the bytes of the block with origin `(x, y)`, line by line and
/// left to right. Pixels off the canvas are left out; a pixel on the canvas
/// whose bytes lie past the end of the buffer counts as transparent black.
pub fn extract_cell(buffer: &[u8], x: u32, y: u32, width: u32, height: u32, dot_size: u32) -> (cell:
    Vec<u8>)
    ensures
        cell@ == spec_extract_cell(
            buffer@,
            x as int,
            y as int,
            width as int,
            height as int,
            dot_size as int,
        ),
{
    let ghost dot = dot_size as int;
    let len: u128 = buffer.len() as u128;
    let mut cell: Vec<u8> = Vec::new();
    let mut dy: u32 = 0;
    while dy < dot_size
        invariant
            dot == dot_size,
            len == buffer@.len(),
            len <= usize::MAX,
            0 <= dy <= dot,
            0 <= dy * dot <= dot * dot,
            cell@ == cell_prefix(
                buffer@,
                width as int,
                height as int,
                x as int,
                y as int,
                dot,
                (dy * dot) as nat,
            ),
        decreases dot - dy,
    {
        let mut dx: u32 = 0;
        while dx < dot_size
            invariant
                dot == dot_size,
                len == buffer@.len(),
                len <= usize::MAX,
                0 <= dy < dot,
                0 <= dx <= dot,
                0 <= dy * dot + dx <= dot * dot,
                cell@ == cell_prefix(
                    buffer@,
                    width as int,
                    height as int,
                    x as int,
                    y as int,
                    dot,
                    (dy * dot + dx) as nat,
                ),
            decreases dot - dx,
        {
            let ghost before = cell@;
            proof {
                lemma_grid_position(dot, dot, dy as int, dx as int);
            }
            let px: u64 = x as u64 + dx as u64;
            let py: u64 = y as u64 + dy as u64;
            if px < width as u64 && py < height as u64 {
                assert(py * width <= 0xFFFF_FFFF * 0xFFFF_FFFF) by (nonlinear_arith)
                    requires
                        0 <= py <= 0xFFFF_FFFF,
                        0 <= width <= 0xFFFF_FFFF,
                ;
                let index: u128 = ((py as u128) * (width as u128) + (px as u128)) * 4;
                if index + 4 <= len {
                    let at: usize = index as usize;
                    cell.push(buffer[at]);
                    cell.push(buffer[at + 1]);
                    cell.push(buffer[at + 2]);
                    cell.push(buffer[at + 3]);
                } else {
                    cell.push(0);
                    cell.push(0);
                    cell.push(0);
                    cell.push(0);
                }
            }
            proof {
                assert(cell@ =~= before + cell_pixel(
                    buffer@,
                    width as int,
                    height as int,
                    x + dx,
                    y + dy,
                ));
            }
            dx += 1;
        }
        proof {
            lemma_grid_position(dot, dot, dy as int, 0);
        }
        dy += 1;
    }
    cell
}

/// The glyph of a cell: the mean of its pixels' red, green and blue is
/// reduced to the nearest palette colour, and that colour's glyph in the
/// given style is returned. A cell without pixels gives the white square.
/// Every pixel of the cell holds at least its three colour bytes.
pub fn analyze_cell(cell: &[u8], plain: bool) -> (glyph: char)
    requires
        cell@.len() % 4 == 0 || cell@.len() % 4 == 3,
    ensures
        glyph == spec_analyze_cell(cell@, plain),
{
    let len: usize = cell.len();
    let count: usize = if len % 4 == 0 {
        len / 4
    } else {
        len / 4 + 1
    };
    assert(count == cell_pixels(len as int));
    let mut r_sum: u128 = 0;
    let mut g_sum: u128 = 0;
    let mut b_sum: u128 = 0;
    let mut done: usize = 0;
    while done < count
        invariant
            len == cell@.len(),
            count == cell_pixels(len as int),
            len % 4 == 0 || len % 4 == 3,
            0 <= done <= count,
            r_sum == cell_sum(cell@, 0, done as nat),
            g_sum == cell_sum(cell@, 1, done as nat),
            b_sum == cell_sum(cell@, 2, done as nat),
        decreases count - done,
    {
        proof {
            lemma_cell_sum_bound(cell@, 0, done as nat);
            lemma_cell_sum_bound(cell@, 1, done as nat);
            lemma_cell_sum_bound(cell@, 2, done as nat);
        }
        let at: usize = 4 * done;
        r_sum += cell[at] as u128;
        g_sum += cell[at + 1] as u128;
        b_sum += cell[at + 2] as u128;
        done += 1;
    }
    if count == 0 {
        return WHITE_SQUARE;
    }
    proof {
        lemma_cell_sum_bound(cell@, 0, count as nat);
        lemma_cell_sum_bound(cell@, 1, count as nat);
        lemma_cell_sum_bound(cell@, 2, count as nat);
        lemma_mean_is_byte(r_sum as int, count as int);
        lemma_mean_is_byte(g_sum as int, count as int);
        lemma_mean_is_byte(b_sum as int, count as int);
    }
    let r_avg: u8 = (r_sum / (count as u128)) as u8;
    let g_avg: u8 = (g_sum / (count as u128)) as u8;
    let b_avg: u8 = (b_sum / (count as u128)) as u8;
    let color: (u8, u8, u8) = closest_color(r_avg, g_avg, b_avg);
    glyph_for(color, plain)
}

/// Draws the canvas as text: one glyph for every block, line by line and
/// left to right, and a line end after every line of blocks.
pub fn glyph_rows(buffer: &[u8], width: u32, height: u32, dot_size: u32, plain: bool) -> (rows:
    String)
    requires
        dot_size > 0,
    ensures
        rows@ == spec_glyph_rows(
            buffer@,
            width as int,
            height as int,
            dot_size as int,
            plain,
        ),
{
    let ghost dot = dot_size as int;
    let ghost across = blocks_across(width as int, dot);
    let ghost down = blocks_across(height as int, dot);
    let ghost expected = spec_glyph_rows(buffer@, width as int, height as int, dot, plain);
    let mut rows: String = String::new();
    let mut y: u64 = 0;
    let ghost mut lines: int = 0;
    proof {
        lemma_blocks_across(width as int, dot, 0);
        lemma_blocks_across(height as int, dot, 0);
        assert(0 <= down * (across + 1)) by (nonlinear_arith)
            requires
                0 <= down,
                0 <= across,
        ;
        assert(expected.take(0) =~= Seq::<char>::empty());
    }
    while y < height as u64
        invariant
            dot == dot_size,
            0 < dot,
            across == blocks_across(width as int, dot),
            down == blocks_across(height as int, dot),
            expected == spec_glyph_rows(buffer@, width as int, height as int, dot, plain),
            expected.len() == down * (across + 1),
            0 <= across,
            y == lines * dot,
            0 <= lines <= down,
            0 <= lines * (across + 1) <= down * (across + 1),
            y < height + dot,
            rows@ == expected.take(lines * (across + 1)),
        decreases height + dot - y,
    {
        let mut x: u64 = 0;
        let ghost mut blocks: int = 0;
        proof {
            lemma_blocks_across(height as int, dot, lines);
            lemma_grid_position(down, across + 1, lines, 0);
        }
        while x < width as u64
            invariant
                dot == dot_size,
                0 < dot,
                across == blocks_across(width as int, dot),
                down == blocks_across(height as int, dot),
                expected == spec_glyph_rows(buffer@, width as int, height as int, dot, plain),
                expected.len() == down * (across + 1),
                x == blocks * dot,
                0 <= blocks <= across,
                x < width + dot,
                y < height,
                y == lines * dot,
                0 <= lines < down,
                0 <= lines * (across + 1),
                rows@ == expected.take(lines * (across + 1) + blocks),
            decreases width + dot - x,
        {
            let ghost at = lines * (across + 1) + blocks;
            proof {
                lemma_blocks_across(width as int, dot, blocks);
                lemma_grid_position(down, across + 1, lines, blocks);
                lemma_cell_whole_pixels(
                    buffer@,
                    width as int,
                    height as int,
                    x as int,
                    y as int,
                    dot,
                    (dot * dot) as nat,
                );
            }
            let cell: Vec<u8> = extract_cell(buffer, x as u32, y as u32, width, height, dot_size);
            let glyph: char = analyze_cell(cell.as_slice(), plain);
            rows.push(glyph);
            proof {
                assert(expected[at] == glyph);
                assert(expected.take(at + 1) =~= expected.take(at).push(expected[at]));
                assert((blocks + 1) * dot == blocks * dot + dot) by (nonlinear_arith);
                blocks = blocks + 1;
            }
            x += dot_size as u64;
        }
        let ghost at = lines * (across + 1) + across;
        proof {
            lemma_blocks_across(width as int, dot, blocks);
            assert(blocks == across);
            lemma_grid_position(down, across + 1, lines, across);
        }
        rows.push(LINE_END);
        proof {
            assert(expected[at] == LINE_END);
            assert(expected.take(at + 1) =~= expected.take(at).push(expected[at]));
            assert((lines + 1) * dot == lines * dot + dot) by (nonlinear_arith);
            lines = lines + 1;
        }
        y += dot_size as u64;
    }
    proof {
        lemma_blocks_across(height as int, dot, lines);
        assert(lines == down);
        assert(expected.take(down * (across + 1)) =~= expected);
    }
    rows
}

} // verus!
