//! The whole way from pixels to text: the canvas is pixelated, and the
//! pixelated canvas is drawn as glyphs.

use crate::glyph::{
    block_class, glyph_rows, is_grid_text, lemma_cell_not_empty, lemma_rows_shape,
    lemma_rows_style_switch, lemma_uniform_cell_glyph, spec_extract_cell, spec_glyph,
    spec_glyph_rows, LINE_END,
};
use crate::grid::{blocks_across, lemma_blocks_across, lemma_grid_cell, lemma_whole_blocks};
use crate::palette::{lemma_nearest_color, nearest_color, palette};
use crate::pixelate::{block_mean, pixelate, spec_pixelate};
use crate::tiling::{lemma_painted_cell, lemma_pixelate_by_blocks};
use vstd::prelude::*;

verus! {

/// Why a canvas was not drawn.
#[derive(Clone, Copy, Debug, PartialEq, Eq, Structural)]
pub enum MosaicError {
    /// The side of a block was given as zero.
    ZeroDotSize,
}

/// The text of a canvas: the glyph rows of the pixelated buffer.
pub open spec fn spec_mosaic(buf: Seq<u8>, width: int, height: int, dot: int, plain: bool) -> Seq<
    char,
> {
    spec_glyph_rows(spec_pixelate(buf, width, height, dot), width, height, dot, plain)
}

/// What `mosaic` may return for the given arguments: the error for a block
/// side of zero and nothing else, and otherwise the text of the canvas.
pub open spec fn mosaic_returns(
    buf: Seq<u8>,
    width: u32,
    height: u32,
    dot_size: u32,
    plain: bool,
    result: Result<String, MosaicError>,
) -> bool {
    if dot_size == 0 {
        result == Err::<String, MosaicError>(MosaicError::ZeroDotSize)
    } else {
        result matches Ok(text) && text@ == spec_mosaic(
            buf,
            width as int,
            height as int,
            dot_size as int,
            plain,
        )
    }
}

/// Draws an RGBA buffer as text. The canvas of `canvas_width` by
/// `canvas_height` pixels is cut into blocks of side `dot_size`; every block
/// is painted with the palette colour nearest to its mean colour, and the
/// painted canvas is drawn with one glyph for every block, coloured squares
/// if `use_plain_glyphs` is set and faces and things if not. A `dot_size` of
/// zero is refused. The buffer may be shorter than the canvas: pixels past
/// its end count for nothing. Where the width is a whole number of blocks
/// and the buffer holds all of the canvas, every glyph is that of the palette
/// colour nearest to the mean colour of its block.
pub fn mosaic(
    buffer: &[u8],
    canvas_width: u32,
    canvas_height: u32,
    dot_size: u32,
    use_plain_glyphs: bool,
) -> (result: Result<String, MosaicError>)
    ensures
        mosaic_returns(buffer@, canvas_width, canvas_height, dot_size, use_plain_glyphs, result),
        result matches Ok(text) ==> is_grid_text(
            text@,
            blocks_across(canvas_width as int, dot_size as int),
            blocks_across(canvas_height as int, dot_size as int),
        ),
        result matches Ok(text) ==> (canvas_width as int % dot_size as int == 0 && buffer@.len()
            >= 4 * (canvas_width * canvas_height) ==> text@ == mean_glyph_rows(
            buffer@,
            canvas_width as int,
            canvas_height as int,
            dot_size as int,
            use_plain_glyphs,
        )),
{
    if dot_size == 0 {
        return Err(MosaicError::ZeroDotSize);
    }
    let pixelated: Vec<u8> = pixelate(buffer, canvas_width, canvas_height, dot_size);
    let text: String = glyph_rows(
        pixelated.as_slice(),
        canvas_width,
        canvas_height,
        dot_size,
        use_plain_glyphs,
    );
    proof {
        lemma_rows_shape(
            pixelated@,
            canvas_width as int,
            canvas_height as int,
            dot_size as int,
            use_plain_glyphs,
        );
        if canvas_width as int % dot_size as int == 0 && buffer@.len() >= 4 * (canvas_width
            * canvas_height) {
            lemma_mosaic_by_blocks(
                buffer@,
                canvas_width as int,
                canvas_height as int,
                dot_size as int,
                use_plain_glyphs,
            );
        }
    }
    Ok(text)
}

/// Equal arguments give equal results: whatever `mosaic` returns is fixed by
/// its arguments alone.
pub proof fn lemma_mosaic_deterministic(
    buf: Seq<u8>,
    width: u32,
    height: u32,
    dot_size: u32,
    plain: bool,
    first: Result<String, MosaicError>,
    second: Result<String, MosaicError>,
)
    requires
        mosaic_returns(buf, width, height, dot_size, plain, first),
        mosaic_returns(buf, width, height, dot_size, plain, second),
    ensures
        first is Ok <==> second is Ok,
        first matches Ok(a) ==> second matches Ok(b) && a@ == b@,
        first is Err ==> first == second,
{
}

/// The text has one line for every line of blocks and one glyph for every
/// block of a line: `ceil(height / dot)` lines of `ceil(width / dot)` glyphs.
pub proof fn lemma_mosaic_shape(buf: Seq<u8>, width: int, height: int, dot: int, plain: bool)
    requires
        0 <= width,
        0 <= height,
        0 < dot,
    ensures
        is_grid_text(
            spec_mosaic(buf, width, height, dot, plain),
            blocks_across(width, dot),
            blocks_across(height, dot),
        ),
{
    lemma_rows_shape(spec_pixelate(buf, width, height, dot), width, height, dot, plain);
}

/// Switching the style changes the glyphs and nothing else: the two texts
/// have their line ends at the same places, and at every other place they
/// show the two styles' glyphs of the same palette colour.
pub proof fn lemma_mosaic_style_switch(buf: Seq<u8>, width: int, height: int, dot: int)
    requires
        0 <= width,
        0 <= height,
        0 < dot,
    ensures
        ({
            let plain = spec_mosaic(buf, width, height, dot, true);
            let themed = spec_mosaic(buf, width, height, dot, false);
            let across = blocks_across(width, dot);
            &&& plain.len() == themed.len()
            &&& forall|k: int|
                0 <= k < plain.len() ==> ((#[trigger] plain[k] == LINE_END) <==> themed[k]
                    == LINE_END)
            &&& forall|k: int|
                0 <= k < plain.len() && #[trigger] plain[k] != LINE_END ==> {
                    let class = block_class(
                        spec_pixelate(buf, width, height, dot),
                        width,
                        height,
                        (k % (across + 1)) * dot,
                        (k / (across + 1)) * dot,
                        dot,
                    );
                    &&& palette().contains(class)
                    &&& plain[k] == spec_glyph(class, true)
                    &&& themed[k] == spec_glyph(class, false)
                }
        }),
{
    lemma_rows_style_switch(spec_pixelate(buf, width, height, dot), width, height, dot);
}

/// The text in which every block is drawn with the glyph of the palette
/// colour nearest to its mean colour in `buf`.
pub open spec fn mean_glyph_rows(buf: Seq<u8>, width: int, height: int, dot: int, plain: bool) -> Seq<
    char,
> {
    let across = blocks_across(width, dot);
    let down = blocks_across(height, dot);
    Seq::new(
        (down * (across + 1)) as nat,
        |k: int|
            if k % (across + 1) == across {
                LINE_END
            } else {
                spec_glyph(
                    nearest_color(
                        block_mean(
                            buf,
                            width,
                            (k % (across + 1)) * dot,
                            (k / (across + 1)) * dot,
                            dot,
                        ),
                    ),
                    plain,
                )
            },
    )
}

/// On a canvas whose width is a whole number of blocks, and with a buffer
/// that holds all of the canvas, every glyph of the text is the glyph of the
/// palette colour nearest to the mean colour of its block in the buffer as
/// it was given.
pub proof fn lemma_mosaic_by_blocks(buf: Seq<u8>, width: int, height: int, dot: int, plain: bool)
    requires
        0 < dot,
        0 <= width,
        0 <= height,
        width % dot == 0,
        buf.len() >= 4 * (width * height),
    ensures
        spec_mosaic(buf, width, height, dot, plain) == mean_glyph_rows(
            buf,
            width,
            height,
            dot,
            plain,
        ),
{
    let across = blocks_across(width, dot);
    let down = blocks_across(height, dot);
    let out = spec_pixelate(buf, width, height, dot);
    let text = spec_mosaic(buf, width, height, dot, plain);
    let direct = mean_glyph_rows(buf, width, height, dot, plain);
    lemma_pixelate_by_blocks(buf, width, height, dot);
    lemma_whole_blocks(width, dot);
    lemma_blocks_across(height, dot, 0);
    assert(0 <= down * (across + 1)) by (nonlinear_arith)
        requires
            0 <= down,
            0 <= across,
    ;
    assert forall|k: int| 0 <= k < text.len() implies text[k] == direct[k] by {
        if k % (across + 1) != across {
            let column = k % (across + 1);
            let line = k / (across + 1);
            lemma_grid_cell(down, across + 1, k);
            lemma_blocks_across(height, dot, line);
            assert(0 <= column * dot && (column + 1) * dot <= across * dot && 1 <= dot * dot
                && column * dot < (column + 1) * dot) by (nonlinear_arith)
                requires
                    0 <= column < across,
                    0 < dot,
            ;
            let x = column * dot;
            let y = line * dot;
            let color = nearest_color(block_mean(buf, width, x, y, dot));
            lemma_painted_cell(buf, width, height, dot, column, line, (dot * dot) as nat);
            lemma_cell_not_empty(out, width, height, x, y, dot, (dot * dot) as nat);
            lemma_nearest_color(block_mean(buf, width, x, y, dot));
            lemma_uniform_cell_glyph(
                spec_extract_cell(out, x, y, width, height, dot),
                color,
                plain,
            );
        }
    }
    assert(text =~= direct);
}

} // verus!
