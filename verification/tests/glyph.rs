use emoji_mosaic::glyph::{analyze_cell, extract_cell, glyph_for, glyph_rows};

const PALETTE: [(u8, u8, u8); 9] = [
    (255, 119, 99),
    (255, 155, 59),
    (243, 191, 63),
    (131, 211, 19),
    (0, 235, 219),
    (63, 191, 255),
    (134, 74, 43),
    (0, 0, 0),
    (255, 255, 255),
];

const SQUARES: [char; 9] = [
    '\u{1F7E5}',
    '\u{1F7E7}',
    '\u{1F7E8}',
    '\u{1F7E9}',
    '\u{1F7E6}',
    '\u{1F7EA}',
    '\u{1F7EB}',
    '\u{2B1B}',
    '\u{2B1C}',
];

const FACES: [char; 9] = [
    '\u{1F621}',
    '\u{1F34A}',
    '\u{2B50}',
    '\u{1F922}',
    '\u{1F976}',
    '\u{1F608}',
    '\u{1F4A9}',
    '\u{1F47E}',
    '\u{1F47B}',
];

#[test]
fn every_palette_colour_has_its_glyph_in_both_styles() {
    for k in 0..9 {
        assert_eq!(glyph_for(PALETTE[k], true), SQUARES[k]);
        assert_eq!(glyph_for(PALETTE[k], false), FACES[k]);
    }
}

#[test]
fn no_two_palette_colours_share_a_glyph() {
    for j in 0..9 {
        for k in 0..9 {
            if j != k {
                assert_ne!(glyph_for(PALETTE[j], true), glyph_for(PALETTE[k], true));
                assert_ne!(glyph_for(PALETTE[j], false), glyph_for(PALETTE[k], false));
            }
        }
    }
}

#[test]
fn a_colour_outside_the_palette_gets_the_glyph_of_white() {
    assert_eq!(glyph_for((1, 2, 3), true), '\u{2B1C}');
    assert_eq!(glyph_for((1, 2, 3), false), '\u{1F47B}');
    assert_eq!(glyph_for((255, 119, 98), true), '\u{2B1C}');
    assert_eq!(glyph_for((254, 255, 255), false), '\u{1F47B}');
}

#[test]
fn a_cell_holds_the_pixels_of_its_block_that_lie_on_the_canvas() {
    let buffer: Vec<u8> = (1..=36).collect();
    assert_eq!(
        extract_cell(&buffer, 1, 1, 3, 3, 2),
        vec![17, 18, 19, 20, 21, 22, 23, 24, 29, 30, 31, 32, 33, 34, 35, 36]
    );
    assert_eq!(extract_cell(&buffer, 2, 2, 3, 3, 2), vec![33, 34, 35, 36]);
    let small: Vec<u8> = (1..=16).collect();
    assert_eq!(extract_cell(&small, 1, 0, 2, 2, 2), vec![5, 6, 7, 8, 13, 14, 15, 16]);
}

#[test]
fn a_pixel_past_the_end_of_the_buffer_counts_as_transparent_black() {
    let buffer: Vec<u8> = (1..=14).collect();
    assert_eq!(extract_cell(&buffer, 0, 1, 2, 2, 2), vec![9, 10, 11, 12, 0, 0, 0, 0]);
    let empty: Vec<u8> = Vec::new();
    assert_eq!(extract_cell(&empty, 0, 0, 1, 1, 1), vec![0, 0, 0, 0]);
}

#[test]
fn a_block_of_side_zero_or_off_the_canvas_has_an_empty_cell() {
    let buffer: Vec<u8> = (1..=36).collect();
    assert_eq!(extract_cell(&buffer, 0, 0, 3, 3, 0), Vec::<u8>::new());
    assert_eq!(extract_cell(&buffer, 3, 0, 3, 3, 2), Vec::<u8>::new());
    assert_eq!(extract_cell(&buffer, 0, 3, 3, 3, 2), Vec::<u8>::new());
}

#[test]
fn an_empty_cell_is_a_white_square_in_either_style() {
    let cell: Vec<u8> = Vec::new();
    assert_eq!(analyze_cell(&cell, true), '\u{2B1C}');
    assert_eq!(analyze_cell(&cell, false), '\u{2B1C}');
}

#[test]
fn a_cell_is_drawn_with_the_glyph_of_its_mean_colour() {
    // mean (15, 25, 35)
    let cell: Vec<u8> = vec![10, 20, 30, 255, 20, 30, 40, 0];
    assert_eq!(analyze_cell(&cell, true), '\u{2B1B}');
    assert_eq!(analyze_cell(&cell, false), '\u{1F47E}');
    // mean (253, 119, 99)
    let cell: Vec<u8> = vec![250, 120, 100, 1, 255, 119, 99, 2, 254, 118, 98, 3];
    assert_eq!(analyze_cell(&cell, true), '\u{1F7E5}');
    assert_eq!(analyze_cell(&cell, false), '\u{1F621}');
    // mean (135, 75, 42)
    let cell: Vec<u8> = vec![140, 80, 40, 255, 130, 70, 45, 255];
    assert_eq!(analyze_cell(&cell, true), '\u{1F7EB}');
    assert_eq!(analyze_cell(&cell, false), '\u{1F4A9}');
}

#[test]
fn alpha_does_not_count_in_a_cell() {
    let clear: Vec<u8> = vec![255, 255, 255, 0];
    let solid: Vec<u8> = vec![255, 255, 255, 255];
    assert_eq!(analyze_cell(&clear, true), '\u{2B1C}');
    assert_eq!(analyze_cell(&clear, false), '\u{1F47B}');
    assert_eq!(analyze_cell(&solid, true), '\u{2B1C}');
    let placeholder: Vec<u8> = vec![0, 0, 0, 0];
    assert_eq!(analyze_cell(&placeholder, true), '\u{2B1B}');
    assert_eq!(analyze_cell(&placeholder, false), '\u{1F47E}');
}

#[test]
fn a_last_pixel_may_lack_its_alpha() {
    let cell: Vec<u8> = vec![10, 20, 30, 255, 20, 30, 40];
    assert_eq!(analyze_cell(&cell, true), '\u{2B1B}');
    let cell: Vec<u8> = vec![255, 255, 255];
    assert_eq!(analyze_cell(&cell, false), '\u{1F47B}');
}

#[test]
fn rows_are_drawn_block_by_block_with_a_line_end_after_each() {
    let image: Vec<u8> = vec![
        255, 119, 99, 255, 0, 235, 219, 255, 63, 191, 255, 255, 131, 211, 19, 255,
    ];
    assert_eq!(
        glyph_rows(&image, 2, 2, 1, true),
        "\u{1F7E5}\u{1F7E6}\n\u{1F7EA}\u{1F7E9}\n"
    );
    assert_eq!(
        glyph_rows(&image, 2, 2, 1, false),
        "\u{1F621}\u{1F976}\n\u{1F608}\u{1F922}\n"
    );
}

#[test]
fn a_cell_cut_by_the_edge_is_averaged_over_the_pixels_it_has() {
    let image: Vec<u8> = vec![255; 36];
    assert_eq!(glyph_rows(&image, 3, 3, 2, true), "\u{2B1C}\u{2B1C}\n\u{2B1C}\u{2B1C}\n");
    let pixel: Vec<u8> = vec![255, 255, 255, 255];
    assert_eq!(glyph_rows(&pixel, 1, 1, 3, true), "\u{2B1C}\n");
}

#[test]
fn rows_of_a_buffer_that_is_too_short_show_black() {
    let empty: Vec<u8> = Vec::new();
    assert_eq!(glyph_rows(&empty, 2, 2, 1, true), "\u{2B1B}\u{2B1B}\n\u{2B1B}\u{2B1B}\n");
    assert_eq!(
        glyph_rows(&empty, 2, 2, 1, false),
        "\u{1F47E}\u{1F47E}\n\u{1F47E}\u{1F47E}\n"
    );
}
