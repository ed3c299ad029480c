use emoji_mosaic::glyph::glyph_for;
use emoji_mosaic::mosaic::{mosaic, MosaicError};
use emoji_mosaic::palette::closest_color;

const SQUARES: [char; 9] = [
    '\u{1F7E5}',
    '\u{1F7E7}',
    '\u{1F7E8}',
    '\u{1F7E9}',
    '\u{1F7E6}',
    '\u{1F7EA}',
    '\u{1F7EB}',
    '\u{2B1B}',
    '\u{2B1C}',
];

const FACES: [char; 9] = [
    '\u{1F621}',
    '\u{1F34A}',
    '\u{2B50}',
    '\u{1F922}',
    '\u{1F976}',
    '\u{1F608}',
    '\u{1F4A9}',
    '\u{1F47E}',
    '\u{1F47B}',
];

fn gradient(width: u32, height: u32) -> Vec<u8> {
    let mut image: Vec<u8> = Vec::new();
    for y in 0..height {
        for x in 0..width {
            image.push(((x * 60) % 256) as u8);
            image.push(((y * 100) % 256) as u8);
            image.push(((x * y * 40 + 30) % 256) as u8);
            image.push(128);
        }
    }
    image
}

#[test]
fn solid_white_is_one_white_square() {
    let image: Vec<u8> = [255u8, 255, 255, 255].repeat(4);
    assert_eq!(mosaic(&image, 2, 2, 2, true), Ok(String::from("\u{2B1C}\n")));
}

#[test]
fn solid_white_is_one_ghost() {
    let image: Vec<u8> = [255u8, 255, 255, 255].repeat(4);
    assert_eq!(mosaic(&image, 2, 2, 2, false), Ok(String::from("\u{1F47B}\n")));
}

#[test]
fn red_beside_black_is_two_glyphs_on_one_line() {
    let red = [255u8, 0, 0, 255];
    let black = [0u8, 0, 0, 255];
    let mut image: Vec<u8> = Vec::new();
    for _ in 0..2 {
        image.extend_from_slice(&red);
        image.extend_from_slice(&red);
        image.extend_from_slice(&black);
        image.extend_from_slice(&black);
    }
    // pure red lies nearer to the palette's brown than to its red
    assert_eq!(mosaic(&image, 4, 2, 2, true), Ok(String::from("\u{1F7EB}\u{2B1B}\n")));
    assert_eq!(mosaic(&image, 4, 2, 2, false), Ok(String::from("\u{1F4A9}\u{1F47E}\n")));
}

#[test]
fn the_red_of_the_palette_beside_black() {
    let red = [255u8, 119, 99, 255];
    let black = [0u8, 0, 0, 255];
    let mut image: Vec<u8> = Vec::new();
    for _ in 0..2 {
        image.extend_from_slice(&red);
        image.extend_from_slice(&red);
        image.extend_from_slice(&black);
        image.extend_from_slice(&black);
    }
    assert_eq!(mosaic(&image, 4, 2, 2, true), Ok(String::from("\u{1F7E5}\u{2B1B}\n")));
}

#[test]
fn a_dot_size_of_zero_is_refused() {
    let image: Vec<u8> = [255u8, 255, 255, 255].repeat(4);
    assert_eq!(mosaic(&image, 2, 2, 0, true), Err(MosaicError::ZeroDotSize));
    assert_eq!(mosaic(&image, 0, 0, 0, false), Err(MosaicError::ZeroDotSize));
    let empty: Vec<u8> = Vec::new();
    assert_eq!(mosaic(&empty, 2, 2, 0, true), Err(MosaicError::ZeroDotSize));
}

#[test]
fn a_canvas_without_lines_gives_an_empty_text() {
    let image: Vec<u8> = vec![9; 16];
    assert_eq!(mosaic(&image, 2, 0, 1, true), Ok(String::new()));
    assert_eq!(mosaic(&image, 0, 0, 3, false), Ok(String::new()));
}

#[test]
fn a_canvas_without_columns_gives_empty_lines() {
    let image: Vec<u8> = vec![9; 16];
    assert_eq!(mosaic(&image, 0, 2, 1, true), Ok(String::from("\n\n")));
    assert_eq!(mosaic(&image, 0, 5, 2, true), Ok(String::from("\n\n\n")));
}

#[test]
fn every_palette_colour_is_drawn_as_its_glyph() {
    let palette: [(u8, u8, u8); 9] = [
        (255, 119, 99),
        (255, 155, 59),
        (243, 191, 63),
        (131, 211, 19),
        (0, 235, 219),
        (63, 191, 255),
        (134, 74, 43),
        (0, 0, 0),
        (255, 255, 255),
    ];
    for k in 0..9 {
        let (r, g, b) = palette[k];
        let image: Vec<u8> = vec![r, g, b, 0];
        let mut plain = String::new();
        plain.push(SQUARES[k]);
        plain.push('\n');
        let mut themed = String::new();
        themed.push(FACES[k]);
        themed.push('\n');
        assert_eq!(mosaic(&image, 1, 1, 1, true), Ok(plain));
        assert_eq!(mosaic(&image, 1, 1, 1, false), Ok(themed));
    }
}

#[test]
fn a_canvas_of_five_by_three_with_blocks_of_two() {
    let image = gradient(5, 3);
    assert_eq!(
        mosaic(&image, 5, 3, 2, true),
        Ok(String::from(
            "\u{2B1B}\u{1F7EB}\u{1F7EB}\n\u{1F7EB}\u{1F7EB}\u{1F7EB}\n"
        ))
    );
    assert_eq!(
        mosaic(&image, 5, 3, 2, false),
        Ok(String::from(
            "\u{1F47E}\u{1F4A9}\u{1F4A9}\n\u{1F4A9}\u{1F4A9}\u{1F4A9}\n"
        ))
    );
}

#[test]
fn blocks_cut_by_the_lower_edge_come_out_darker() {
    let image: Vec<u8> = vec![255; 36];
    assert_eq!(
        mosaic(&image, 3, 3, 2, true),
        Ok(String::from("\u{2B1C}\u{2B1C}\n\u{1F7EB}\u{1F7EB}\n"))
    );
    assert_eq!(
        mosaic(&image, 3, 3, 2, false),
        Ok(String::from("\u{1F47B}\u{1F47B}\n\u{1F4A9}\u{1F4A9}\n"))
    );
}

#[test]
fn a_block_wider_than_the_canvas_is_painted_dark_and_drawn_so() {
    let image: Vec<u8> = vec![255, 255, 255, 255];
    assert_eq!(mosaic(&image, 1, 1, 3, true), Ok(String::from("\u{2B1B}\n")));
}

#[test]
fn a_buffer_that_is_too_short_is_drawn_as_far_as_it_goes() {
    let image: Vec<u8> = vec![255, 255, 255, 255, 255, 255];
    assert_eq!(
        mosaic(&image, 2, 2, 1, true),
        Ok(String::from("\u{2B1C}\u{2B1B}\n\u{2B1B}\u{2B1B}\n"))
    );
    assert_eq!(mosaic(&image, 2, 2, 2, true), Ok(String::from("\u{2B1B}\n")));
    let empty: Vec<u8> = Vec::new();
    assert_eq!(
        mosaic(&empty, 2, 2, 1, true),
        Ok(String::from("\u{2B1B}\u{2B1B}\n\u{2B1B}\u{2B1B}\n"))
    );
}

#[test]
fn the_same_arguments_give_the_same_text() {
    let image = gradient(7, 5);
    for dot in 1..5 {
        assert_eq!(mosaic(&image, 7, 5, dot, true), mosaic(&image, 7, 5, dot, true));
        assert_eq!(mosaic(&image, 7, 5, dot, false), mosaic(&image, 7, 5, dot, false));
    }
}

#[test]
fn the_text_has_a_line_for_every_line_of_blocks_and_a_glyph_for_every_block() {
    for (width, height, dot) in [(7u32, 5u32, 1u32), (7, 5, 2), (7, 5, 3), (7, 5, 8), (6, 4, 2), (1, 9, 4)] {
        let image = gradient(width, height);
        let text = mosaic(&image, width, height, dot, true).unwrap();
        let lines: Vec<&str> = text.split_terminator('\n').collect();
        assert!(text.ends_with('\n'));
        assert_eq!(lines.len() as u32, (height + dot - 1) / dot);
        for line in lines {
            assert_eq!(line.chars().count() as u32, (width + dot - 1) / dot);
        }
    }
}

#[test]
fn the_other_style_shows_the_same_colours_with_other_glyphs() {
    for dot in 1..4 {
        let image = gradient(7, 5);
        let plain: Vec<char> = mosaic(&image, 7, 5, dot, true).unwrap().chars().collect();
        let themed: Vec<char> = mosaic(&image, 7, 5, dot, false).unwrap().chars().collect();
        assert_eq!(plain.len(), themed.len());
        for k in 0..plain.len() {
            if plain[k] == '\n' {
                assert_eq!(themed[k], '\n');
            } else {
                let at = SQUARES.iter().position(|&g| g == plain[k]).unwrap();
                assert_eq!(themed[k], FACES[at]);
            }
        }
    }
}

#[test]
fn on_whole_blocks_every_glyph_shows_the_mean_colour_of_its_block() {
    for (width, height, dot) in [(6u32, 4u32, 2u32), (6, 4, 3), (6, 5, 3), (4, 4, 4), (5, 3, 1)] {
        let image = gradient(width, height);
        for plain in [true, false] {
            let mut expected = String::new();
            let mut y = 0;
            while y < height {
                let mut x = 0;
                while x < width {
                    let mut sums = [0u32; 3];
                    for dy in 0..dot {
                        for dx in 0..dot {
                            if y + dy < height {
                                let at = (((y + dy) * width + x + dx) * 4) as usize;
                                for channel in 0..3 {
                                    sums[channel] += image[at + channel] as u32;
                                }
                            }
                        }
                    }
                    let area = dot * dot;
                    let color = closest_color(
                        (sums[0] / area) as u8,
                        (sums[1] / area) as u8,
                        (sums[2] / area) as u8,
                    );
                    expected.push(glyph_for(color, plain));
                    x += dot;
                }
                expected.push('\n');
                y += dot;
            }
            assert_eq!(mosaic(&image, width, height, dot, plain), Ok(expected));
        }
    }
}
