use emoji_mosaic::palette::{closest_color, color_distance, palette_color};

const PALETTE: [(u8, u8, u8); 9] = [
    (255, 119, 99),
    (255, 155, 59),
    (243, 191, 63),
    (131, 211, 19),
    (0, 235, 219),
    (63, 191, 255),
    (134, 74, 43),
    (0, 0, 0),
    (255, 255, 255),
];

#[test]
fn palette_has_its_nine_colours_in_order() {
    for k in 0..9 {
        assert_eq!(palette_color(k), PALETTE[k]);
    }
}

#[test]
fn distance_is_the_sum_of_the_squared_differences() {
    assert_eq!(color_distance(0, 0, 0, 255, 255, 255), 195075);
    assert_eq!(color_distance(255, 255, 255, 0, 0, 0), 195075);
    assert_eq!(color_distance(10, 20, 30, 13, 16, 30), 25);
    assert_eq!(color_distance(255, 0, 0, 255, 119, 99), 23962);
    assert_eq!(color_distance(255, 0, 0, 134, 74, 43), 21966);
    assert_eq!(color_distance(7, 8, 9, 7, 8, 9), 0);
}

#[test]
fn every_palette_colour_is_its_own_nearest() {
    for (r, g, b) in PALETTE {
        assert_eq!(closest_color(r, g, b), (r, g, b));
    }
}

#[test]
fn nearest_colour_of_some_colours() {
    assert_eq!(closest_color(128, 128, 128), (134, 74, 43));
    assert_eq!(closest_color(200, 150, 150), (255, 119, 99));
    assert_eq!(closest_color(0, 12, 198), (63, 191, 255));
    assert_eq!(closest_color(0, 11, 198), (0, 0, 0));
    assert_eq!(closest_color(10, 200, 10), (131, 211, 19));
    assert_eq!(closest_color(250, 250, 0), (243, 191, 63));
    assert_eq!(closest_color(255, 0, 0), (134, 74, 43));
    assert_eq!(closest_color(127, 127, 127), (134, 74, 43));
}

#[test]
fn of_two_equally_near_colours_the_first_listed_wins() {
    assert_eq!(
        color_distance(9, 144, 55, 131, 211, 19),
        color_distance(9, 144, 55, 134, 74, 43)
    );
    assert_eq!(closest_color(9, 144, 55), (131, 211, 19));
    assert_eq!(
        color_distance(27, 42, 175, 63, 191, 255),
        color_distance(27, 42, 175, 134, 74, 43)
    );
    assert_eq!(closest_color(27, 42, 175), (63, 191, 255));
}

#[test]
fn nearest_colour_is_always_a_palette_colour_and_none_is_nearer() {
    for r in (0..=255u8).step_by(5) {
        for g in (0..=255u8).step_by(5) {
            for b in (0..=255u8).step_by(5) {
                let found = closest_color(r, g, b);
                let at = PALETTE.iter().position(|&p| p == found);
                assert!(at.is_some());
                let at = at.unwrap();
                let least = color_distance(r, g, b, found.0, found.1, found.2);
                for (k, p) in PALETTE.iter().enumerate() {
                    let d = color_distance(r, g, b, p.0, p.1, p.2);
                    assert!(least <= d);
                    if k < at {
                        assert!(least < d);
                    }
                }
            }
        }
    }
}
