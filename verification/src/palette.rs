//! The fixed palette and the nearest-colour search over it.

use vstd::prelude::*;

verus! {

/// The nine colours that every block is reduced to, in search order.
pub open spec fn palette() -> Seq<(u8, u8, u8)> {
    seq![
        (255u8, 119u8, 99u8),
        (255u8, 155u8, 59u8),
        (243u8, 191u8, 63u8),
        (131u8, 211u8, 19u8),
        (0u8, 235u8, 219u8),
        (63u8, 191u8, 255u8),
        (134u8, 74u8, 43u8),
        (0u8, 0u8, 0u8),
        (255u8, 255u8, 255u8),
    ]
}

/// Squared Euclidean distance between two colours in RGB space.
pub open spec fn spec_color_distance(a: (u8, u8, u8), b: (u8, u8, u8)) -> int {
    (a.0 - b.0) * (a.0 - b.0) + (a.1 - b.1) * (a.1 - b.1) + (a.2 - b.2) * (a.2 - b.2)
}

/// Distance from `c` to the palette entry at position `k`.
pub open spec fn palette_distance(c: (u8, u8, u8), k: int) -> int {
    spec_color_distance(c, palette()[k])
}

/// `k` is the position of the palette entry nearest to `c`: no entry is
/// nearer, and every entry listed before it is strictly farther.
pub open spec fn is_nearest_index(c: (u8, u8, u8), k: int) -> bool {
    &&& 0 <= k < palette().len()
    &&& forall|j: int|
        0 <= j < palette().len() ==> palette_distance(c, k) <= #[trigger] palette_distance(c, j)
    &&& forall|j: int| 0 <= j < k ==> palette_distance(c, k) < #[trigger] palette_distance(c, j)
}

/// The position of the palette entry nearest to `c`.
pub open spec fn nearest_index(c: (u8, u8, u8)) -> int {
    choose|k: int| is_nearest_index(c, k)
}

/// The palette entry nearest to `c`; among equally near entries the one
/// listed first.
pub open spec fn nearest_color(c: (u8, u8, u8)) -> (u8, u8, u8) {
    palette()[nearest_index(c)]
}

/// At most one position is the nearest one.
pub proof fn lemma_nearest_index_unique(c: (u8, u8, u8), j: int, k: int)
    requires
        is_nearest_index(c, j),
        is_nearest_index(c, k),
    ensures
        j == k,
{
    if j < k {
        assert(palette_distance(c, k) < palette_distance(c, j));
        assert(palette_distance(c, j) <= palette_distance(c, k));
    } else if k < j {
        assert(palette_distance(c, j) < palette_distance(c, k));
        assert(palette_distance(c, k) <= palette_distance(c, j));
    }
}

/// The position that meets `is_nearest_index` is the one that
/// `nearest_index` names.
pub proof fn lemma_nearest_index_is(c: (u8, u8, u8), k: int)
    requires
        is_nearest_index(c, k),
    ensures
        nearest_index(c) == k,
{
    lemma_nearest_index_unique(c, nearest_index(c), k);
}

/// Among the first `n` palette entries one is nearest to `c`, with every
/// entry before it strictly farther.
pub proof fn lemma_nearest_among(c: (u8, u8, u8), n: int) -> (k: int)
    requires
        1 <= n <= palette().len(),
    ensures
        0 <= k < n,
        forall|j: int| 0 <= j < n ==> palette_distance(c, k) <= #[trigger] palette_distance(c, j),
        forall|j: int| 0 <= j < k ==> palette_distance(c, k) < #[trigger] palette_distance(c, j),
    decreases n,
{
    if n == 1 {
        0
    } else {
        let k = lemma_nearest_among(c, n - 1);
        if palette_distance(c, n - 1) < palette_distance(c, k) {
            n - 1
        } else {
            k
        }
    }
}

/// Every colour has a nearest palette entry: the search always ends on one
/// of the nine palette colours.
pub proof fn lemma_nearest_color(c: (u8, u8, u8))
    ensures
        is_nearest_index(c, nearest_index(c)),
        palette().contains(nearest_color(c)),
{
    let k = lemma_nearest_among(c, 9);
    assert(is_nearest_index(c, k));
}

/// No two entries of the palette are the same colour.
pub proof fn lemma_palette_distinct(j: int, k: int)
    requires
        0 <= j < palette().len(),
        0 <= k < palette().len(),
        palette()[j] == palette()[k],
    ensures
        j == k,
{
}

/// The distance between two colours is zero where they are the same colour
/// and positive where they are not.
pub proof fn lemma_distance_zero(a: (u8, u8, u8), b: (u8, u8, u8))
    ensures
        0 <= spec_color_distance(a, b),
        spec_color_distance(a, b) == 0 <==> a == b,
{
    let red = a.0 - b.0;
    let green = a.1 - b.1;
    let blue = a.2 - b.2;
    assert(0 <= red * red && 0 <= green * green && 0 <= blue * blue && (red * red == 0 <==> red
        == 0) && (green * green == 0 <==> green == 0) && (blue * blue == 0 <==> blue == 0))
        by (nonlinear_arith);
}

/// A colour of the palette is its own nearest palette colour.
pub proof fn lemma_palette_color_is_nearest(k: int)
    requires
        0 <= k < palette().len(),
    ensures
        nearest_index(palette()[k]) == k,
        nearest_color(palette()[k]) == palette()[k],
{
    let c = palette()[k];
    lemma_distance_zero(c, c);
    assert forall|j: int| 0 <= j < palette().len() implies palette_distance(c, k)
        <= #[trigger] palette_distance(c, j) by {
        lemma_distance_zero(c, palette()[j]);
    }
    assert forall|j: int| 0 <= j < k implies palette_distance(c, k) < #[trigger] palette_distance(
        c,
        j,
    ) by {
        lemma_distance_zero(c, palette()[j]);
        if palette()[j] == c {
            lemma_palette_distinct(j, k);
        }
    }
    lemma_nearest_index_is(c, k);
}

/// The palette entry at position `k`.
pub fn palette_color(k: usize) -> (color: (u8, u8, u8))
    requires
        k < palette().len(),
    ensures
        color == palette()[k as int],
{
    let colors: [(u8, u8, u8); 9] = [
        (255, 119, 99),
        (255, 155, 59),
        (243, 191, 63),
        (131, 211, 19),
        (0, 235, 219),
        (63, 191, 255),
        (134, 74, 43),
        (0, 0, 0),
        (255, 255, 255),
    ];
    colors[k]
}

/// Squared Euclidean distance between the colours `(r1, g1, b1)` and
/// `(r2, g2, b2)`.
pub fn color_distance(r1: u8, g1: u8, b1: u8, r2: u8, g2: u8, b2: u8) -> (d: u32)
    ensures
        d == spec_color_distance((r1, g1, b1), (r2, g2, b2)),
        d <= 3 * 255 * 255,
{
    let r_diff: i32 = r1 as i32 - r2 as i32;
    let g_diff: i32 = g1 as i32 - g2 as i32;
    let b_diff: i32 = b1 as i32 - b2 as i32;
    assert(0 <= r_diff * r_diff <= 255 * 255) by (nonlinear_arith)
        requires
            -255 <= r_diff <= 255,
    ;
    assert(0 <= g_diff * g_diff <= 255 * 255) by (nonlinear_arith)
        requires
            -255 <= g_diff <= 255,
    ;
    assert(0 <= b_diff * b_diff <= 255 * 255) by (nonlinear_arith)
        requires
            -255 <= b_diff <= 255,
    ;
    (r_diff * r_diff + g_diff * g_diff + b_diff * b_diff) as u32
}

/// The palette colour nearest to `(r, g, b)`, by squared Euclidean distance;
/// among equally near colours the one listed first.
pub fn closest_color(r: u8, g: u8, b: u8) -> (color: (u8, u8, u8))
    ensures
        color == nearest_color((r, g, b)),
        is_nearest_index((r, g, b), nearest_index((r, g, b))),
        palette().contains(color),
{
    let mut best: usize = 0;
    let first: (u8, u8, u8) = palette_color(0);
    let mut best_distance: u32 = color_distance(r, g, b, first.0, first.1, first.2);
    let mut k: usize = 1;
    while k < 9
        invariant
            1 <= k <= 9,
            best < k,
            best_distance == palette_distance((r, g, b), best as int),
            forall|j: int|
                0 <= j < k ==> best_distance <= #[trigger] palette_distance((r, g, b), j),
            forall|j: int|
                0 <= j < best ==> best_distance < #[trigger] palette_distance((r, g, b), j),
        decreases 9 - k,
    {
        let candidate: (u8, u8, u8) = palette_color(k);
        let distance: u32 = color_distance(r, g, b, candidate.0, candidate.1, candidate.2);
        if distance < best_distance {
            best = k;
            best_distance = distance;
        }
        k += 1;
    }
    proof {
        lemma_nearest_index_is((r, g, b), best as int);
    }
    palette_color(best)
}

} // verus!
