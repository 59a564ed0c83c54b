use vstd::prelude::*;

verus! {

/// The 4x4 ordered-dithering (Bayer) threshold matrix, in sixteenths:
/// entry `(row, col)` stands for the offset `bayer(row, col) / 16` in `[0, 1)`.
pub open spec fn bayer(row: int, col: int) -> int {
    if row == 0 {
        if col == 0 { 0 } else if col == 1 { 8 } else if col == 2 { 2 } else { 10 }
    } else if row == 1 {
        if col == 0 { 12 } else if col == 1 { 4 } else if col == 2 { 14 } else { 6 }
    } else if row == 2 {
        if col == 0 { 3 } else if col == 1 { 11 } else if col == 2 { 1 } else { 9 }
    } else {
        if col == 0 { 15 } else if col == 1 { 7 } else if col == 2 { 13 } else { 5 }
    }
}

/// The dither threshold of pixel `(x, y)` in sixteenths: the matrix entry at
/// `(y mod 4, x mod 4)`.
pub open spec fn dither_at(x: int, y: int) -> int {
    bayer(y % 4, x % 4)
}

/// Threshold offset of pixel `(x, y)`, in sixteenths (the offset itself is
/// `r / 16`).
pub fn dither_sixteenths(x: u16, y: u16) -> (r: u8)
    ensures
        r as int == dither_at(x as int, y as int),
        r < 16,
{
    let row: u16 = y % 4;
    let col: u16 = x % 4;
    if row == 0 {
        if col == 0 { 0 } else if col == 1 { 8 } else if col == 2 { 2 } else { 10 }
    } else if row == 1 {
        if col == 0 { 12 } else if col == 1 { 4 } else if col == 2 { 14 } else { 6 }
    } else if row == 2 {
        if col == 0 { 3 } else if col == 1 { 11 } else if col == 2 { 1 } else { 9 }
    } else {
        if col == 0 { 15 } else if col == 1 { 7 } else if col == 2 { 13 } else { 5 }
    }
}

/// Every 4x4 tile of pixels, wherever it starts, meets each of the sixteen
/// thresholds `0/16 .. 15/16` at exactly one pixel: a flat color swept
/// across the tile is offset by every threshold once.
pub proof fn lemma_tile_has_every_threshold(x0: int, y0: int, k: int)
    requires
        0 <= x0,
        0 <= y0,
        0 <= k < 16,
    ensures
        exists|i: int, j: int| 0 <= i < 4 && 0 <= j < 4 && #[trigger] dither_at(x0 + i, y0 + j) == k,
        forall|i1: int, j1: int, i2: int, j2: int|
            0 <= i1 < 4 && 0 <= j1 < 4 && 0 <= i2 < 4 && 0 <= j2 < 4
                && #[trigger] dither_at(x0 + i1, y0 + j1) == k
                && #[trigger] dither_at(x0 + i2, y0 + j2) == k ==> i1 == i2 && j1 == j2,
{
    let row: int = if k == 0 || k == 8 || k == 2 || k == 10 {
        0
    } else if k == 12 || k == 4 || k == 14 || k == 6 {
        1
    } else if k == 3 || k == 11 || k == 1 || k == 9 {
        2
    } else {
        3
    };
    let col: int = if k == 0 || k == 12 || k == 3 || k == 15 {
        0
    } else if k == 8 || k == 4 || k == 11 || k == 7 {
        1
    } else if k == 2 || k == 14 || k == 1 || k == 13 {
        2
    } else {
        3
    };
    assert(bayer(row, col) == k);
    let i = (col - x0 % 4 + 4) % 4;
    let j = (row - y0 % 4 + 4) % 4;
    assert((x0 + i) % 4 == col);
    assert((y0 + j) % 4 == row);
    assert(dither_at(x0 + i, y0 + j) == k);
    assert forall|i1: int, j1: int, i2: int, j2: int|
        0 <= i1 < 4 && 0 <= j1 < 4 && 0 <= i2 < 4 && 0 <= j2 < 4
            && #[trigger] dither_at(x0 + i1, y0 + j1) == k
            && #[trigger] dither_at(x0 + i2, y0 + j2) == k implies i1 == i2 && j1 == j2 by {
        assert((x0 + i1) % 4 == (x0 + i2) % 4 ==> i1 == i2);
        assert((y0 + j1) % 4 == (y0 + j2) % 4 ==> j1 == j2);
    }
}

/// The level that ordered dithering picks, in exact arithmetic, for a
/// channel whose scaled value (value times the number of steps) is
/// `num / den >= 0` at a pixel with threshold `k / 16`: the value plus the
/// threshold minus one half, rounded to the nearest level, which is
/// `floor(num / den + k / 16)`.
pub open spec fn dithered_level(num: int, den: int, k: int) -> int {
    (16 * num + k * den) / (16 * den)
}

/// In exact arithmetic, a flat value that lies at least 1/16 of a step above
/// a representable level is dithered to two different levels within every
/// 4x4 tile.
pub proof fn lemma_tile_dithers_between_levels(num: int, den: int, x0: int, y0: int)
    requires
        0 <= num,
        0 < den,
        0 <= x0,
        0 <= y0,
        16 * (num % den) >= den,
    ensures
        exists|i1: int, j1: int, i2: int, j2: int|
            0 <= i1 < 4 && 0 <= j1 < 4 && 0 <= i2 < 4 && 0 <= j2 < 4 && dithered_level(
                num,
                den,
                #[trigger] dither_at(x0 + i1, y0 + j1),
            ) != dithered_level(num, den, #[trigger] dither_at(x0 + i2, y0 + j2)),
{
    lemma_tile_has_every_threshold(x0, y0, 0);
    lemma_tile_has_every_threshold(x0, y0, 15);
    let (i1, j1) = choose|i: int, j: int| 0 <= i < 4 && 0 <= j < 4 && #[trigger] dither_at(x0 + i, y0 + j) == 0;
    let (i2, j2) = choose|i: int, j: int| 0 <= i < 4 && 0 <= j < 4 && #[trigger] dither_at(x0 + i, y0 + j) == 15;
    let m = num / den;
    let r = num % den;
    vstd::arithmetic::div_mod::lemma_fundamental_div_mod(num, den);
    vstd::arithmetic::div_mod::lemma_mod_pos_bound(num, den);
    assert(16 * num == m * (16 * den) + 16 * r) by (nonlinear_arith)
        requires num == den * m + r;
    assert(16 * num + 15 * den == (m + 1) * (16 * den) + (16 * r - den)) by (nonlinear_arith)
        requires num == den * m + r;
    vstd::arithmetic::div_mod::lemma_fundamental_div_mod_converse(16 * num, 16 * den, m, 16 * r);
    vstd::arithmetic::div_mod::lemma_fundamental_div_mod_converse(
        16 * num + 15 * den,
        16 * den,
        m + 1,
        16 * r - den,
    );
    assert(dithered_level(num, den, dither_at(x0 + i1, y0 + j1)) == m);
    assert(dithered_level(num, den, dither_at(x0 + i2, y0 + j2)) == m + 1);
}

} // verus!
