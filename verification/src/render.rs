//! Rasterization: the fractal field sampled at every pixel, mapped to an
//! intensity, and colored through banded thresholds into an RGBA buffer.
//!
//! A field value `v` (fixed-point, denominator [`SCALE`]) becomes the
//! intensity `round(255 * (v + 1) / 2)` saturated into `0..=255`. The
//! intensity picks one of four color bands; channel sums are taken modulo
//! 256. Pixels are emitted in row-major order, four bytes each, with alpha
//! always fully opaque.

use vstd::prelude::*;

verus! {

use crate::fbm::{fbm_spec, fractal_brownian_motion};
use crate::noise::SCALE;
use crate::table::{perm_spec, PermutationTable};
use vstd::arithmetic::div_mod::{
    lemma_div_is_ordered, lemma_fundamental_div_mod_converse,
};

/// The intensity of a field value `v`: `round(255 * (v + S) / (2 S))`,
/// saturated into the byte range.
pub open spec fn intensity_spec(v: int) -> u8 {
    let s = SCALE as int;
    let q = (255 * (v + s) + s) / (2 * s);
    if q < 0 {
        0
    } else if q > 255 {
        255
    } else {
        q as u8
    }
}

/// The RGBA bytes for an intensity, chosen by four ordered bands with
/// channel arithmetic taken modulo 256.
pub open spec fn pixel_spec(i: u8) -> Seq<u8> {
    if i <= 100 {
        seq![67u8, ((i + 65) % 256) as u8, ((i + 155) % 256) as u8, 255u8]
    } else if i <= 140 {
        seq![((i + 60) % 256) as u8, i, 44u8, 255u8]
    } else if i <= 210 {
        seq![92u8, ((i + 45) % 256) as u8, 36u8, 255u8]
    } else {
        seq![244u8, 249u8, 255u8, 255u8]
    }
}

/// The band an intensity falls in, numbered in evaluation order.
pub open spec fn band_index_spec(i: u8) -> int {
    if i <= 100 {
        0
    } else if i <= 140 {
        1
    } else if i <= 210 {
        2
    } else {
        3
    }
}

/// Whether an intensity lies inside the threshold range of band `b`.
pub open spec fn in_band_spec(i: u8, b: int) -> bool {
    if b == 0 {
        i <= 100
    } else if b == 1 {
        101 <= i <= 140
    } else if b == 2 {
        141 <= i <= 210
    } else if b == 3 {
        211 <= i <= 255
    } else {
        false
    }
}

/// The four bands partition the whole intensity range: every intensity lies
/// in exactly one band, the one its pixel formula is taken from.
pub proof fn lemma_bands_partition()
    ensures
        forall|i: u8| 0 <= #[trigger] band_index_spec(i) <= 3,
        forall|i: u8, b: int| #[trigger] in_band_spec(i, b) <==> b == band_index_spec(i),
{
}

/// Every pixel is four bytes and fully opaque.
pub proof fn lemma_pixel_shape()
    ensures
        forall|i: u8| (#[trigger] pixel_spec(i)).len() == 4,
        forall|i: u8| (#[trigger] pixel_spec(i))[3] == 255,
{
}

/// Saturating byte intensity of a fixed-point field value.
pub fn intensity_of(v: i64) -> (i: u8)
    ensures
        i == intensity_spec(v as int),
{
    let vi = v as i128;
    let n = 255 * (vi + 819200) + 819200;
    if n < 0 {
        proof {
            let s = SCALE as int;
            lemma_div_is_ordered(n as int, -1, 2 * s);
            lemma_fundamental_div_mod_converse(-1, 2 * s, -1, 2 * s - 1);
        }
        0
    } else {
        let q = (n as u128) / 1638400;
        proof {
            assert(2 * (SCALE as int) == 1638400);
        }
        if q > 255 {
            255
        } else {
            q as u8
        }
    }
}

/// Byte addition modulo 256, the narrowing rule for band channel sums.
pub fn wrap_add8(a: u8, b: u8) -> (r: u8)
    ensures
        r as int == ((a as int) + (b as int)) % 256,
{
    (((a as u16) + (b as u16)) % 256) as u8
}

/// The four RGBA bytes for an intensity.
pub fn pixel_for_intensity(i: u8) -> (p: Vec<u8>)
    ensures
        p@ == pixel_spec(i),
{
    if i <= 100 {
        let g = wrap_add8(i, 65);
        let b = wrap_add8(i, 155);
        let p = vec![67u8, g, b, 255u8];
        proof { assert(p@ =~= pixel_spec(i)); }
        p
    } else if i <= 140 {
        let r = wrap_add8(i, 60);
        let p = vec![r, i, 44u8, 255u8];
        proof { assert(p@ =~= pixel_spec(i)); }
        p
    } else if i <= 210 {
        let g = wrap_add8(i, 45);
        let p = vec![92u8, g, 36u8, 255u8];
        proof { assert(p@ =~= pixel_spec(i)); }
        p
    } else {
        let p = vec![244u8, 249u8, 255u8, 255u8];
        proof { assert(p@ =~= pixel_spec(i)); }
        p
    }
}

/// The field value at pixel `(x, y)`: the fractal sum at the pixel's
/// fixed-point coordinates.
pub open spec fn scalar_at(x: int, y: int, o: nat, t: Seq<u8>) -> int {
    fbm_spec(x * (SCALE as int), y * (SCALE as int), t, o)
}

/// The four bytes of pixel `(x, y)`.
pub open spec fn pixel_at(x: int, y: int, o: nat, t: Seq<u8>) -> Seq<u8> {
    pixel_spec(intensity_spec(scalar_at(x, y, o, t)))
}

/// The bytes of row `y`, columns `0 .. w`.
pub open spec fn row_spec(y: int, w: nat, o: nat, t: Seq<u8>) -> Seq<u8>
    decreases w,
{
    if w == 0 {
        Seq::empty()
    } else {
        row_spec(y, (w - 1) as nat, o, t) + pixel_at((w - 1) as int, y, o, t)
    }
}

/// The bytes of rows `0 .. h`, each `w` pixels wide, in row-major order.
pub open spec fn rows_spec(h: nat, w: nat, o: nat, t: Seq<u8>) -> Seq<u8>
    decreases h,
{
    if h == 0 {
        Seq::empty()
    } else {
        rows_spec((h - 1) as nat, w, o, t) + row_spec((h - 1) as int, w, o, t)
    }
}

/// The whole image for a seed: every pixel of the `w` by `h` grid.
pub open spec fn render_spec(w: nat, h: nat, o: nat, seed: u64) -> Seq<u8> {
    rows_spec(h, w, o, perm_spec(seed))
}

/// A row is four bytes per pixel.
pub proof fn lemma_row_len(y: int, w: nat, o: nat, t: Seq<u8>)
    ensures
        row_spec(y, w, o, t).len() == 4 * w,
    decreases w,
{
    if w != 0 {
        lemma_row_len(y, (w - 1) as nat, o, t);
    }
}

/// The full buffer is four bytes per pixel of the grid.
pub proof fn lemma_rows_len(h: nat, w: nat, o: nat, t: Seq<u8>)
    ensures
        rows_spec(h, w, o, t).len() == 4 * w * h,
    decreases h,
{
    if h != 0 {
        lemma_rows_len((h - 1) as nat, w, o, t);
        lemma_row_len((h - 1) as int, w, o, t);
        assert(4 * w * ((h - 1) as nat) + 4 * w == 4 * w * h) by (nonlinear_arith)
            requires h >= 1;
    }
}

/// Renders the whole image for a seed: builds the permutation table, walks
/// the grid in row-major order, and appends one colored pixel per
/// coordinate. The buffer is a pure function of the four arguments, and an
/// empty grid yields an empty buffer.
pub fn generate_noise(width: u32, height: u32, n_octaves: usize, seed: u64) -> (pixels: Vec<u8>)
    ensures
        pixels@ == render_spec(width as nat, height as nat, n_octaves as nat, seed),
        pixels@.len() == 4 * width * height,
{
    let table = PermutationTable::build(seed);
    let mut pixels: Vec<u8> = Vec::new();
    let mut y: u32 = 0;
    while y < height
        invariant
            table.wf(),
            table@ == perm_spec(seed),
            y <= height,
            pixels@ == rows_spec(y as nat, width as nat, n_octaves as nat, table@),
        decreases height - y,
    {
        let mut x: u32 = 0;
        proof {
            assert(pixels@ =~= rows_spec(y as nat, width as nat, n_octaves as nat, table@)
                + row_spec(y as int, 0, n_octaves as nat, table@));
        }
        while x < width
            invariant
                table.wf(),
                table@ == perm_spec(seed),
                x <= width,
                y < height,
                pixels@ == rows_spec(y as nat, width as nat, n_octaves as nat, table@)
                    + row_spec(y as int, x as nat, n_octaves as nat, table@),
            decreases width - x,
        {
            let v = fractal_brownian_motion(
                (x as i64) * (SCALE as i64),
                (y as i64) * (SCALE as i64),
                n_octaves,
                &table,
            );
            let inten = intensity_of(v);
            let mut p = pixel_for_intensity(inten);
            pixels.append(&mut p);
            proof {
                let o = n_octaves as nat;
                let t = table@;
                assert(v == scalar_at(x as int, y as int, o, t));
                assert(p@ == Seq::<u8>::empty());
                assert(row_spec(y as int, (x + 1) as nat, o, t)
                    == row_spec(y as int, x as nat, o, t) + pixel_at(x as int, y as int, o, t));
                assert(pixels@ =~= rows_spec(y as nat, width as nat, o, t)
                    + row_spec(y as int, (x + 1) as nat, o, t));
            }
            x = x + 1;
        }
        proof {
            let o = n_octaves as nat;
            let t = table@;
            assert(rows_spec((y + 1) as nat, width as nat, o, t)
                == rows_spec(y as nat, width as nat, o, t)
                + row_spec(y as int, width as nat, o, t));
        }
        y = y + 1;
    }
    proof {
        lemma_rows_len(height as nat, width as nat, n_octaves as nat, table@);
    }
    pixels
}

} // verus!
