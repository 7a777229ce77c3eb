//! Classic 2D gradient (Perlin) noise over the permutation table, in exact
//! fixed-point arithmetic.
//!
//! A coordinate is an `i64` holding a fixed-point value with denominator
//! [`SCALE`]: the stored number `c` stands for the real coordinate
//! `c / SCALE`. `SCALE` is `200 * 4096`, so the base octave frequency of
//! one two-hundredth used by the fractal accumulator divides it exactly.
//! Noise values use the same denominator: a result `r` stands for the real
//! value `r / SCALE`, and lies in `[-SCALE, SCALE]`, that is in `[-1, 1]`.

use vstd::prelude::*;

verus! {

use crate::table::PermutationTable;
use vstd::arithmetic::div_mod::{
    lemma_fundamental_div_mod, lemma_fundamental_div_mod_converse, lemma_mod_bound,
    lemma_mod_mod, lemma_mod_multiples_vanish, lemma_small_mod, lemma_div_is_ordered,
    lemma_div_pos_is_pos, lemma_div_multiples_vanish, lemma_hoist_over_denominator,
    lemma_add_mod_noop, lemma_div_of0,
};

/// Fixed-point denominator: coordinates and noise values are integers that
/// stand for multiples of `1 / SCALE`. Equals `200 * 4096`.
pub const SCALE: u64 = 819200;

/// One full lattice period in fixed-point units: `256 * SCALE`. The
/// permutation-table lookups repeat with this period in each coordinate.
pub const CELL_SPAN: u64 = 209715200;

/// The quintic smoothstep `t^3 (6 t^2 - 15 S t + 10 S^2) / S^4` in
/// fixed-point form: both argument and result carry denominator `SCALE`.
pub open spec fn fade_spec(t: int) -> int {
    let s = SCALE as int;
    (t * t * t * (6 * t * t + 10 * s * s - 15 * s * t)) / (s * s * s * s)
}

/// Linear interpolation `a + t (b - a)` in fixed-point form, written over a
/// common denominator as `(a (S - t) + t b) / S`.
pub open spec fn lerp_spec(t: int, a: int, b: int) -> int {
    let s = SCALE as int;
    (a * (s - t) + t * b) / s
}

/// The dot product of one of the four axis gradients `(0,1)`, `(0,-1)`,
/// `(1,0)`, `(-1,0)` — selected by the low two bits of the hash — with the
/// offset `(dx, dy)`.
pub open spec fn grad_spec(h: u8, dx: int, dy: int) -> int {
    if h % 4 == 0 {
        dy
    } else if h % 4 == 1 {
        -dy
    } else if h % 4 == 2 {
        dx
    } else {
        -dx
    }
}

/// Gradient noise at fixed-point coordinate `(x, y)` over table `t`:
/// the cell is `floor` of each coordinate taken modulo 256, the offsets are
/// the fractional parts, the four corner hashes come from two chained table
/// lookups, and the corner dot products are blended with faded weights,
/// along x first, then along y.
pub open spec fn noise_spec(x: int, y: int, t: Seq<u8>) -> int {
    let s = SCALE as int;
    let xi = (x / s) % 256;
    let yi = (y / s) % 256;
    let xf = x % s;
    let yf = y % s;
    let u = fade_spec(xf);
    let v = fade_spec(yf);
    let a = ((t[xi] as int) + yi) % 256;
    let b = ((t[xi + 1] as int) + yi) % 256;
    let g00 = grad_spec(t[a], xf, yf);
    let g10 = grad_spec(t[b], xf - s, yf);
    let g01 = grad_spec(t[a + 1], xf, yf - s);
    let g11 = grad_spec(t[b + 1], xf - s, yf - s);
    lerp_spec(v, lerp_spec(u, g00, g10), lerp_spec(u, g01, g11))
}

/// The fade curve maps `[0, SCALE]` into `[0, SCALE]`.
pub proof fn lemma_fade_range(t: int)
    requires
        0 <= t <= SCALE as int,
    ensures
        0 <= fade_spec(t) <= SCALE as int,
{
    let s = SCALE as int;
    let inner = 6 * t * t + 10 * s * s - 15 * s * t;
    let num = t * t * t * inner;
    let d = s * s * s * s;
    assert(inner >= 0) by (nonlinear_arith)
        requires
            inner == 6 * t * t + 10 * s * s - 15 * s * t;
    assert(num >= 0) by (nonlinear_arith)
        requires
            t >= 0,
            inner >= 0,
            num == t * t * t * inner;
    assert(num <= s * d) by (nonlinear_arith)
        requires
            0 <= t <= s,
            num == t * t * t * (6 * t * t + 10 * s * s - 15 * s * t),
            d == s * s * s * s;
    assert(d > 0) by (nonlinear_arith)
        requires
            d == s * s * s * s,
            s >= 1;
    lemma_div_pos_is_pos(num, d);
    lemma_div_is_ordered(num, s * d, d);
    assert((d * s) / d == s) by { lemma_div_multiples_vanish(s, d); }
    assert(d * s == s * d) by (nonlinear_arith);
    assert(fade_spec(t) == num / d);
}

/// Interpolation with a weight in `[0, SCALE]` stays within the bounds of
/// its endpoints.
pub proof fn lemma_lerp_range(t: int, a: int, b: int, m: int)
    requires
        0 <= t <= SCALE as int,
        0 <= m,
        -m <= a <= m,
        -m <= b <= m,
    ensures
        -m <= lerp_spec(t, a, b) <= m,
{
    let s = SCALE as int;
    let num = a * (s - t) + t * b;
    assert(-(m * s) <= num <= m * s) by (nonlinear_arith)
        requires
            num == a * (s - t) + t * b,
            0 <= t <= s,
            -m <= a <= m,
            -m <= b <= m,
            0 <= m;
    lemma_div_is_ordered(-(m * s), num, s);
    lemma_div_is_ordered(num, m * s, s);
    assert((s * m) / s == m) by { lemma_div_multiples_vanish(m, s); }
    assert((s * (-m)) / s == -m) by { lemma_div_multiples_vanish(-m, s); }
    assert(s * m == m * s) by (nonlinear_arith);
    assert(s * (-m) == -(m * s)) by (nonlinear_arith);
    assert(lerp_spec(t, a, b) == num / s);
}

/// Noise values lie within one unit of fixed-point magnitude: the field is
/// bounded by `[-SCALE, SCALE]`, i.e. by `[-1, 1]` as a real value.
pub proof fn lemma_noise_range(x: int, y: int, t: Seq<u8>)
    requires
        t.len() == 257,
    ensures
        -(SCALE as int) <= noise_spec(x, y, t) <= SCALE as int,
{
    let s = SCALE as int;
    lemma_mod_bound(x / s, 256);
    lemma_mod_bound(y / s, 256);
    lemma_mod_bound(x, s);
    lemma_mod_bound(y, s);
    let xi = (x / s) % 256;
    let yi = (y / s) % 256;
    let xf = x % s;
    let yf = y % s;
    lemma_mod_bound((t[xi] as int) + yi, 256);
    lemma_mod_bound((t[xi + 1] as int) + yi, 256);
    lemma_fade_range(xf);
    lemma_fade_range(yf);
    let u = fade_spec(xf);
    let v = fade_spec(yf);
    let a = ((t[xi] as int) + yi) % 256;
    let b = ((t[xi + 1] as int) + yi) % 256;
    let g00 = grad_spec(t[a], xf, yf);
    let g10 = grad_spec(t[b], xf - s, yf);
    let g01 = grad_spec(t[a + 1], xf, yf - s);
    let g11 = grad_spec(t[b + 1], xf - s, yf - s);
    lemma_lerp_range(u, g00, g10, s);
    lemma_lerp_range(u, g01, g11, s);
    lemma_lerp_range(v, lerp_spec(u, g00, g10), lerp_spec(u, g01, g11), s);
}

/// Interpolation with weight zero returns its first endpoint exactly.
proof fn lemma_lerp_zero(a: int, b: int)
    ensures
        lerp_spec(0, a, b) == a,
{
    let s = SCALE as int;
    assert((s * a) / s == a) by { lemma_div_multiples_vanish(a, s); }
    assert(a * (s - 0) + 0 * b == s * a) by (nonlinear_arith);
}

/// Interpolation with weight `SCALE - 1` lands within two units of its
/// second endpoint.
proof fn lemma_lerp_at_end(a: int, b: int)
    requires
        -(SCALE as int) <= a <= SCALE as int,
        -(SCALE as int) <= b <= SCALE as int,
    ensures
        b - 2 <= lerp_spec((SCALE as int) - 1, a, b) <= b + 2,
{
    let s = SCALE as int;
    let num = a * (s - (s - 1)) + (s - 1) * b;
    assert(num == (a - b) + b * s) by (nonlinear_arith)
        requires num == a * (s - (s - 1)) + (s - 1) * b;
    lemma_hoist_over_denominator(a - b, b, SCALE as nat);
    assert((a - b) / s + b == ((a - b) + b * s) / s);
    lemma_div_is_ordered(-(2 * s), a - b, s);
    lemma_div_is_ordered(a - b, 2 * s, s);
    assert((s * 2) / s == 2) by { lemma_div_multiples_vanish(2, s); }
    assert((s * (-2)) / s == -2) by { lemma_div_multiples_vanish(-2, s); }
    assert(s * 2 == 2 * s) by (nonlinear_arith);
    assert(s * (-2) == -(2 * s)) by (nonlinear_arith);
    assert(lerp_spec(s - 1, a, b) == num / s);
}

/// Moving both endpoints by at most `dmax` moves the interpolated value by
/// at most `dmax`.
proof fn lemma_lerp_shift(t: int, a: int, b: int, a2: int, b2: int, dmax: int)
    requires
        0 <= t <= SCALE as int,
        0 <= dmax,
        -dmax <= a - a2 <= dmax,
        -dmax <= b - b2 <= dmax,
    ensures
        lerp_spec(t, a2, b2) - dmax <= lerp_spec(t, a, b) <= lerp_spec(t, a2, b2) + dmax,
{
    let s = SCALE as int;
    let n1 = a * (s - t) + t * b;
    let n2 = a2 * (s - t) + t * b2;
    assert(n2 - dmax * s <= n1 <= n2 + dmax * s) by (nonlinear_arith)
        requires
            n1 == a * (s - t) + t * b,
            n2 == a2 * (s - t) + t * b2,
            0 <= t <= s,
            0 <= dmax,
            -dmax <= a - a2 <= dmax,
            -dmax <= b - b2 <= dmax;
    lemma_hoist_over_denominator(n2, dmax, SCALE as nat);
    assert(n2 / s + dmax == (n2 + dmax * s) / s);
    lemma_div_is_ordered(n1, n2 + dmax * s, s);
    lemma_hoist_over_denominator(n2, -dmax, SCALE as nat);
    assert(n2 / s + (-dmax) == (n2 + (-dmax) * s) / s);
    assert((-dmax) * s == -(dmax * s)) by (nonlinear_arith);
    lemma_div_is_ordered(n2 + (-dmax) * s, n1, s);
    assert(lerp_spec(t, a, b) == n1 / s);
    assert(lerp_spec(t, a2, b2) == n2 / s);
}

/// The fade curve's exact values one unit inside each end of a cell.
proof fn lemma_fade_endpoints()
    ensures
        fade_spec(0) == 0,
        fade_spec((SCALE as int) - 1) == (SCALE as int) - 1,
{
    let s = SCALE as int;
    assert(0 * 0 * 0 * (6 * 0 * 0 + 10 * s * s - 15 * s * 0) == 0) by (nonlinear_arith);
    assert(s * s * s * s != 0) by (nonlinear_arith)
        requires s >= 1;
    lemma_div_of0(s * s * s * s);
    assert(fade_spec(0) == 0);
    let t = s - 1;
    assert(t * t * t * (6 * t * t + 10 * s * s - 15 * s * t)
        == 368934881474191025609125887994int) by (nonlinear_arith)
        requires s == 819200, t == s - 1;
    assert(s * s * s * s == 450359962737049600000000int) by (nonlinear_arith)
        requires s == 819200;
    lemma_fundamental_div_mod_converse(
        368934881474191025609125887994int,
        450359962737049600000000int,
        819199int,
        450359962730338725887994int,
    );
    assert(fade_spec(s - 1) == s - 1);
}

/// Continuity across a vertical cell boundary: at a coordinate `x` that
/// lies exactly on a lattice line, the noise differs from the value one
/// fixed-point unit to the left by at most four units — about `5e-6`
/// as a real value. The fade curve flattens both sides onto the shared
/// corner gradients, and the table's wrap entry makes the two hash chains
/// meet.
pub proof fn lemma_boundary_continuity_x(x: int, y: int, t: Seq<u8>)
    requires
        t.len() == 257,
        t[256] == t[0],
        x % (SCALE as int) == 0,
    ensures
        -4 <= noise_spec(x, y, t) - noise_spec(x - 1, y, t) <= 4,
{
    let s = SCALE as int;
    let q = x / s;
    lemma_fundamental_div_mod(x, s);
    assert(x == s * q);
    assert(x - 1 == (q - 1) * s + (s - 1)) by (nonlinear_arith)
        requires x == s * q;
    lemma_fundamental_div_mod_converse(x - 1, s, q - 1, s - 1);
    let xi1 = (x / s) % 256;
    let xi2 = ((x - 1) / s) % 256;
    lemma_mod_bound(q, 256);
    lemma_mod_bound(q - 1, 256);
    lemma_add_mod_noop(q - 1, 1, 256);
    lemma_small_mod(1nat, 256nat);
    assert(xi1 == (xi2 + 1) % 256);
    if xi2 == 255 {
        assert(xi1 == 0);
        assert(t[xi2 + 1] == t[xi1]);
    } else {
        lemma_small_mod((xi2 + 1) as nat, 256nat);
        assert(t[xi2 + 1] == t[xi1]);
    }
    let yi = (y / s) % 256;
    let yf = y % s;
    lemma_mod_bound(y / s, 256);
    lemma_mod_bound(y, s);
    let aa = ((t[xi1] as int) + yi) % 256;
    let bb = ((t[xi1 + 1] as int) + yi) % 256;
    lemma_mod_bound((t[xi1] as int) + yi, 256);
    lemma_mod_bound((t[xi1 + 1] as int) + yi, 256);
    let v = fade_spec(yf);
    lemma_fade_range(yf);
    // the side at x: zero fractional offset, zero fade weight
    lemma_fade_endpoints();
    let g00 = grad_spec(t[aa], 0, yf);
    let g10 = grad_spec(t[bb], 0 - s, yf);
    let g01 = grad_spec(t[aa + 1], 0, yf - s);
    let g11 = grad_spec(t[bb + 1], 0 - s, yf - s);
    lemma_lerp_zero(g00, g10);
    lemma_lerp_zero(g01, g11);
    assert(noise_spec(x, y, t) == lerp_spec(v, g00, g01));
    // the side at x - 1: fractional offset one short of a full cell
    let a2 = ((t[xi2] as int) + yi) % 256;
    let b2 = ((t[xi2 + 1] as int) + yi) % 256;
    lemma_mod_bound((t[xi2] as int) + yi, 256);
    assert(b2 == aa);
    let h00 = grad_spec(t[a2], s - 1, yf);
    let h10 = grad_spec(t[b2], (s - 1) - s, yf);
    let h01 = grad_spec(t[a2 + 1], s - 1, yf - s);
    let h11 = grad_spec(t[b2 + 1], (s - 1) - s, yf - s);
    let l0 = lerp_spec(s - 1, h00, h10);
    let l1 = lerp_spec(s - 1, h01, h11);
    assert(noise_spec(x - 1, y, t) == lerp_spec(v, l0, l1));
    // each inner interpolation collapses to the shared corner gradient
    lemma_lerp_at_end(h00, h10);
    lemma_lerp_at_end(h01, h11);
    assert(-1 <= h10 - g00 <= 1);
    assert(-1 <= h11 - g01 <= 1);
    assert(-3 <= l0 - g00 <= 3);
    assert(-3 <= l1 - g01 <= 3);
    lemma_lerp_shift(v, l0, l1, g00, g01, 3);
}

/// Continuity across a horizontal cell boundary: the mirror statement of
/// [`lemma_boundary_continuity_x`] for a coordinate `y` on a lattice line.
pub proof fn lemma_boundary_continuity_y(x: int, y: int, t: Seq<u8>)
    requires
        t.len() == 257,
        t[256] == t[0],
        y % (SCALE as int) == 0,
    ensures
        -4 <= noise_spec(x, y, t) - noise_spec(x, y - 1, t) <= 4,
{
    let s = SCALE as int;
    let q = y / s;
    lemma_fundamental_div_mod(y, s);
    assert(y == s * q);
    assert(y - 1 == (q - 1) * s + (s - 1)) by (nonlinear_arith)
        requires y == s * q;
    lemma_fundamental_div_mod_converse(y - 1, s, q - 1, s - 1);
    let yi1 = (y / s) % 256;
    let yi2 = ((y - 1) / s) % 256;
    lemma_mod_bound(q, 256);
    lemma_mod_bound(q - 1, 256);
    let xi = (x / s) % 256;
    let xf = x % s;
    lemma_mod_bound(x / s, 256);
    lemma_mod_bound(x, s);
    let hx0 = t[xi] as int;
    let hx1 = t[xi + 1] as int;
    let aa = (hx0 + yi1) % 256;
    let bb = (hx1 + yi1) % 256;
    let a2 = (hx0 + yi2) % 256;
    let b2 = (hx1 + yi2) % 256;
    lemma_mod_bound(hx0 + yi1, 256);
    lemma_mod_bound(hx1 + yi1, 256);
    lemma_mod_bound(hx0 + yi2, 256);
    lemma_mod_bound(hx1 + yi2, 256);
    // the corner hashes one row up from the lower row are the shared ones
    lemma_add_mod_noop(q - 1, 1, 256);
    lemma_small_mod(1nat, 256nat);
    assert(yi1 == (yi2 + 1) % 256);
    lemma_add_mod_noop(hx0 + yi2, 1, 256);
    lemma_add_mod_noop(hx0, yi2, 256);
    lemma_add_mod_noop(hx0, yi2 + 1, 256);
    lemma_small_mod(yi2 as nat, 256nat);
    lemma_add_mod_noop(hx0, yi1, 256);
    lemma_small_mod(yi1 as nat, 256nat);
    assert((hx0 + (yi2 + 1)) % 256 == (hx0 + yi1) % 256) by {
        assert((yi2 + 1) % 256 == yi1 % 256);
    }
    assert(aa == (a2 + 1) % 256);
    lemma_add_mod_noop(hx1 + yi2, 1, 256);
    lemma_add_mod_noop(hx1, yi2, 256);
    lemma_add_mod_noop(hx1, yi2 + 1, 256);
    lemma_add_mod_noop(hx1, yi1, 256);
    assert((hx1 + (yi2 + 1)) % 256 == (hx1 + yi1) % 256) by {
        assert((yi2 + 1) % 256 == yi1 % 256);
    }
    assert(bb == (b2 + 1) % 256);
    if a2 == 255 {
        assert(t[a2 + 1] == t[aa]);
    } else {
        lemma_small_mod((a2 + 1) as nat, 256nat);
        assert(t[a2 + 1] == t[aa]);
    }
    if b2 == 255 {
        assert(t[b2 + 1] == t[bb]);
    } else {
        lemma_small_mod((b2 + 1) as nat, 256nat);
        assert(t[b2 + 1] == t[bb]);
    }
    let u = fade_spec(xf);
    lemma_fade_range(xf);
    // the side at y: zero fade weight along y
    lemma_fade_endpoints();
    let g00 = grad_spec(t[aa], xf, 0);
    let g10 = grad_spec(t[bb], xf - s, 0);
    let g01 = grad_spec(t[aa + 1], xf, 0 - s);
    let g11 = grad_spec(t[bb + 1], xf - s, 0 - s);
    let l0y = lerp_spec(u, g00, g10);
    lemma_lerp_zero(l0y, lerp_spec(u, g01, g11));
    assert(noise_spec(x, y, t) == l0y);
    // the side at y - 1: fractional offset one short of a full cell
    let h00 = grad_spec(t[a2], xf, s - 1);
    let h10 = grad_spec(t[b2], xf - s, s - 1);
    let h01 = grad_spec(t[a2 + 1], xf, (s - 1) - s);
    let h11 = grad_spec(t[b2 + 1], xf - s, (s - 1) - s);
    let l0 = lerp_spec(u, h00, h10);
    let l1 = lerp_spec(u, h01, h11);
    assert(noise_spec(x, y - 1, t) == lerp_spec(s - 1, l0, l1));
    // the upper corner row of the lower cell meets the lower row at y
    assert(-1 <= h01 - g00 <= 1);
    assert(-1 <= h11 - g10 <= 1);
    lemma_lerp_shift(u, h01, h11, g00, g10, 1);
    assert(-1 <= l1 - l0y <= 1);
    lemma_lerp_range(u, h00, h10, s);
    lemma_lerp_range(u, h01, h11, s);
    lemma_lerp_at_end(l0, l1);
    assert(-2 <= lerp_spec(s - 1, l0, l1) - l1 <= 2);
}

/// Reducing a value modulo `d * n` changes neither its remainder by `d` nor
/// its quotient by `d` taken modulo `n`.
pub(crate) proof fn lemma_mod_div_split(c: int, d: int, n: int)
    requires
        1 <= d,
        1 <= n,
    ensures
        0 <= c % (d * n) < d * n,
        (c % (d * n)) / d == (c / d) % n,
        (c % (d * n)) % d == c % d,
{
    let span = d * n;
    assert(span >= 1) by (nonlinear_arith)
        requires d >= 1, n >= 1, span == d * n;
    lemma_mod_bound(c, span);
    let rm = c % span;
    let q = c / span;
    lemma_fundamental_div_mod(c, span);
    assert(c == span * q + rm);
    // c / d == rm / d + n * q
    lemma_hoist_over_denominator(rm, n * q, d as nat);
    assert(rm / d + n * q == (rm + (n * q) * d) / d);
    assert((n * q) * d == span * q) by (nonlinear_arith)
        requires span == d * n;
    assert(c / d == rm / d + n * q);
    // rm / d < n
    let qq = rm / d;
    let rr = rm % d;
    lemma_fundamental_div_mod(rm, d);
    lemma_mod_bound(rm, d);
    assert(qq >= 0) by { lemma_div_pos_is_pos(rm, d); }
    assert(qq < n) by (nonlinear_arith)
        requires rm == d * qq + rr, rm < d * n, rr >= 0, qq >= 0, d >= 1;
    // (c / d) % n == (rm / d) % n == rm / d
    lemma_mod_multiples_vanish(q, qq, n);
    assert((n * q + qq) % n == qq % n);
    lemma_small_mod(qq as nat, n as nat);
    // remainders by d agree
    lemma_mod_mod(c, d, n);
}

/// Reducing a coordinate modulo one lattice period changes neither its cell
/// index modulo 256 nor its fractional part.
proof fn lemma_split_mod_cell(c: int)
    ensures
        0 <= c % (CELL_SPAN as int) < CELL_SPAN as int,
        (c % (CELL_SPAN as int)) / (SCALE as int) == (c / (SCALE as int)) % 256,
        (c % (CELL_SPAN as int)) % (SCALE as int) == c % (SCALE as int),
{
    assert(CELL_SPAN as int == (SCALE as int) * 256);
    lemma_mod_div_split(c, SCALE as int, 256);
}

/// The noise field repeats with period `CELL_SPAN` in each coordinate.
pub proof fn lemma_noise_mod_cell(x: int, y: int, t: Seq<u8>)
    ensures
        noise_spec(x % (CELL_SPAN as int), y % (CELL_SPAN as int), t) == noise_spec(x, y, t),
{
    lemma_split_mod_cell(x);
    lemma_split_mod_cell(y);
}

/// Euclidean remainder of a signed fixed-point value by a positive modulus.
pub(crate) fn emod(c: i64, m: u64) -> (r: u64)
    requires
        1 <= m,
    ensures
        r as int == (c as int) % (m as int),
        r < m,
{
    if c >= 0 {
        let r = (c as u64) % m;
        proof { lemma_mod_bound(c as int, m as int); }
        r
    } else {
        let k = (-(c + 1)) as u64;
        let r1 = k % m;
        proof {
            let q = (k as int) / (m as int);
            lemma_fundamental_div_mod(k as int, m as int);
            lemma_mod_bound(k as int, m as int);
            assert(c as int == (-(q + 1)) * (m as int) + ((m as int) - 1 - (r1 as int)))
                by (nonlinear_arith)
                requires
                    k as int == (m as int) * q + (r1 as int),
                    c as int == -((k as int) + 1);
            lemma_fundamental_div_mod_converse(
                c as int,
                m as int,
                -(q + 1),
                (m as int) - 1 - (r1 as int),
            );
        }
        m - 1 - r1
    }
}

/// Splits a fixed-point coordinate into its lattice cell modulo 256 and its
/// nonnegative fractional part.
fn coord_split(c: i64) -> (r: (usize, u64))
    ensures
        r.0 as int == ((c as int) / (SCALE as int)) % 256,
        r.1 as int == (c as int) % (SCALE as int),
        r.0 < 256,
        r.1 < SCALE,
{
    let rm = emod(c, CELL_SPAN);
    proof {
        lemma_split_mod_cell(c as int);
        lemma_mod_bound((c as int) / (SCALE as int), 256);
        lemma_mod_bound(c as int, SCALE as int);
    }
    let cell = (rm / SCALE) as usize;
    let frac = rm % SCALE;
    (cell, frac)
}

/// The fade curve on fixed-point weights.
fn fade_fp(t: u64) -> (r: u64)
    requires
        t <= SCALE,
    ensures
        r as int == fade_spec(t as int),
        r <= SCALE,
{
    proof {
        lemma_fade_range(t as int);
    }
    let tt = t as u128;
    proof {
        assert((tt as int) * (tt as int) <= 671088640000) by (nonlinear_arith)
            requires tt <= 819200;
    }
    let t2 = tt * tt;
    proof {
        assert(t2 == (t as int) * (t as int));
        assert(t2 <= 671088640000) by (nonlinear_arith)
            requires t2 == (t as int) * (t as int), 0 <= t <= 819200;
        assert((t2 as int) * (tt as int) <= 549755813888000000) by (nonlinear_arith)
            requires 0 <= t2 <= 671088640000, 0 <= tt <= 819200;
    }
    let t3 = t2 * tt;
    proof {
        assert(t3 == (t as int) * (t as int) * (t as int));
        assert(t3 <= 549755813888000000) by (nonlinear_arith)
            requires t3 == (t as int) * (t as int) * (t as int), 0 <= t <= 819200;
        assert(12288000 * (t as int) <= 6 * ((t as int) * (t as int)) + 6710886400000)
            by (nonlinear_arith)
            requires 0 <= t <= 819200;
    }
    // `6710886400000` is `10 * SCALE^2` and `12288000` is `15 * SCALE`.
    let inner = 6 * t2 + 6710886400000 - 12288000 * tt;
    proof {
        assert(inner == 6 * ((t as int) * (t as int)) + 10 * (SCALE as int) * (SCALE as int)
            - 15 * (SCALE as int) * (t as int)) by (nonlinear_arith)
            requires
                inner == 6 * ((t as int) * (t as int)) + 6710886400000 - 12288000 * (t as int);
        assert(t3 * inner <= 549755813888000000 * 10737418240000) by (nonlinear_arith)
            requires 0 <= t3 <= 549755813888000000, 0 <= inner <= 10737418240000;
    }
    let num = t3 * inner;
    // `450359962737049600000000` is `SCALE^4`.
    let q = num / 450359962737049600000000;
    proof {
        let ti = t as int;
        let si = SCALE as int;
        assert(num == ti * ti * ti * (6 * ti * ti + 10 * si * si - 15 * si * ti))
            by (nonlinear_arith)
            requires
                num == (ti * ti * ti) * (6 * (ti * ti) + 6710886400000 - 12288000 * ti),
                si == 819200;
        assert(si * si * si * si == 450359962737049600000000) by (nonlinear_arith)
            requires si == 819200;
        assert(fade_spec(ti) == (num as int) / (si * si * si * si));
        assert(q as int == fade_spec(t as int));
    }
    q as u64
}

/// Interpolation over values biased upward by `SCALE` so that the whole
/// computation stays in nonnegative integers: arguments and result carry a
/// `+SCALE` offset relative to [`lerp_spec`].
fn lerp_biased(t: u64, a: u64, b: u64) -> (r: u64)
    requires
        t <= SCALE,
        a <= 2 * SCALE,
        b <= 2 * SCALE,
    ensures
        r as int == lerp_spec(t as int, a - SCALE, b - SCALE) + SCALE,
        r <= 2 * SCALE,
{
    proof {
        let s = SCALE as int;
        let ti = t as int;
        let ai = a as int;
        let bi = b as int;
        let numi = ai * (s - ti) + ti * bi;
        let ns = (ai - s) * (s - ti) + ti * (bi - s);
        assert(numi <= 2 * s * s) by (nonlinear_arith)
            requires
                numi == ai * (s - ti) + ti * bi,
                0 <= ti <= s,
                0 <= ai <= 2 * s,
                0 <= bi <= 2 * s;
        assert(numi >= 0) by (nonlinear_arith)
            requires
                numi == ai * (s - ti) + ti * bi,
                0 <= ti <= s,
                0 <= ai,
                0 <= bi;
        assert(ns + s * s == numi) by (nonlinear_arith)
            requires
                numi == ai * (s - ti) + ti * bi,
                ns == (ai - s) * (s - ti) + ti * (bi - s);
        lemma_hoist_over_denominator(ns, s, SCALE as nat);
        assert(ns / s + s == (ns + s * s) / s);
        assert(numi / s == ns / s + s);
        // upper bound: numi / s <= (2 s * s) / s == 2 s
        lemma_div_is_ordered(numi, 2 * s * s, s);
        assert((s * (2 * s)) / s == 2 * s) by { lemma_div_multiples_vanish(2 * s, s); }
        assert(s * (2 * s) == 2 * s * s) by (nonlinear_arith);
    }
    let num = a * (SCALE - t) + t * b;
    let q = num / SCALE;
    q
}

/// The corner dot product over offsets biased upward by `SCALE`: arguments
/// and result carry a `+SCALE` offset relative to [`grad_spec`].
fn grad_biased(h: u8, dxb: u64, dyb: u64) -> (r: u64)
    requires
        dxb <= 2 * SCALE,
        dyb <= 2 * SCALE,
    ensures
        r as int == grad_spec(h, dxb - SCALE, dyb - SCALE) + SCALE,
        r <= 2 * SCALE,
{
    let sel = h % 4;
    if sel == 0 {
        dyb
    } else if sel == 1 {
        2 * SCALE - dyb
    } else if sel == 2 {
        dxb
    } else {
        2 * SCALE - dxb
    }
}

/// Gradient noise biased upward by `SCALE`, so the result is a nonnegative
/// integer in `[0, 2 * SCALE]`.
pub(crate) fn noise_biased(x: i64, y: i64, table: &PermutationTable) -> (r: u64)
    requires
        table.wf(),
    ensures
        r as int == noise_spec(x as int, y as int, table@) + SCALE,
        r <= 2 * SCALE,
{
    let (xi, xf) = coord_split(x);
    let (yi, yf) = coord_split(y);
    let u = fade_fp(xf);
    let v = fade_fp(yf);
    let a = (table.get(xi) as usize + yi) % 256;
    let b = (table.get(xi + 1) as usize + yi) % 256;
    let ha = table.get(a);
    let hb = table.get(b);
    let ha1 = table.get(a + 1);
    let hb1 = table.get(b + 1);
    let g00 = grad_biased(ha, xf + SCALE, yf + SCALE);
    let g10 = grad_biased(hb, xf, yf + SCALE);
    let g01 = grad_biased(ha1, xf + SCALE, yf);
    let g11 = grad_biased(hb1, xf, yf);
    let l0 = lerp_biased(u, g00, g10);
    let l1 = lerp_biased(u, g01, g11);
    let r = lerp_biased(v, l0, l1);
    proof {
        let t = table@;
        let s = SCALE as int;
        let xii = (x as int / s) % 256;
        let yii = (y as int / s) % 256;
        let xff = (x as int) % s;
        let yff = (y as int) % s;
        assert(a as int == ((t[xii] as int) + yii) % 256);
        assert(b as int == ((t[xii + 1] as int) + yii) % 256);
        assert(l0 as int == lerp_spec(
            fade_spec(xff),
            grad_spec(t[a as int], xff, yff),
            grad_spec(t[b as int], xff - s, yff),
        ) + s);
        assert(l1 as int == lerp_spec(
            fade_spec(xff),
            grad_spec(t[a as int + 1], xff, yff - s),
            grad_spec(t[b as int + 1], xff - s, yff - s),
        ) + s);
        assert(r as int == noise_spec(x as int, y as int, t) + s);
    }
    r
}

/// Gradient noise at a fixed-point coordinate. The result carries the same
/// fixed-point denominator and always lies in `[-SCALE, SCALE]`, that is in
/// `[-1, 1]` as a real value.
pub fn noise_eval(x: i64, y: i64, table: &PermutationTable) -> (r: i64)
    requires
        table.wf(),
    ensures
        r == noise_spec(x as int, y as int, table@),
        -(SCALE as int) <= r <= SCALE as int,
{
    let b = noise_biased(x, y, table);
    b as i64 - SCALE as i64
}

} // verus!
