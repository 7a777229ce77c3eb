//! Fractal Brownian motion: octaves of gradient noise summed with halving
//! amplitude and doubling frequency.
//!
//! Octave `k` samples the noise at the input coordinate scaled by the
//! frequency `2^k / 200` and weights it by an amplitude that starts at one
//! and halves each octave. The base frequency of one two-hundredth and the
//! per-octave factors are design constants of the generator. Because the
//! noise field repeats every 256 lattice cells, coordinates are reduced
//! modulo [`FREQ_SPAN`] before scaling, which keeps every octave exact for
//! any octave count without overflowing.

use vstd::prelude::*;

verus! {

use crate::noise::{
    noise_spec, noise_biased, emod, lemma_noise_mod_cell, lemma_mod_div_split, SCALE, CELL_SPAN,
};
use crate::table::PermutationTable;
use vstd::arithmetic::power2::{pow2, lemma_pow2_unfold, lemma2_to64};
use vstd::arithmetic::div_mod::{
    lemma_fundamental_div_mod, lemma_mod_bound, lemma_div_is_ordered, lemma_div_pos_is_pos,
    lemma_div_multiples_vanish, lemma_hoist_over_denominator, lemma_mul_mod_noop_right,
};
use vstd::arithmetic::mul::lemma_mul_is_distributive_add;

/// Modulus for frequency-scaled coordinates: `200 * CELL_SPAN`. Reducing a
/// coordinate by it leaves every octave's noise lookup unchanged, because
/// after the division by 200 the noise field repeats every `CELL_SPAN`.
pub const FREQ_SPAN: u64 = 41943040000;

/// Amplitude of octave `k` in fixed-point units: one, halved `k` times.
pub open spec fn amp_spec(k: nat) -> int
    decreases k,
{
    if k == 0 {
        SCALE as int
    } else {
        amp_spec((k - 1) as nat) / 2
    }
}

/// The coordinate fed to octave `k`: the input scaled by frequency
/// `2^k / 200`.
pub open spec fn octave_coord(c: int, k: nat) -> int {
    (c * pow2(k)) / 200
}

/// The fractal sum of the first `o` octaves at fixed-point coordinate
/// `(x, y)`: octave `k` adds the noise at its frequency-scaled coordinate,
/// weighted by its amplitude.
pub open spec fn fbm_spec(x: int, y: int, t: Seq<u8>, o: nat) -> int
    decreases o,
{
    if o == 0 {
        0
    } else {
        let k = (o - 1) as nat;
        fbm_spec(x, y, t, k) + (amp_spec(k) * noise_spec(
            octave_coord(x, k),
            octave_coord(y, k),
            t,
        )) / (SCALE as int)
    }
}

/// With a single octave the sum is exactly one noise evaluation at the base
/// frequency with full amplitude.
pub proof fn lemma_single_octave(x: int, y: int, t: Seq<u8>)
    ensures
        fbm_spec(x, y, t, 1) == noise_spec(x / 200, y / 200, t),
{
    lemma2_to64();
    assert(pow2(0) == 1);
    assert(x * pow2(0) == x) by (nonlinear_arith)
        requires pow2(0) == 1;
    assert(y * pow2(0) == y) by (nonlinear_arith)
        requires pow2(0) == 1;
    let n = noise_spec(x / 200, y / 200, t);
    assert(((SCALE as int) * n) / (SCALE as int) == n) by {
        lemma_div_multiples_vanish(n, SCALE as int);
    }
    assert(amp_spec(0) == SCALE as int);
    assert(fbm_spec(x, y, t, 0) == 0);
    assert(octave_coord(x, 0) == x / 200);
    assert(octave_coord(y, 0) == y / 200);
    assert(fbm_spec(x, y, t, 1) == ((SCALE as int) * n) / (SCALE as int));
}

/// The fractal sum over fixed-point coordinates. The result carries the
/// fixed-point denominator [`SCALE`] and is bounded by twice the unit
/// amplitude, since the amplitudes sum to less than two.
pub fn fractal_brownian_motion(x: i64, y: i64, n_octaves: usize, table: &PermutationTable) -> (r:
    i64)
    requires
        table.wf(),
    ensures
        r == fbm_spec(x as int, y as int, table@, n_octaves as nat),
        -2 * (SCALE as int) <= r <= 2 * (SCALE as int),
{
    let mut acc: i64 = 0;
    let mut amp: u64 = SCALE;
    let mut xm: u64 = emod(x, FREQ_SPAN);
    let mut ym: u64 = emod(y, FREQ_SPAN);
    let mut k: usize = 0;
    proof {
        lemma2_to64();
        assert(pow2(0) == 1);
        assert((x as int) * pow2(0) == x as int) by (nonlinear_arith)
            requires pow2(0) == 1;
        assert((y as int) * pow2(0) == y as int) by (nonlinear_arith)
            requires pow2(0) == 1;
    }
    while k < n_octaves
        invariant
            table.wf(),
            k <= n_octaves,
            acc == fbm_spec(x as int, y as int, table@, k as nat),
            amp as int == amp_spec(k as nat),
            amp <= SCALE,
            xm as int == ((x as int) * pow2(k as nat)) % (FREQ_SPAN as int),
            ym as int == ((y as int) * pow2(k as nat)) % (FREQ_SPAN as int),
            xm < FREQ_SPAN,
            ym < FREQ_SPAN,
            -2 * (SCALE as int) + 2 * (amp as int) <= acc <= 2 * (SCALE as int) - 2 * (amp as int),
        decreases n_octaves - k,
    {
        let ghost t = table@;
        let ghost cx = (x as int) * pow2(k as nat);
        let ghost cy = (y as int) * pow2(k as nat);
        let ax = xm / 200;
        let ay = ym / 200;
        proof {
            assert(FREQ_SPAN as int == 200 * (CELL_SPAN as int));
            lemma_mod_div_split(cx, 200, CELL_SPAN as int);
            lemma_mod_div_split(cy, 200, CELL_SPAN as int);
            assert(ax as int == (cx / 200) % (CELL_SPAN as int));
            assert(ay as int == (cy / 200) % (CELL_SPAN as int));
            lemma_noise_mod_cell(cx / 200, cy / 200, t);
            assert(noise_spec(ax as int, ay as int, t)
                == noise_spec(octave_coord(x as int, k as nat), octave_coord(y as int, k as nat), t));
        }
        let pb = noise_biased(ax as i64, ay as i64, table);
        proof {
            assert((amp as int) * (pb as int) <= 819200 * 1638400) by (nonlinear_arith)
                requires amp <= 819200, pb <= 1638400;
        }
        let cb = amp * pb / SCALE;
        proof {
            let s = SCALE as int;
            let ampi = amp as int;
            let n = noise_spec(octave_coord(x as int, k as nat), octave_coord(y as int, k as nat), t);
            assert(pb as int == n + s);
            assert(ampi * (pb as int) == ampi * n + ampi * s) by {
                lemma_mul_is_distributive_add(ampi, n, s);
            }
            assert((ampi * n + ampi * s) / s == ampi * n / s + ampi) by {
                lemma_hoist_over_denominator(ampi * n, ampi, SCALE as nat);
            }
            assert(cb as int == ampi * n / s + ampi);
            // 0 <= cb <= 2 * amp
            assert(ampi * (pb as int) <= s * (2 * ampi)) by (nonlinear_arith)
                requires 0 <= ampi, pb <= 2 * s;
            lemma_div_is_ordered(ampi * (pb as int), s * (2 * ampi), s);
            assert((s * (2 * ampi)) / s == 2 * ampi) by {
                lemma_div_multiples_vanish(2 * ampi, s);
            }
            lemma_div_pos_is_pos(ampi * (pb as int), s);
            assert(ampi * (pb as int) >= 0) by (nonlinear_arith)
                requires 0 <= ampi, 0 <= pb;
        }
        acc = acc + (cb as i64 - amp as i64);
        proof {
            assert(fbm_spec(x as int, y as int, t, (k + 1) as nat)
                == fbm_spec(x as int, y as int, t, k as nat) + (amp_spec(k as nat) * noise_spec(
                    octave_coord(x as int, k as nat),
                    octave_coord(y as int, k as nat),
                    t,
                )) / (SCALE as int));
        }
        let ghost amp_old = amp as int;
        amp = amp / 2;
        proof {
            lemma_fundamental_div_mod(amp_old, 2);
            lemma_mod_bound(amp_old, 2);
            assert(2 * (amp as int) <= amp_old);
            assert(amp_spec((k + 1) as nat) == amp_spec(k as nat) / 2);
        }
        let ghost xm_old = xm as int;
        let ghost ym_old = ym as int;
        xm = (2 * xm) % FREQ_SPAN;
        ym = (2 * ym) % FREQ_SPAN;
        proof {
            let f = FREQ_SPAN as int;
            lemma_pow2_unfold((k + 1) as nat);
            assert((x as int) * pow2((k + 1) as nat) == 2 * cx) by (nonlinear_arith)
                requires
                    pow2((k + 1) as nat) == 2 * pow2(k as nat),
                    cx == (x as int) * pow2(k as nat);
            assert((y as int) * pow2((k + 1) as nat) == 2 * cy) by (nonlinear_arith)
                requires
                    pow2((k + 1) as nat) == 2 * pow2(k as nat),
                    cy == (y as int) * pow2(k as nat);
            assert((2 * (cx % f)) % f == (2 * cx) % f) by {
                lemma_mul_mod_noop_right(2, cx, f);
            }
            assert((2 * (cy % f)) % f == (2 * cy) % f) by {
                lemma_mul_mod_noop_right(2, cy, f);
            }
            lemma_mod_bound(2 * xm_old, f);
            lemma_mod_bound(2 * ym_old, f);
        }
        k = k + 1;
    }
    acc
}

} // verus!
