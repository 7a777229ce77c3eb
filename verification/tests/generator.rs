use noise_field::fbm::fractal_brownian_motion;
use noise_field::noise::{noise_eval, SCALE};
use noise_field::render::{generate_noise, intensity_of, pixel_for_intensity, wrap_add8};
use noise_field::table::PermutationTable;

const S: i64 = SCALE as i64;

fn table_bytes(t: &PermutationTable) -> Vec<u8> {
    let mut out = Vec::new();
    let mut i: usize = 0;
    while i < 257 {
        out.push(t.get(i));
        i += 1;
    }
    out
}

#[test]
fn build_is_deterministic() {
    let a = PermutationTable::build(0xDEAD_BEEF_u64);
    let b = PermutationTable::build(0xDEAD_BEEF_u64);
    assert_eq!(table_bytes(&a), table_bytes(&b));
}

#[test]
fn build_is_a_permutation() {
    for seed in [0u64, 1, 42, u64::MAX, 123_456_789] {
        let t = PermutationTable::build(seed);
        let mut counts = [0u32; 256];
        for i in 0..256 {
            counts[t.get(i) as usize] += 1;
        }
        for v in 0..256 {
            assert_eq!(counts[v], 1);
        }
        assert_eq!(t.get(256), t.get(0));
    }
}

#[test]
fn noise_stays_in_unit_range() {
    let t = PermutationTable::build(7);
    let mut c: i64 = -5 * S - 12_345;
    while c < 300 * S {
        let n = noise_eval(c, 3 * c + 991, &t);
        assert!(-S <= n && n <= S);
        c += 7 * S / 3 + 41;
    }
}

#[test]
fn noise_is_smooth_across_cell_boundaries() {
    for seed in [0u64, 1, 42, 999_999] {
        let t = PermutationTable::build(seed);
        for c in -3i64..260 {
            for &w in &[0i64, 5 * S + 123, -7 * S + 999, 131 * S + 40_000] {
                let dx = noise_eval(c * S, w, &t) - noise_eval(c * S - 1, w, &t);
                let dy = noise_eval(w, c * S, &t) - noise_eval(w, c * S - 1, &t);
                assert!(dx.abs() <= 4);
                assert!(dy.abs() <= 4);
            }
        }
    }
}

#[test]
fn single_octave_is_one_noise_call() {
    let t = PermutationTable::build(9);
    for &(x, y) in &[(0i64, 0i64), (3 * S, 5 * S), (123_400, 777_000), (251 * S, 17)] {
        let f = fractal_brownian_motion(x, y, 1, &t);
        let n = noise_eval(x / 200, y / 200, &t);
        assert_eq!(f, n);
    }
}

#[test]
fn zero_octaves_yield_zero_field() {
    let t = PermutationTable::build(31);
    assert_eq!(fractal_brownian_motion(5 * S, 9 * S, 0, &t), 0);
}

#[test]
fn fbm_value_matches_reference() {
    let t = PermutationTable::build(9);
    assert_eq!(fractal_brownian_motion(3 * S, 5 * S, 1, &t), -20_478);
    let t7 = PermutationTable::build(7);
    assert_eq!(noise_eval(123_456, 789_012, &t7), 10_988);
}

#[test]
fn render_is_deterministic() {
    let a = generate_noise(3, 3, 2, 7);
    let b = generate_noise(3, 3, 2, 7);
    assert_eq!(a, b);
}

#[test]
fn empty_dimensions_yield_empty_buffer() {
    assert_eq!(generate_noise(0, 5, 3, 11).len(), 0);
    assert_eq!(generate_noise(5, 0, 3, 11).len(), 0);
    assert_eq!(generate_noise(0, 0, 0, 0).len(), 0);
}

#[test]
fn buffer_length_is_four_bytes_per_pixel() {
    assert_eq!(generate_noise(7, 5, 2, 3).len(), 7 * 5 * 4);
    assert_eq!(generate_noise(1, 1, 8, 3).len(), 4);
}

#[test]
fn golden_four_by_four_seed_42() {
    let expected: Vec<u8> = vec![
        188, 128, 44, 255, 187, 127, 44, 255, 186, 126, 44, 255, 186, 126, 44, 255,
        187, 127, 44, 255, 187, 127, 44, 255, 186, 126, 44, 255, 186, 126, 44, 255,
        187, 127, 44, 255, 187, 127, 44, 255, 186, 126, 44, 255, 186, 126, 44, 255,
        187, 127, 44, 255, 187, 127, 44, 255, 186, 126, 44, 255, 186, 126, 44, 255,
    ];
    assert_eq!(generate_noise(4, 4, 1, 42), expected);
}

#[test]
fn intensity_maps_field_values() {
    assert_eq!(intensity_of(0), 128);
    assert_eq!(intensity_of(S), 255);
    assert_eq!(intensity_of(-S), 0);
    assert_eq!(intensity_of(2 * S), 255);
    assert_eq!(intensity_of(-2 * S), 0);
    assert_eq!(intensity_of(i64::MAX), 255);
    assert_eq!(intensity_of(i64::MIN), 0);
}

#[test]
fn band_formulas_at_the_thresholds() {
    assert_eq!(pixel_for_intensity(0), vec![67, 65, 155, 255]);
    assert_eq!(pixel_for_intensity(100), vec![67, 165, 255, 255]);
    assert_eq!(pixel_for_intensity(101), vec![161, 101, 44, 255]);
    assert_eq!(pixel_for_intensity(140), vec![200, 140, 44, 255]);
    assert_eq!(pixel_for_intensity(141), vec![92, 186, 36, 255]);
    assert_eq!(pixel_for_intensity(210), vec![92, 255, 36, 255]);
    assert_eq!(pixel_for_intensity(211), vec![244, 249, 255, 255]);
    assert_eq!(pixel_for_intensity(255), vec![244, 249, 255, 255]);
}

#[test]
fn every_intensity_falls_in_exactly_one_band() {
    for i in 0..=255u16 {
        let i = i as u8;
        let b0 = i <= 100;
        let b1 = (101..=140).contains(&i);
        let b2 = (141..=210).contains(&i);
        let b3 = i >= 211;
        let hits = b0 as u8 + b1 as u8 + b2 as u8 + b3 as u8;
        assert_eq!(hits, 1);
        let p = pixel_for_intensity(i);
        assert_eq!(p.len(), 4);
        assert_eq!(p[3], 255);
        let expected = if b0 {
            vec![67, i.wrapping_add(65), i.wrapping_add(155), 255]
        } else if b1 {
            vec![i.wrapping_add(60), i, 44, 255]
        } else if b2 {
            vec![92, i.wrapping_add(45), 36, 255]
        } else {
            vec![244, 249, 255, 255]
        };
        assert_eq!(p, expected);
    }
}

#[test]
fn channel_sums_wrap_modulo_256() {
    assert_eq!(wrap_add8(200, 100), 44);
    assert_eq!(wrap_add8(101, 155), 0);
    assert_eq!(wrap_add8(255, 255), 254);
    assert_eq!(wrap_add8(0, 255), 255);
}
