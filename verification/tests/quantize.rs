//! Codes, scales and layouts of a quantized query.

use nanoplaid_kernels::binary32::{greater, is_number, magnitude, positive, round_code};
use nanoplaid_kernels::{quantize_query_i8, row_magnitudes, QueryI8};

fn patterns(x: &[f32]) -> Vec<u32> {
    x.iter().map(|v| v.to_bits()).collect()
}

fn quantize(q: &[f32], dim: usize) -> QueryI8 {
    let magnitudes = row_magnitudes(&patterns(q), dim);
    let scales: Vec<f32> = magnitudes.iter().map(|&m| f32::from_bits(m) / 127.0).collect();
    let quotients: Vec<u32> = q
        .chunks_exact(dim)
        .zip(&scales)
        .flat_map(|(row, &s)| row.iter().map(move |&x| (x / s).to_bits()))
        .collect();
    quantize_query_i8(&magnitudes, &patterns(&scales), &quotients, dim)
}

/// What the hardware makes of a quotient.
fn hardware_code(x: f32) -> i8 {
    x.round_ties_even().clamp(-127.0, 127.0) as i8
}

#[test]
fn codes_round_half_to_even() {
    for (x, code) in [
        (0.5, 0),
        (1.5, 2),
        (2.5, 2),
        (-0.5, 0),
        (-1.5, -2),
        (-2.5, -2),
        (0.49999997, 0),
        (0.50000006, 1),
        (126.5, 126),
        (125.5, 126),
        (126.50001, 127),
        (127.0, 127),
        (127.5, 127),
        (300.0, 127),
        (-300.0, -127),
        (0.0, 0),
        (-0.0, 0),
        (1e-40, 0),
        (f32::INFINITY, 127),
        (f32::NEG_INFINITY, -127),
        (f32::NAN, 0),
    ] {
        assert_eq!(round_code((x as f32).to_bits()), code, "{x}");
        assert_eq!(hardware_code(x), code, "{x}");
    }
}

#[test]
fn codes_match_the_hardware() {
    // Every exponent with fractions near its ends and middle, both signs.
    for e in 0u32..256 {
        for f in [0u32, 1, 2, 0x3f_ffff, 0x40_0000, 0x40_0001, 0x55_5555, 0x7f_fffe, 0x7f_ffff] {
            for s in [0u32, 0x8000_0000] {
                let b = s | (e << 23) | f;
                let x = f32::from_bits(b);
                assert_eq!(round_code(b), hardware_code(x), "{b:#x}");
                assert_eq!(positive(b), x > 0.0, "{b:#x}");
                assert_eq!(is_number(b), !x.is_nan(), "{b:#x}");
                assert_eq!(magnitude(b), x.abs().to_bits(), "{b:#x}");
            }
        }
    }
    // Quarter steps through the whole range of codes.
    for k in -600i32..=600 {
        let x = k as f32 / 4.0;
        assert_eq!(round_code(x.to_bits()), hardware_code(x), "{x}");
    }
}

#[test]
fn order_matches_the_hardware() {
    let some = [
        0.0f32,
        -0.0,
        1.0,
        -1.0,
        1.0000001,
        -1.0000001,
        1e-45,
        -1e-45,
        3.4e38,
        -3.4e38,
        f32::INFINITY,
        f32::NEG_INFINITY,
        f32::NAN,
    ];
    for &a in &some {
        for &b in &some {
            assert_eq!(greater(a.to_bits(), b.to_bits()), a > b, "{a} > {b}");
        }
    }
}

#[test]
fn codes_are_odd_and_monotone() {
    let mut last = -127i8;
    for k in -1300i32..=1300 {
        let b = (k as f32 / 10.0).to_bits();
        let code = round_code(b);
        assert!(code >= last);
        last = code;
        assert_eq!(round_code(b ^ 0x8000_0000), -code);
    }
    assert_eq!(last, 127);
}

#[test]
fn magnitudes_skip_what_is_not_a_number() {
    let q = patterns(&[
        1.0, -3.5, 2.0, 0.0, 0.0, 0.0, 0.0, 0.25, // -3.5 is the largest in size
        f32::NAN, -0.5, 0.0, 0.0, 0.0, 0.0, 0.0, 0.0, // NaN does not count
        f32::NAN, 0.0, -0.0, 0.0, 0.0, 0.0, 0.0, 0.0, // nothing above zero
    ]);
    assert_eq!(row_magnitudes(&q, 8), patterns(&[3.5, 0.5, 0.0]));
}

#[test]
fn a_row_of_zeros_has_zero_codes_and_scale() {
    let mut q = vec![0.0f32; 16];
    q[8] = 2.54;
    q[9] = -1.27;
    let q = quantize(&q, 8);
    assert_eq!(&q.values[..8], &[0i8; 8]);
    assert_eq!(&q.values[8..], &[127i8, -64, 0, 0, 0, 0, 0, 0]);
    assert_eq!(q.scales[0], 0);
    assert_eq!(f32::from_bits(q.scales[1]), 2.54 / 127.0);
    assert_eq!(q.sums, vec![0, 63]);
}

#[test]
fn layouts_hold_the_codes() {
    let nq = 3;
    let x: Vec<f32> = (0..nq * 128).map(|i| ((i * 37 % 255) as f32 - 127.0) / 50.0).collect();
    let q = quantize(&x, 128);
    assert_eq!(q.planes.len(), nq * 128);
    assert_eq!(q.planes_smmla.len(), 2 * 256);
    for qi in 0..nq {
        let row = &q.values[qi * 128..(qi + 1) * 128];
        assert_eq!(q.sums[qi], row.iter().map(|&v| v as i32).sum::<i32>());
        for p in 0..8 {
            for k in 0..16 {
                assert_eq!(q.planes[qi * 128 + p * 16 + k], row[k * 8 + p]);
            }
        }
        for g in 0..2 {
            for k in 0..32 {
                let at = qi * 128 + g * 64 + k;
                assert_eq!(q.perm4[at], row[g * 64 + 2 * k]);
                assert_eq!(q.perm4[at + 32], row[g * 64 + 2 * k + 1]);
            }
        }
    }
    for p in 0..2usize {
        let (a, b) = (2 * p, (2 * p + 1).min(nq - 1));
        for i in 0..16 {
            for j in 0..8 {
                let at = p * 256 + i * 16 + j;
                assert_eq!(q.planes_smmla[at], q.planes[a * 128 + i * 8 + j]);
                assert_eq!(q.planes_smmla[at + 8], q.planes[b * 128 + i * 8 + j]);
            }
        }
    }
    for i in 0..nq * 128 {
        assert_eq!(q.biased[i] as i32, q.values[i] as i32 + 128);
        assert_eq!(q.biased[i], (q.values[i] as u8) ^ 0x80);
        assert_eq!(q.absq4[i], q.perm4[i].unsigned_abs());
    }
}

#[test]
fn other_dimensions_have_no_fused_layouts() {
    let q = quantize(&[0.5f32; 64], 32);
    assert!(q.planes.is_empty() && q.planes_smmla.is_empty());
    assert!(q.perm4.is_empty() && q.absq4.is_empty());
    assert_eq!(q.biased, vec![255u8; 64]);
    assert_eq!(q.values, vec![127i8; 64]);
    assert_eq!(q.sums, vec![127 * 32; 2]);
}
