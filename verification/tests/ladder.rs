//! The kernels against each other and against floating-point references.

use nanoplaid_kernels::neon::{maxsim_neon128, maxsim_r4_neon128, maxsim_smmla128};
use nanoplaid_kernels::x86::{maxsim_avx2_sad128, maxsim_r4_avx2_128};
use nanoplaid_kernels::{
    best_scores, binarize, maxsim, maxsim_autovec, maxsim_avx2, maxsim_r4, maxsim_r4_fused,
    maxsim_r4_scalar, maxsim_scalar, maxsim_sdot, maxsim_smmla, quantize_query_i8, row_magnitudes,
    signs_pm1, CpuFeatures, LutI8, QueryI8, ResidualTerms,
};

const NONE: CpuFeatures = CpuFeatures {
    dotprod: false,
    i8mm: false,
    avx2: false,
};
const ARM: CpuFeatures = CpuFeatures {
    dotprod: true,
    i8mm: true,
    avx2: false,
};
const X86: CpuFeatures = CpuFeatures {
    dotprod: false,
    i8mm: false,
    avx2: true,
};

/// Deterministic xorshift.
fn randf(state: &mut u64) -> f32 {
    *state ^= *state << 13;
    *state ^= *state >> 7;
    *state ^= *state << 17;
    (*state >> 40) as f32 / (1u64 << 24) as f32 - 0.5
}

fn patterns(x: &[f32]) -> Vec<u32> {
    x.iter().map(|v| v.to_bits()).collect()
}

/// Quantizes a float query: the divisions here, the rest in the library.
fn quantize(q: &[f32], dim: usize) -> QueryI8 {
    let magnitudes = row_magnitudes(&patterns(q), dim);
    let scales: Vec<f32> = magnitudes.iter().map(|&m| f32::from_bits(m) / 127.0).collect();
    let quotients: Vec<u32> = q
        .chunks_exact(dim)
        .zip(&scales)
        .flat_map(|(row, &s)| row.iter().map(move |&x| (x / s).to_bits()))
        .collect();
    quantize_query_i8(&magnitudes, &patterns(&scales), &quotients, dim)
}

fn scales(q: &QueryI8) -> Vec<f32> {
    q.scales.iter().map(|&s| f32::from_bits(s)).collect()
}

/// The score of a binary document from the best dot product of each row.
fn total(q: &QueryI8, best: &[i32]) -> f32 {
    let mut total = 0.0f32;
    for (&b, s) in best.iter().zip(scales(q)) {
        total += b as f32 * s;
    }
    total
}

/// The score of a residual document from its terms.
fn total_r4(q: &QueryI8, terms: &ResidualTerms) -> f32 {
    let scale = f32::from_bits(terms.lut_scale);
    let sqw: Vec<f32> = scales(q).iter().map(|&s| s * scale).collect();
    let scores: Vec<u32> = terms
        .dots
        .iter()
        .zip(&terms.centroid)
        .enumerate()
        .map(|(i, (&acc, &c))| (sqw[i % terms.nq] * acc as f32 + f32::from_bits(c)).to_bits())
        .collect();
    let mut total = 0.0f32;
    for b in best_scores(&scores, terms.nq) {
        total += f32::from_bits(b);
    }
    total
}

fn maxsim_f32(q: &[f32], d: &[f32], dim: usize) -> f32 {
    let mut total = 0.0f32;
    for qrow in q.chunks_exact(dim) {
        let mut best = f32::NEG_INFINITY;
        for drow in d.chunks_exact(dim) {
            let dot: f32 = qrow.iter().zip(drow).map(|(a, b)| a * b).sum();
            best = best.max(dot);
        }
        total += best;
    }
    total
}

fn setup(nq: usize, nd: usize, dim: usize, seed: u64) -> (QueryI8, Vec<u8>) {
    let mut s = seed;
    let q: Vec<f32> = (0..nq * dim).map(|_| randf(&mut s)).collect();
    let d: Vec<f32> = (0..nd * dim).map(|_| randf(&mut s)).collect();
    (quantize(&q, dim), binarize(&patterns(&d), dim))
}

fn setup_r4(
    nq: usize,
    nd: usize,
    dim: usize,
    n_cent: usize,
    seed: u64,
) -> (QueryI8, LutI8, Vec<u8>, Vec<u32>, Vec<u32>) {
    let mut s = seed;
    let q: Vec<f32> = (0..nq * dim).map(|_| randf(&mut s)).collect();
    let mut values = [0i8; 16];
    for v in values.iter_mut() {
        *v = (randf(&mut s) * 254.0) as i8;
    }
    let lut = LutI8 {
        values,
        scale: 0.0031f32.to_bits(),
    };
    let codes: Vec<u8> = (0..nd * dim / 2)
        .map(|_| ((randf(&mut s) + 0.5) * 255.99) as u8)
        .collect();
    let cids: Vec<u32> = (0..nd)
        .map(|_| ((randf(&mut s) + 0.5) * (n_cent as f32 - 0.01)) as u32)
        .collect();
    let cdot_t: Vec<f32> = (0..n_cent * nq).map(|_| randf(&mut s) * 4.0).collect();
    (quantize(&q, dim), lut, codes, cids, patterns(&cdot_t))
}

#[test]
fn all_rungs_agree_exactly() {
    // Shapes that leave tails: nd % 4 != 0, odd nq, odd nd.
    for &(nq, nd, dim) in &[(32, 80, 128), (7, 3, 128), (1, 1, 128), (5, 9, 64)] {
        let (q, bits) = setup(nq, nd, dim, 42 + nd as u64);
        let a = total(&q, &maxsim_scalar(&q, &bits, dim));
        assert_eq!(
            a,
            total(&q, &maxsim_autovec(&q, &bits, dim)),
            "autovec ({nq},{nd},{dim})"
        );
        for cpu in [NONE, ARM, X86] {
            assert_eq!(
                a,
                total(&q, &maxsim(&q, &bits, dim, cpu)),
                "dispatched ({nq},{nd},{dim})"
            );
            if let Some(v) = maxsim_sdot(&q, &bits, dim, cpu) {
                assert_eq!(a, total(&q, &v), "sdot ({nq},{nd},{dim})");
            }
            if let Some(v) = maxsim_smmla(&q, &bits, dim, cpu) {
                assert_eq!(a, total(&q, &v), "smmla ({nq},{nd},{dim})");
            }
            if let Some(v) = maxsim_avx2(&q, &bits, dim, cpu) {
                assert_eq!(a, total(&q, &v), "avx2 ({nq},{nd},{dim})");
            }
        }
    }
}

#[test]
fn residual_rungs_agree_exactly() {
    for &(nq, nd) in &[(32, 80), (7, 3), (1, 1)] {
        let (q, lut, codes, cids, cdot_t) = setup_r4(nq, nd, 128, 16, 99 + nd as u64);
        let a = total_r4(&q, &maxsim_r4_scalar(&q, &lut, &codes, &cids, &cdot_t));
        for cpu in [NONE, ARM, X86] {
            assert_eq!(
                a,
                total_r4(&q, &maxsim_r4(&q, &lut, &codes, &cids, &cdot_t, cpu)),
                "dispatched ({nq},{nd})"
            );
            if let Some(v) = maxsim_r4_fused(&q, &lut, &codes, &cids, &cdot_t, cpu) {
                assert_eq!(a, total_r4(&q, &v), "fused ({nq},{nd})");
            }
        }
    }
    // Other dimensions fall back to the reference.
    let (q, lut, codes, cids, cdot_t) = setup_r4(3, 5, 64, 8, 7);
    for cpu in [NONE, ARM, X86] {
        assert!(maxsim_r4_fused(&q, &lut, &codes, &cids, &cdot_t, cpu).is_none());
        assert_eq!(
            total_r4(&q, &maxsim_r4(&q, &lut, &codes, &cids, &cdot_t, cpu)),
            total_r4(&q, &maxsim_r4_scalar(&q, &lut, &codes, &cids, &cdot_t))
        );
    }
}

#[test]
fn residual_identity_matches_float_reference() {
    // Everything dequantized and scored by a plain float loop.
    let (nq, nd, dim, k) = (8, 20, 128, 16);
    let (q8, lut, codes, cids, cdot_t) = setup_r4(nq, nd, dim, k, 5);
    let scale = f32::from_bits(lut.scale);
    let row_scales = scales(&q8);
    for cpu in [NONE, ARM, X86] {
        let fast = total_r4(&q8, &maxsim_r4(&q8, &lut, &codes, &cids, &cdot_t, cpu));
        let mut reference = 0.0f64;
        for qi in 0..nq {
            let mut best = f64::NEG_INFINITY;
            for (d, &cid) in cids.iter().enumerate() {
                let mut dot = 0.0f64;
                for j in 0..dim / 2 {
                    let b = codes[d * dim / 2 + j];
                    let qe = q8.values[qi * dim + 2 * j] as f64 * row_scales[qi] as f64;
                    let qo = q8.values[qi * dim + 2 * j + 1] as f64 * row_scales[qi] as f64;
                    dot += qe * (lut.values[(b >> 4) as usize] as f64 * scale as f64);
                    dot += qo * (lut.values[(b & 15) as usize] as f64 * scale as f64);
                }
                let s = dot + f32::from_bits(cdot_t[cid as usize * nq + qi]) as f64;
                if s > best {
                    best = s;
                }
            }
            reference += best;
        }
        assert!(
            (reference as f32 - fast).abs() < 1e-2,
            "{reference} vs {fast}"
        );
    }
}

#[test]
fn identity_matches_float_reference() {
    // 2P - T over signs is the float dot product with dequantized codes.
    let (q, bits) = setup(16, 40, 128, 7);
    let d_pm1: Vec<f32> = signs_pm1(&bits, 128).iter().map(|&s| s as f32).collect();
    let qf: Vec<f32> = q
        .values
        .chunks_exact(128)
        .zip(scales(&q))
        .flat_map(|(row, s)| row.iter().map(move |&v| v as f32 * s))
        .collect();
    let reference = maxsim_f32(&qf, &d_pm1, 128);
    for cpu in [NONE, ARM, X86] {
        let fast = total(&q, &maxsim(&q, &bits, 128, cpu));
        assert!((reference - fast).abs() < 1e-2, "{reference} vs {fast}");
    }
}

#[test]
fn every_binary_kernel_gives_the_same_rows() {
    for &(nq, nd) in &[(1, 1), (2, 2), (3, 5), (4, 4), (5, 6), (8, 7)] {
        let (q, bits) = setup(nq, nd, 128, 1000 + (nq * 10 + nd) as u64);
        let a = maxsim_scalar(&q, &bits, 128);
        assert_eq!(a.len(), nq);
        assert_eq!(a, maxsim_autovec(&q, &bits, 128));
        assert_eq!(a, maxsim_neon128(&q, &bits));
        assert_eq!(a, maxsim_smmla128(&q, &bits));
        assert_eq!(a, maxsim_avx2_sad128(&q, &bits));
        // Each row's best is the maximum of the plain signed dot products.
        let signs = signs_pm1(&bits, 128);
        for qi in 0..nq {
            let mut best = i32::MIN;
            for d in 0..nd {
                let dot: i32 = (0..128)
                    .map(|k| q.values[qi * 128 + k] as i32 * signs[d * 128 + k] as i32)
                    .sum();
                best = best.max(dot);
            }
            assert_eq!(a[qi], best);
        }
    }
}

#[test]
fn every_residual_kernel_gives_the_same_terms() {
    for &(nq, nd) in &[(1, 1), (2, 3), (5, 4)] {
        let (q, lut, codes, cids, cdot_t) = setup_r4(nq, nd, 128, 6, 300 + nd as u64);
        let a = maxsim_r4_scalar(&q, &lut, &codes, &cids, &cdot_t);
        let b = maxsim_r4_neon128(&q, &lut, &codes, &cids, &cdot_t);
        let c = maxsim_r4_avx2_128(&q, &lut, &codes, &cids, &cdot_t);
        assert_eq!(a.nq, nq);
        assert_eq!(a.dots.len(), nq * nd);
        for t in [&a, &b, &c] {
            assert_eq!(t.lut_scale, lut.scale);
        }
        assert_eq!((&a.dots, &a.centroid), (&b.dots, &b.centroid));
        assert_eq!((&a.dots, &a.centroid), (&c.dots, &c.centroid));
        for d in 0..nd {
            for qi in 0..nq {
                assert_eq!(
                    a.centroid[d * nq + qi],
                    cdot_t[cids[d] as usize * nq + qi]
                );
            }
        }
    }
}

#[test]
fn an_empty_document_scores_the_least_integer() {
    let (q, _) = setup(3, 1, 128, 11);
    for best in [
        maxsim_scalar(&q, &[], 128),
        maxsim_autovec(&q, &[], 128),
        maxsim_neon128(&q, &[]),
        maxsim_smmla128(&q, &[]),
        maxsim_avx2_sad128(&q, &[]),
        maxsim(&q, &[], 128, ARM),
    ] {
        assert_eq!(best, vec![i32::MIN; 3]);
    }
}

#[test]
fn bytes_past_the_last_whole_token_are_ignored() {
    let (q, bits) = setup(3, 3, 128, 12);
    let whole = &bits[..32];
    let ragged = &bits[..45];
    assert_eq!(maxsim_scalar(&q, whole, 128), maxsim_scalar(&q, ragged, 128));
    assert_eq!(maxsim_autovec(&q, whole, 128), maxsim_autovec(&q, ragged, 128));
    assert_eq!(maxsim_neon128(&q, whole), maxsim_neon128(&q, ragged));
    assert_eq!(maxsim_smmla128(&q, whole), maxsim_smmla128(&q, ragged));
    assert_eq!(maxsim_avx2_sad128(&q, whole), maxsim_avx2_sad128(&q, ragged));
}

#[test]
fn fused_kernels_need_their_feature_and_128_dimensions() {
    let (q, bits) = setup(2, 2, 128, 13);
    assert!(maxsim_sdot(&q, &bits, 128, ARM).is_some());
    assert!(maxsim_sdot(&q, &bits, 128, X86).is_none());
    assert!(maxsim_smmla(&q, &bits, 128, ARM).is_some());
    assert!(maxsim_smmla(&q, &bits, 128, NONE).is_none());
    assert!(maxsim_avx2(&q, &bits, 128, X86).is_some());
    assert!(maxsim_avx2(&q, &bits, 128, ARM).is_none());
    let (q, bits) = setup(2, 2, 64, 13);
    for cpu in [NONE, ARM, X86] {
        assert!(maxsim_sdot(&q, &bits, 64, cpu).is_none());
        assert!(maxsim_smmla(&q, &bits, 64, cpu).is_none());
        assert!(maxsim_avx2(&q, &bits, 64, cpu).is_none());
    }
}

#[test]
fn joined_documents_score_the_better_of_the_two() {
    let (q, bits) = setup(4, 9, 128, 14);
    let (a, b) = bits.split_at(4 * 16);
    let joined = maxsim_scalar(&q, &bits, 128);
    let first = maxsim_scalar(&q, a, 128);
    let second = maxsim_scalar(&q, b, 128);
    let mut turned = b.to_vec();
    turned.extend_from_slice(a);
    for qi in 0..4 {
        assert_eq!(joined[qi], first[qi].max(second[qi]));
    }
    assert_eq!(joined, maxsim_scalar(&q, &turned, 128));
    // A repeated token changes nothing.
    let mut repeated = bits.clone();
    repeated.extend_from_slice(&bits[32..48]);
    assert_eq!(joined, maxsim_scalar(&q, &repeated, 128));
}

#[test]
fn a_small_document_by_hand() {
    // Codes 127, -127, 64 (64/127 of the magnitude), 0 and so on.
    let q = quantize(&[1.27, -1.27, 0.64, 0.0, 0.0, 0.0, 0.0, 0.1], 8);
    assert_eq!(q.values, vec![127, -127, 64, 0, 0, 0, 0, 10]);
    assert_eq!(q.sums, vec![74]);
    // Bits 1010_0001: + - + - - - - +, so 127 + 127 + 64 + 10.
    assert_eq!(maxsim_scalar(&q, &[0b1010_0001], 8), vec![328]);
    // The complement scores the negative.
    assert_eq!(maxsim_autovec(&q, &[0b0101_1110], 8), vec![-328]);
    assert_eq!(maxsim(&q, &[0b0101_1110, 0b1010_0001], 8, NONE), vec![328]);
}
