//! Reordered, repeated, joined and negated inputs.

use nanoplaid_kernels::{
    best_scores, binarize, maxsim, maxsim_docs, maxsim_docs_r4, maxsim_r4, maxsim_scalar,
    quantize_query_i8, row_magnitudes, CpuFeatures, LutI8, QueryI8,
};

const NONE: CpuFeatures = CpuFeatures {
    dotprod: false,
    i8mm: false,
    avx2: false,
};
const ARM: CpuFeatures = CpuFeatures {
    dotprod: true,
    i8mm: true,
    avx2: false,
};
const X86: CpuFeatures = CpuFeatures {
    dotprod: false,
    i8mm: false,
    avx2: true,
};

fn patterns(x: &[f32]) -> Vec<u32> {
    x.iter().map(|v| v.to_bits()).collect()
}

/// Deterministic numbers within `-1 ..= 1`.
fn numbers(n: usize, seed: usize) -> Vec<f32> {
    (0..n)
        .map(|i| ((i * 7919 + seed * 104_729 + i * i * 31) % 2001) as f32 / 1000.0 - 1.0)
        .collect()
}

fn bytes(n: usize, seed: usize) -> Vec<u8> {
    (0..n).map(|i| (i * 73 + seed * 29 + i * i * 5) as u8).collect()
}

fn quantize(q: &[f32], dim: usize) -> QueryI8 {
    let magnitudes = row_magnitudes(&patterns(q), dim);
    let scales: Vec<f32> = magnitudes.iter().map(|&m| f32::from_bits(m) / 127.0).collect();
    let quotients: Vec<u32> = q
        .chunks_exact(dim)
        .zip(&scales)
        .flat_map(|(row, &s)| row.iter().map(move |&x| (x / s).to_bits()))
        .collect();
    quantize_query_i8(&magnitudes, &patterns(&scales), &quotients, dim)
}

fn joined<T: Clone>(a: &[T], b: &[T]) -> Vec<T> {
    a.iter().chain(b).cloned().collect()
}

fn table() -> LutI8 {
    let mut values = [0i8; 16];
    for (i, v) in values.iter_mut().enumerate() {
        *v = i as i8 * 15 - 112;
    }
    LutI8 {
        values,
        scale: 0.004f32.to_bits(),
    }
}

/// The best score of each row of a residual document.
fn residual_best(q: &QueryI8, codes: &[u8], cids: &[u32], cdot_t: &[u32]) -> Vec<u32> {
    let terms = maxsim_r4(q, &table(), codes, cids, cdot_t, X86);
    let scale = f32::from_bits(terms.lut_scale);
    let scores: Vec<u32> = terms
        .dots
        .iter()
        .zip(&terms.centroid)
        .enumerate()
        .map(|(i, (&dot, &c))| {
            let row = f32::from_bits(q.scales[i % terms.nq]) * scale;
            (row * dot as f32 + f32::from_bits(c)).to_bits()
        })
        .collect();
    best_scores(&scores, terms.nq)
}

#[test]
fn a_binary_document_is_a_bag_of_tokens() {
    let q = quantize(&numbers(5 * 16, 1), 16);
    let bits = bytes(2 * 6, 2);
    let expect = maxsim_scalar(&q, &bits, 16);
    for order in [vec![5, 4, 3, 2, 1, 0], vec![2, 0, 2, 1, 5, 3, 4, 4, 2]] {
        let other: Vec<u8> = order
            .iter()
            .flat_map(|&t: &usize| bits[2 * t..2 * t + 2].to_vec())
            .collect();
        assert_eq!(maxsim_scalar(&q, &other, 16), expect);
    }
}

#[test]
fn a_residual_document_is_a_bag_of_tokens() {
    let q = quantize(&numbers(3 * 128, 3), 128);
    let codes = bytes(5 * 64, 4);
    let cids = [2u32, 0, 1, 2, 0];
    let cdot_t = patterns(&numbers(9, 5));
    let expect = residual_best(&q, &codes, &cids, &cdot_t);
    for order in [vec![4, 3, 2, 1, 0], vec![1, 1, 0, 4, 2, 3, 0, 1]] {
        let other: Vec<u8> = order
            .iter()
            .flat_map(|&t: &usize| codes[64 * t..64 * t + 64].to_vec())
            .collect();
        let ids: Vec<u32> = order.iter().map(|&t: &usize| cids[t]).collect();
        assert_eq!(residual_best(&q, &other, &ids, &cdot_t), expect);
    }
}

#[test]
fn the_order_of_zeros_shows_in_their_sign_alone() {
    let zeros = patterns(&[0.0, -0.0]);
    assert_eq!(best_scores(&zeros, 1), patterns(&[0.0]));
    assert_eq!(best_scores(&patterns(&[-0.0, 0.0]), 1), patterns(&[-0.0]));
    // A repeat of the second comes too late to count.
    assert_eq!(best_scores(&patterns(&[0.0, -0.0, -0.0]), 1), patterns(&[0.0]));
}

#[test]
fn joined_residual_documents_score_the_better_of_the_two() {
    let s = patterns(&[1.0, -2.0, 3.0, f32::NAN]);
    let t = patterns(&[2.5, -1.0]);
    assert_eq!(best_scores(&s, 2), patterns(&[3.0, -2.0]));
    assert_eq!(best_scores(&t, 2), patterns(&[2.5, -1.0]));
    assert_eq!(best_scores(&joined(&s, &t), 2), patterns(&[3.0, -1.0]));
    assert_eq!(best_scores(&joined(&t, &s), 2), patterns(&[3.0, -1.0]));
}

#[test]
fn joined_residual_documents_have_joined_terms() {
    let q = quantize(&numbers(2 * 128, 6), 128);
    let codes = bytes(5 * 64, 7);
    let cids = [0u32, 3, 1, 1, 2];
    let cdot_t = patterns(&numbers(8, 8));
    for cpu in [NONE, ARM, X86] {
        let a = maxsim_r4(&q, &table(), &codes[..128], &cids[..2], &cdot_t, cpu);
        let b = maxsim_r4(&q, &table(), &codes[128..], &cids[2..], &cdot_t, cpu);
        let whole = maxsim_r4(&q, &table(), &codes, &cids, &cdot_t, cpu);
        assert_eq!(whole.dots, joined(&a.dots, &b.dots));
        assert_eq!(whole.centroid, joined(&a.centroid, &b.centroid));
    }
}

#[test]
fn a_joined_binary_batch_gives_joined_results() {
    let q = quantize(&numbers(3 * 128, 9), 128);
    let (a, b) = (bytes(16 * 4, 10), bytes(16 * 3, 11));
    let (la, lb) = ([1i64, 3], [2i64, 1]);
    let out_a = maxsim_docs(&q, &a, &la, X86).unwrap();
    let out_b = maxsim_docs(&q, &b, &lb, X86).unwrap();
    let out = maxsim_docs(&q, &joined(&a, &b), &joined(&la, &lb), X86).unwrap();
    assert_eq!(out, joined(&out_a, &out_b));
}

#[test]
fn a_joined_residual_batch_gives_joined_results() {
    let q = quantize(&numbers(2 * 16, 12), 16);
    let lv = table().values;
    let cdot_t = patterns(&numbers(6, 13));
    let (ca, cb) = (bytes(8 * 3, 14), bytes(8 * 2, 15));
    let (ia, ib) = ([2u32, 0, 1], [1u32, 2]);
    let (la, lb) = ([1i64, 2], [2i64]);
    let run = |codes: &[u8], cids: &[u32], lens: &[i64]| {
        match maxsim_docs_r4(&q, codes, cids, &cdot_t, 3, lens, &lv, 7, NONE) {
            Ok(out) => out,
            Err(e) => panic!("{}", e.message()),
        }
    };
    let parts = [run(&ca, &ia, &la), run(&cb, &ib, &lb)];
    let out = run(&joined(&ca, &cb), &joined(&ia, &ib), &joined(&la, &lb));
    assert_eq!(out.len(), 3);
    for (got, want) in out.iter().zip(parts.iter().flatten()) {
        assert_eq!((got.nq, got.lut_scale), (want.nq, want.lut_scale));
        assert_eq!(got.dots, want.dots);
        assert_eq!(got.centroid, want.centroid);
    }
}

#[test]
fn a_joined_query_has_joined_fields() {
    for (na, nb, dim) in [(2, 3, 128), (4, 1, 128), (1, 2, 128), (3, 2, 16)] {
        let (x, y) = (numbers(na * dim, 16), numbers(nb * dim, 17));
        let (a, b) = (quantize(&x, dim), quantize(&y, dim));
        let q = quantize(&joined(&x, &y), dim);
        assert_eq!(q.values, joined(&a.values, &b.values));
        assert_eq!(q.scales, joined(&a.scales, &b.scales));
        assert_eq!(q.sums, joined(&a.sums, &b.sums));
        assert_eq!(q.biased, joined(&a.biased, &b.biased));
        assert_eq!(q.planes, joined(&a.planes, &b.planes));
        assert_eq!(q.perm4, joined(&a.perm4, &b.perm4));
        assert_eq!(q.absq4, joined(&a.absq4, &b.absq4));
        let pairs = joined(&a.planes_smmla, &b.planes_smmla);
        if na % 2 == 0 || dim != 128 {
            assert_eq!(q.planes_smmla, pairs);
        } else {
            // The first query's last row stands twice in its own pairs.
            assert_ne!(q.planes_smmla, pairs);
        }
        let bits = bytes(dim / 8 * 4, 18);
        assert_eq!(
            maxsim(&q, &bits, dim, ARM),
            joined(&maxsim(&a, &bits, dim, ARM), &maxsim(&b, &bits, dim, ARM))
        );
    }
}

#[test]
fn a_negated_query_scores_complemented_bits_the_same() {
    let x = numbers(3 * 128, 19);
    let minus: Vec<f32> = x.iter().map(|v| -v).collect();
    let (q, n) = (quantize(&x, 128), quantize(&minus, 128));
    assert!(q.values.iter().zip(&n.values).all(|(&a, &b)| a == -b));
    let bits = bytes(16 * 7, 20);
    let flipped: Vec<u8> = bits.iter().map(|&b| !b).collect();
    for cpu in [NONE, ARM, X86] {
        assert_eq!(maxsim(&q, &bits, 128, cpu), maxsim(&n, &flipped, 128, cpu));
    }
}

#[test]
fn a_negated_query_has_negated_codes_and_layouts() {
    for (nq, dim) in [(3, 128), (2, 128), (2, 16)] {
        let mut x = numbers(nq * dim, 22);
        // A row of zeros, and an entry that is not a number.
        x[dim..2 * dim].fill(0.0);
        x[3] = f32::NAN;
        let minus: Vec<f32> = x.iter().map(|v| -v).collect();
        assert_eq!(
            row_magnitudes(&patterns(&x), dim),
            row_magnitudes(&patterns(&minus), dim)
        );
        let (q, n) = (quantize(&x, dim), quantize(&minus, dim));
        let negated = |a: &[i8]| a.iter().map(|&v| -v).collect::<Vec<i8>>();
        assert_eq!(n.scales, q.scales);
        assert_eq!(n.values, negated(&q.values));
        assert!(q.values[..dim].iter().any(|&v| v != 0));
        assert_eq!(n.sums, q.sums.iter().map(|&t| -t).collect::<Vec<i32>>());
        let biased: Vec<i32> = q.biased.iter().map(|&b| 256 - b as i32).collect();
        assert!(n.biased.iter().zip(&biased).all(|(&a, &b)| a as i32 == b));
        assert_eq!(n.planes, negated(&q.planes));
        assert_eq!(n.planes_smmla, negated(&q.planes_smmla));
        assert_eq!(n.perm4, negated(&q.perm4));
        assert_eq!(n.absq4, q.absq4);
    }
}

#[test]
fn a_complemented_token_has_negated_scores() {
    let q = quantize(&numbers(3 * 128, 23), 128);
    let tok = bytes(16, 24);
    let flipped: Vec<u8> = tok.iter().map(|&b| !b).collect();
    for cpu in [NONE, ARM, X86] {
        let a = maxsim(&q, &tok, 128, cpu);
        let b = maxsim(&q, &flipped, 128, cpu);
        assert!(a.iter().any(|&v| v != 0));
        assert_eq!(b, a.iter().map(|&v| -v).collect::<Vec<i32>>());
    }
}

#[test]
fn no_document_beats_the_querys_own_signs() {
    let x = numbers(4 * 128, 21);
    let q = quantize(&x, 128);
    let own = maxsim(&q, &binarize(&patterns(&x), 128), 128, X86);
    for (qi, row) in q.values.chunks_exact(128).enumerate() {
        assert_eq!(own[qi], row.iter().map(|&v| (v as i32).abs()).sum::<i32>());
    }
    for seed in 0..20 {
        let best = maxsim(&q, &bytes(16 * 9, seed), 128, X86);
        assert!(best.iter().zip(&own).all(|(b, o)| b <= o));
    }
}
