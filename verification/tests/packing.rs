//! Sign bits, residual terms and batches of documents.

use nanoplaid_kernels::{
    best_scores, binarize, maxsim_docs, maxsim_docs_r4, maxsim_r4_scalar, maxsim_scalar,
    quantize_query_i8, signs_pm1, BinaryShapes, CpuFeatures, DocsError, LutI8, QueryI8,
    ResidualShapes,
};

const NONE: CpuFeatures = CpuFeatures {
    dotprod: false,
    i8mm: false,
    avx2: false,
};
const X86: CpuFeatures = CpuFeatures {
    dotprod: false,
    i8mm: false,
    avx2: true,
};

fn patterns(x: &[f32]) -> Vec<u32> {
    x.iter().map(|v| v.to_bits()).collect()
}

/// A query with the given codes and scales of one.
fn query(codes: &[i8], dim: usize) -> QueryI8 {
    let nq = codes.len() / dim;
    let quotients: Vec<f32> = codes.iter().map(|&c| c as f32).collect();
    quantize_query_i8(
        &patterns(&vec![127.0; nq]),
        &patterns(&vec![1.0; nq]),
        &patterns(&quotients),
        dim,
    )
}

#[test]
fn binarize_packs_the_first_sign_highest() {
    let x = [1.0, -1.0, 0.0, 0.5, -0.0, 1e-45, f32::NAN, f32::INFINITY];
    assert_eq!(binarize(&patterns(&x), 8), vec![0b1001_0101]);
    assert_eq!(binarize(&patterns(&[-1.0; 16]), 16), vec![0, 0]);
    assert_eq!(binarize(&[], 8), Vec::<u8>::new());
    assert_eq!(binarize(&[], 0), Vec::<u8>::new());
}

#[test]
fn signs_and_bits_undo_each_other() {
    let bits: Vec<u8> = (0..=255).collect();
    let signs: Vec<f32> = signs_pm1(&bits, 64).iter().map(|&s| s as f32).collect();
    assert_eq!(signs.len(), 8 * 256);
    assert_eq!(binarize(&patterns(&signs), 64), bits);
}

#[test]
fn signs_stop_at_the_last_whole_row() {
    assert_eq!(signs_pm1(&[0x81, 0x00, 0xff], 16).len(), 16);
    assert_eq!(signs_pm1(&[0x81], 8), vec![1, -1, -1, -1, -1, -1, -1, 1]);
}

#[test]
fn residual_terms_by_hand() {
    let q = query(&[1, 2, 3, 4, 5, 6, 7, 8, -1, 0, 0, 0, 0, 0, 0, 127], 8);
    let mut values = [0i8; 16];
    values[1] = 10;
    values[2] = -3;
    values[15] = 127;
    let lut = LutI8 {
        values,
        scale: 1.0f32.to_bits(),
    };
    // Indices 1 2 0 0 15 0 0 1, then 0 0 0 0 0 0 0 2.
    let codes = [0x12, 0x00, 0xf0, 0x01, 0x00, 0x00, 0x00, 0x02];
    let cids = [1, 0];
    let cdot_t = patterns(&[0.25, 0.5, 0.75, 1.0]);
    let t = maxsim_r4_scalar(&q, &lut, &codes, &cids, &cdot_t);
    assert_eq!(t.nq, 2);
    assert_eq!(t.lut_scale, 1.0f32.to_bits());
    assert_eq!(
        t.dots,
        vec![10 - 6 + 5 * 127 + 80, -10 + 1270, 8 * -3, 127 * -3]
    );
    assert_eq!(t.centroid, patterns(&[0.75, 1.0, 0.25, 0.5]));
}

#[test]
fn the_largest_residual_dot_products_are_exact() {
    // Every product at its limit, where 16-bit pair sums come nearest to
    // saturating.
    let q = query(&[127i8; 128], 128);
    for w in [127i8, -127] {
        let lut = LutI8 {
            values: [w; 16],
            scale: 0,
        };
        let codes = [0xa5u8; 64];
        let expect = vec![128 * 127 * w as i32];
        let one = [0u32];
        assert_eq!(maxsim_r4_scalar(&q, &lut, &codes, &one, &one).dots, expect);
        let t = nanoplaid_kernels::x86::maxsim_r4_avx2_128(&q, &lut, &codes, &one, &one);
        assert_eq!(t.dots, expect);
        let t = nanoplaid_kernels::neon::maxsim_r4_neon128(&q, &lut, &codes, &one, &one);
        assert_eq!(t.dots, expect);
    }
}

#[test]
fn two_weights_of_one_make_the_binary_score() {
    let codes: Vec<i8> = (0..16).map(|i| (i * 11 % 50) as i8 - 25).collect();
    let q = query(&codes, 16);
    let bits = [0b1100_1010u8, 0b0111_0001];
    for (clear, set) in [(0u8, 1u8), (1, 0), (6, 15), (15, 3)] {
        let mut values = [99i8; 16];
        values[clear as usize] = -1;
        values[set as usize] = 1;
        let lut = LutI8 { values, scale: 0 };
        let index = |d: usize| {
            if (bits[d / 8] >> (7 - d % 8)) & 1 == 1 {
                set
            } else {
                clear
            }
        };
        let packed: Vec<u8> = (0..8).map(|j| (index(2 * j) << 4) | index(2 * j + 1)).collect();
        let t = maxsim_r4_scalar(&q, &lut, &packed, &[0], &[0]);
        assert_eq!(t.dots, maxsim_scalar(&q, &bits, 16));
    }
}

#[test]
fn best_scores_keep_the_first_of_the_largest() {
    let s = patterns(&[
        1.0,
        f32::NAN,
        -5.0, // first token
        3.0,
        f32::NAN,
        -0.0, // second
        3.0,
        f32::NAN,
        0.0, // third
    ]);
    assert_eq!(
        best_scores(&s, 3),
        patterns(&[3.0, f32::NEG_INFINITY, -0.0])
    );
    assert_eq!(best_scores(&[], 2), patterns(&[f32::NEG_INFINITY; 2]));
    assert_eq!(
        best_scores(&patterns(&[f32::NEG_INFINITY, f32::INFINITY]), 1),
        patterns(&[f32::INFINITY])
    );
}

fn binary_shapes() -> BinaryShapes {
    BinaryShapes {
        nq: 2,
        dim: 128,
        payload_columns: 16,
        query_contiguous: true,
        payload_contiguous: true,
        lens_contiguous: true,
    }
}

fn residual_shapes() -> ResidualShapes {
    ResidualShapes {
        nq: 2,
        dim: 128,
        codes_columns: 64,
        cdot_columns: 2,
        lut_entries: 16,
        query_contiguous: true,
        codes_contiguous: true,
        cids_contiguous: true,
        cdot_contiguous: true,
        lens_contiguous: true,
        lut_contiguous: true,
    }
}

#[test]
fn binary_shapes_are_checked_in_order() {
    let check = |change: fn(&mut BinaryShapes)| {
        let mut s = binary_shapes();
        change(&mut s);
        s.check()
    };
    assert_eq!(check(|_| ()), Ok(()));
    assert_eq!(check(|s| s.dim = 0), Err(DocsError::Dim));
    assert_eq!(check(|s| s.dim = 12), Err(DocsError::Dim));
    assert_eq!(check(|s| s.nq = 0), Err(DocsError::EmptyQuery));
    assert_eq!(check(|s| s.payload_columns = 15), Err(DocsError::PayloadColumns));
    assert_eq!(check(|s| s.query_contiguous = false), Err(DocsError::QueryLayout));
    assert_eq!(check(|s| s.payload_contiguous = false), Err(DocsError::PayloadLayout));
    assert_eq!(check(|s| s.lens_contiguous = false), Err(DocsError::LensLayout));
    let all_wrong = check(|s| {
        s.nq = 0;
        s.payload_columns = 0;
        s.lens_contiguous = false;
    });
    assert_eq!(all_wrong, Err(DocsError::EmptyQuery));
}

#[test]
fn residual_shapes_are_checked_in_order() {
    let check = |change: fn(&mut ResidualShapes)| {
        let mut s = residual_shapes();
        change(&mut s);
        s.check()
    };
    assert_eq!(check(|_| ()), Ok(()));
    assert_eq!(check(|s| s.dim = 4), Err(DocsError::Dim));
    assert_eq!(check(|s| s.nq = 0), Err(DocsError::EmptyQuery));
    assert_eq!(check(|s| s.codes_columns = 16), Err(DocsError::CodesColumns));
    assert_eq!(check(|s| s.cdot_columns = 3), Err(DocsError::CentroidColumns));
    assert_eq!(check(|s| s.lut_entries = 4), Err(DocsError::LutEntries));
    assert_eq!(check(|s| s.query_contiguous = false), Err(DocsError::QueryLayout));
    assert_eq!(check(|s| s.codes_contiguous = false), Err(DocsError::CodesLayout));
    assert_eq!(check(|s| s.cids_contiguous = false), Err(DocsError::CidsLayout));
    assert_eq!(check(|s| s.cdot_contiguous = false), Err(DocsError::CentroidLayout));
    assert_eq!(check(|s| s.lens_contiguous = false), Err(DocsError::LensLayout));
    assert_eq!(check(|s| s.lut_contiguous = false), Err(DocsError::LutLayout));
}

#[test]
fn a_binary_batch_is_cut_into_documents() {
    let q = query(&[3, -7, 11, 0, 5, -2, 9, 1], 8);
    let payload = [0x80, 0x40, 0xff, 0x00, 0x13];
    let out = maxsim_docs(&q, &payload, &[2, 1, 2], NONE).unwrap();
    assert_eq!(out.len(), 3);
    assert_eq!(out[0], maxsim_scalar(&q, &payload[..2], 8));
    assert_eq!(out[1], maxsim_scalar(&q, &payload[2..3], 8));
    assert_eq!(out[2], maxsim_scalar(&q, &payload[3..], 8));
    // All bits set scores T; one document of all rows is the document.
    assert_eq!(out[1], vec![20]);
    let whole = maxsim_docs(&q, &payload, &[5], NONE).unwrap();
    assert_eq!(whole, vec![maxsim_scalar(&q, &payload, 8)]);
    assert_eq!(maxsim_docs(&q, &[], &[], NONE), Ok(vec![]));
}

#[test]
fn a_binary_batch_with_wrong_rows_is_refused() {
    let q = query(&[1; 16], 16);
    let payload = [0u8; 6];
    let refused = |lens: &[i64]| maxsim_docs(&q, &payload, lens, NONE).unwrap_err();
    assert_eq!(refused(&[3, 0]), DocsError::EmptyDoc);
    assert_eq!(refused(&[4, -1]), DocsError::EmptyDoc);
    assert_eq!(refused(&[1, 1]), DocsError::PayloadRows);
    assert_eq!(refused(&[4]), DocsError::PayloadRows);
    assert_eq!(refused(&[i64::MAX, i64::MAX, i64::MAX]), DocsError::PayloadRows);
    assert_eq!(
        maxsim_docs(&q, &payload[..5], &[2], NONE).unwrap_err(),
        DocsError::PayloadRows
    );
    assert!(maxsim_docs(&q, &payload, &[1, 2], NONE).is_ok());
}

#[test]
fn a_residual_batch_is_cut_into_documents() {
    let codes: Vec<i8> = (0..256).map(|i| (i * 31 % 255) as i8).map(|c| c.max(-127)).collect();
    let q = query(&codes, 128);
    let lv: Vec<i8> = (0..16).map(|i| i * 15 - 120).collect();
    let packed: Vec<u8> = (0..3 * 64).map(|i| (i * 7) as u8).collect();
    let cids = [0u32, 2, 1];
    let cdot_t = patterns(&[0.0, 1.0, 2.0, 3.0, 4.0, 5.0]);
    let mut values = [0i8; 16];
    values.copy_from_slice(&lv);
    let lut = LutI8 { values, scale: 9 };
    for cpu in [NONE, X86] {
        let out =
            maxsim_docs_r4(&q, &packed, &cids, &cdot_t, 3, &[1, 2], &lv, 9, cpu);
        let out = match out {
            Ok(out) => out,
            Err(e) => panic!("{}", e.message()),
        };
        assert_eq!(out.len(), 2);
        assert_eq!((out[0].lut_scale, out[1].lut_scale), (9, 9));
        let a = maxsim_r4_scalar(&q, &lut, &packed[..64], &cids[..1], &cdot_t);
        let b = maxsim_r4_scalar(&q, &lut, &packed[64..], &cids[1..], &cdot_t);
        assert_eq!(out[0].dots, a.dots);
        assert_eq!(out[0].centroid, patterns(&[0.0, 1.0]));
        assert_eq!(out[1].dots, b.dots);
        assert_eq!(out[1].centroid, patterns(&[4.0, 5.0, 2.0, 3.0]));
    }
}

#[test]
fn a_residual_batch_with_wrong_rows_is_refused() {
    let q = query(&[1; 16], 16);
    let packed = [0u8; 24];
    let cdot_t = [0u32; 2];
    let lv = [1i8; 16];
    let mut low = lv;
    low[7] = -128;
    let refused = |cids: &[u32], lens: &[i64], lv: &[i8]| {
        match maxsim_docs_r4(&q, &packed, cids, &cdot_t, 2, lens, lv, 0, NONE) {
            Ok(_) => None,
            Err(e) => Some(e),
        }
    };
    assert_eq!(refused(&[0, 1, 0], &[1, 2], &lv), None);
    assert_eq!(refused(&[0, 1, 0], &[3, 0], &lv), Some(DocsError::EmptyDoc));
    assert_eq!(refused(&[0, 1, 0], &[1, 1], &lv), Some(DocsError::CodesRows));
    assert_eq!(refused(&[0, 1], &[1, 2], &lv), Some(DocsError::CodesRows));
    assert_eq!(refused(&[0, 2, 0], &[1, 2], &lv), Some(DocsError::CentroidId));
    assert_eq!(refused(&[0, 1, 0], &[1, 2], &low), Some(DocsError::LutRange));
    assert_eq!(refused(&[0, 2, 0], &[1, 2], &low), Some(DocsError::CentroidId));
}

#[test]
fn messages_name_the_fault() {
    for (e, m) in [
        (DocsError::Dim, "dim must be a positive multiple of 8"),
        (DocsError::EmptyQuery, "query must have at least one token"),
        (DocsError::PayloadColumns, "payload column count must equal dim/8"),
        (
            DocsError::CodesColumns,
            "codes column count must equal dim/2 (nbits = 4)",
        ),
        (
            DocsError::CentroidColumns,
            "cdot_t must be [n_centroids, nq] (the transposed centroid matrix)",
        ),
        (DocsError::LutEntries, "lut_values must have 16 entries"),
        (DocsError::QueryLayout, "query must be C-contiguous"),
        (DocsError::PayloadLayout, "payload must be C-contiguous"),
        (DocsError::CodesLayout, "codes must be C-contiguous"),
        (DocsError::CidsLayout, "cids must be C-contiguous"),
        (DocsError::CentroidLayout, "cdot_t must be C-contiguous"),
        (DocsError::LensLayout, "lens must be C-contiguous"),
        (DocsError::LutLayout, "lut_values must be C-contiguous"),
        (DocsError::EmptyDoc, "every doc length must be positive"),
        (DocsError::PayloadRows, "payload rows must equal sum(lens)"),
        (DocsError::CodesRows, "codes/cids rows must equal sum(lens)"),
        (DocsError::CentroidId, "centroid id out of range for cdot_t"),
        (
            DocsError::LutRange,
            "lut values must be in [-127, 127] (quantize_lut clips)",
        ),
    ] {
        assert_eq!(e.message(), m);
    }
}

/// Bit of dimension `d`, most significant first.
fn bit(bits: &[u8], d: usize) -> bool {
    (bits[d / 8] >> (7 - d % 8)) & 1 == 1
}

#[test]
fn sums_of_codes_under_bits() {
    let codes: Vec<i8> = (0..128).map(|i| (i * 53 % 255) as i16 - 127).map(|c| c as i8).collect();
    let q = query(&codes, 128);
    let bits: Vec<u8> = (0..16).map(|i| (i * 91 + 7) as u8).collect();
    let t: i32 = codes.iter().map(|&c| c as i32).sum();
    let p: i32 = (0..128).filter(|&d| bit(&bits, d)).map(|d| codes[d] as i32).sum();
    let ones = (0..128).filter(|&d| bit(&bits, d)).count() as i32;
    // The signed dot product is 2P - T.
    assert_eq!(q.sums, vec![t]);
    assert_eq!(maxsim_scalar(&q, &bits, 128), vec![2 * p - t]);
    // Biased codes under the bits add up to P + 128 * popcount.
    let biased: i32 = (0..128).filter(|&d| bit(&bits, d)).map(|d| q.biased[d] as i32).sum();
    assert_eq!(biased, p + 128 * ones);
    // The plane-major codes meet plane-major bits.
    let planes: i32 = (0..128)
        .filter(|&i| bit(&bits, (i % 16) * 8 + i / 16))
        .map(|i| q.planes[i] as i32)
        .sum();
    assert_eq!(planes, p);
}

#[test]
fn any_two_weights_make_an_affine_score() {
    let codes: Vec<i8> = (0..32).map(|i| (i * 29 % 255) as i16 - 127).map(|c| c as i8).collect();
    let q = query(&codes, 32);
    let bits = [0x9cu8, 0x31, 0xf0, 0x0b];
    let packed: Vec<u8> = (0..16)
        .map(|j| ((bit(&bits, 2 * j) as u8) << 4) | bit(&bits, 2 * j + 1) as u8)
        .collect();
    let t: i32 = codes.iter().map(|&c| c as i32).sum();
    let p: i32 = (0..32).filter(|&d| bit(&bits, d)).map(|d| codes[d] as i32).sum();
    for (w0, w1) in [(-1i8, 1i8), (5, -9), (0, 127), (-127, 127), (3, 3)] {
        let mut values = [0i8; 16];
        values[0] = w0;
        values[1] = w1;
        let lut = LutI8 { values, scale: 0 };
        let terms = maxsim_r4_scalar(&q, &lut, &packed, &[0], &[0]);
        let (w0, w1) = (w0 as i32, w1 as i32);
        assert_eq!(terms.dots, vec![(w1 - w0) * p + w0 * t]);
    }
}

#[test]
fn a_decoded_token_scores_centroid_plus_residual() {
    let codes: Vec<i8> = (0..8).map(|i| i * 13 - 40).collect();
    let q = query(&codes, 8);
    let centroid = [4i32, -7, 0, 9, 2, 2, -1, 30];
    let values: [i8; 16] = [-90, -70, -50, -40, -30, -20, -10, -5, 5, 10, 20, 30, 40, 50, 70, 90];
    let lut = LutI8 { values, scale: 0 };
    let packed = [0x3fu8, 0x08, 0xa7, 0xe1];
    let index = [3usize, 15, 0, 8, 10, 7, 14, 1];
    let decoded: i32 = (0..8)
        .map(|d| codes[d] as i32 * (centroid[d] + values[index[d]] as i32))
        .sum();
    let known: i32 = (0..8).map(|d| codes[d] as i32 * centroid[d]).sum();
    let terms = maxsim_r4_scalar(&q, &lut, &packed, &[0], &[0]);
    assert_eq!(known + terms.dots[0], decoded);
}
