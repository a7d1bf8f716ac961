//! What each public function takes and gives back, as its callers see it.
//!
//! A call is accepted on the plain conditions listed here and on no more, and
//! whatever it returns is what the other laws speak of.

use crate::binary32;
use crate::dispatch;
use crate::dispatch::CpuFeatures;
use crate::docs;
use crate::docs::BinaryShapes;
use crate::docs::DocsError;
use crate::docs::ResidualShapes;
use crate::model;
use crate::neon;
use crate::plain;
use crate::query;
use crate::query::QueryI8;
use crate::residual;
use crate::residual::LutI8;
use crate::residual::ResidualTerms;
use crate::scalar;
use crate::signs;
use crate::sums;
use crate::x86;
use vstd::arithmetic::power2::pow2;
use vstd::prelude::*;

verus! {

/// Every binary kernel takes any well-formed query and any bytes, the fused
/// ones where the query has 128 dimensions, and gives the scores of the
/// document.
pub proof fn law_binary_kernel_calls(
    q: &QueryI8,
    bits: &[u8],
    cpu: CpuFeatures,
    best: Vec<i32>,
)
    requires
        q.wf(),
    ensures
        call_requires(scalar::maxsim_scalar, (q, bits, q.dim)),
        call_requires(scalar::maxsim_autovec, (q, bits, q.dim)),
        call_requires(dispatch::maxsim, (q, bits, q.dim, cpu)),
        q.dim == 128 ==> call_requires(neon::maxsim_neon128, (q, bits)),
        q.dim == 128 ==> call_requires(neon::maxsim_smmla128, (q, bits)),
        q.dim == 128 ==> call_requires(x86::maxsim_avx2_sad128, (q, bits)),
        call_ensures(scalar::maxsim_scalar, (q, bits, q.dim), best) ==> q.is_maxsim(bits@, best@),
        call_ensures(scalar::maxsim_autovec, (q, bits, q.dim), best) ==> q.is_maxsim(bits@, best@),
        call_ensures(dispatch::maxsim, (q, bits, q.dim, cpu), best) ==> q.is_maxsim(bits@, best@),
        q.dim == 128 && call_ensures(neon::maxsim_neon128, (q, bits), best) ==> q.is_maxsim(
            bits@,
            best@,
        ),
        q.dim == 128 && call_ensures(neon::maxsim_smmla128, (q, bits), best) ==> q.is_maxsim(
            bits@,
            best@,
        ),
        q.dim == 128 && call_ensures(x86::maxsim_avx2_sad128, (q, bits), best) ==> q.is_maxsim(
            bits@,
            best@,
        ),
{
}

/// The fused kernels that ask the processor give the scores of the document
/// where it has their instruction and the query 128 dimensions, and nothing
/// elsewhere.
pub proof fn law_optional_kernel_calls(
    q: &QueryI8,
    bits: &[u8],
    cpu: CpuFeatures,
    best: Option<Vec<i32>>,
)
    requires
        q.wf(),
    ensures
        call_requires(dispatch::maxsim_sdot, (q, bits, q.dim, cpu)),
        call_requires(dispatch::maxsim_smmla, (q, bits, q.dim, cpu)),
        call_requires(dispatch::maxsim_avx2, (q, bits, q.dim, cpu)),
        call_ensures(dispatch::maxsim_sdot, (q, bits, q.dim, cpu), best) ==> (best is Some
            <==> q.dim == 128 && cpu.dotprod) && (best is Some ==> q.is_maxsim(bits@, best->0@)),
        call_ensures(dispatch::maxsim_smmla, (q, bits, q.dim, cpu), best) ==> (best is Some
            <==> q.dim == 128 && cpu.i8mm) && (best is Some ==> q.is_maxsim(bits@, best->0@)),
        call_ensures(dispatch::maxsim_avx2, (q, bits, q.dim, cpu), best) ==> (best is Some
            <==> q.dim == 128 && cpu.avx2) && (best is Some ==> q.is_maxsim(bits@, best->0@)),
{
}

/// Whatever processor a binary document is scored on, and whatever its
/// dimension, the score of a row is the largest dot product of the row with a
/// whole token: token `d` has no larger one.
pub proof fn law_maxsim_is_not_beaten(
    q: &QueryI8,
    bits: &[u8],
    cpu: CpuFeatures,
    best: Vec<i32>,
    qi: int,
    d: int,
)
    requires
        q.wf(),
        call_ensures(dispatch::maxsim, (q, bits, q.dim, cpu), best) || call_ensures(
            scalar::maxsim_scalar,
            (q, bits, q.dim),
            best,
        ) || call_ensures(scalar::maxsim_autovec, (q, bits, q.dim), best),
        0 <= qi < q.sums@.len(),
        0 <= d,
        (d + 1) * (q.dim as int / 8) <= bits@.len(),
    ensures
        best@.len() == q.sums@.len(),
        sums::sum(
            q.dim as int,
            (|k: int|
                if (bits@[d * (q.dim as int / 8) + k / 8] as int / pow2((7 - k % 8) as nat) as int)
                    % 2 == 1 {
                    q.values@[qi * q.dim + k] as int
                } else {
                    -q.values@[qi * q.dim + k]
                }),
        ) <= best@[qi],
{
    plain::law_kernel_score_is_not_beaten(q, bits@, best@, qi, d);
}

/// The score of a row that a call gives back is the dot product of the row with
/// one of the whole tokens, where there is one.
pub proof fn law_maxsim_is_reached(
    q: &QueryI8,
    bits: &[u8],
    cpu: CpuFeatures,
    best: Vec<i32>,
    qi: int,
) -> (d: int)
    requires
        q.wf(),
        call_ensures(dispatch::maxsim, (q, bits, q.dim, cpu), best) || call_ensures(
            scalar::maxsim_scalar,
            (q, bits, q.dim),
            best,
        ) || call_ensures(scalar::maxsim_autovec, (q, bits, q.dim), best),
        0 <= qi < q.sums@.len(),
        q.dim as int / 8 <= bits@.len(),
    ensures
        0 <= d,
        (d + 1) * (q.dim as int / 8) <= bits@.len(),
        best@[qi] == sums::sum(
            q.dim as int,
            (|k: int|
                if (bits@[d * (q.dim as int / 8) + k / 8] as int / pow2((7 - k % 8) as nat) as int)
                    % 2 == 1 {
                    q.values@[qi * q.dim + k] as int
                } else {
                    -q.values@[qi * q.dim + k]
                }),
        ),
{
    plain::law_kernel_score_is_reached(q, bits@, best@, qi)
}

/// Every residual kernel takes a well-formed query, a table without -128, as
/// many packed rows as centroid ids and a row of terms for each id, the fused
/// ones where the query has 128 dimensions, and gives the terms of the
/// document.
pub proof fn law_residual_kernel_calls(
    q: &QueryI8,
    lut: &LutI8,
    codes: &[u8],
    cids: &[u32],
    cdot_t: &[u32],
    cpu: CpuFeatures,
    terms: ResidualTerms,
    fused: Option<ResidualTerms>,
)
    requires
        q.wf(),
        q.dim <= 133_144,
        forall|k: int| 0 <= k < 16 ==> #[trigger] lut.values@[k] != -128,
        codes@.len() == cids@.len() * (q.dim as int / 2),
        forall|d: int|
            0 <= d < cids@.len() ==> (#[trigger] cids@[d] + 1) * q.sums@.len() <= cdot_t@.len(),
        cids@.len() * q.sums@.len() <= usize::MAX,
    ensures
        call_requires(residual::maxsim_r4_scalar, (q, lut, codes, cids, cdot_t)),
        call_requires(dispatch::maxsim_r4, (q, lut, codes, cids, cdot_t, cpu)),
        call_requires(dispatch::maxsim_r4_fused, (q, lut, codes, cids, cdot_t, cpu)),
        q.dim == 128 ==> call_requires(neon::maxsim_r4_neon128, (q, lut, codes, cids, cdot_t)),
        q.dim == 128 ==> call_requires(x86::maxsim_r4_avx2_128, (q, lut, codes, cids, cdot_t)),
        call_ensures(residual::maxsim_r4_scalar, (q, lut, codes, cids, cdot_t), terms)
            ==> terms.is_residual(q, lut.values@, lut.scale, codes@, cids@, cdot_t@),
        call_ensures(dispatch::maxsim_r4, (q, lut, codes, cids, cdot_t, cpu), terms)
            ==> terms.is_residual(q, lut.values@, lut.scale, codes@, cids@, cdot_t@),
        q.dim == 128 && call_ensures(
            neon::maxsim_r4_neon128,
            (q, lut, codes, cids, cdot_t),
            terms,
        ) ==> terms.is_residual(q, lut.values@, lut.scale, codes@, cids@, cdot_t@),
        q.dim == 128 && call_ensures(
            x86::maxsim_r4_avx2_128,
            (q, lut, codes, cids, cdot_t),
            terms,
        ) ==> terms.is_residual(q, lut.values@, lut.scale, codes@, cids@, cdot_t@),
        call_ensures(dispatch::maxsim_r4_fused, (q, lut, codes, cids, cdot_t, cpu), fused) ==> (
        fused is Some <==> q.dim == 128 && (cpu.dotprod || cpu.avx2)) && (fused is Some ==> (
        fused->0).is_residual(q, lut.values@, lut.scale, codes@, cids@, cdot_t@)),
{
    plain::law_residual_is_ready(q, lut, codes@, cids@, cdot_t@);
}

/// Whatever processor a residual document is scored on, and whatever its
/// dimension, the integer term of token `d` and row `qi` is the sum over the
/// token's bytes of first code times weight at the quotient by 16 plus second
/// code times weight at the remainder, and the centroid term that of the
/// token's centroid.
pub proof fn law_maxsim_r4_entry(
    q: &QueryI8,
    lut: &LutI8,
    codes: &[u8],
    cids: &[u32],
    cdot_t: &[u32],
    cpu: CpuFeatures,
    terms: ResidualTerms,
    d: int,
    qi: int,
)
    requires
        q.wf(),
        codes@.len() == cids@.len() * (q.dim as int / 2),
        call_ensures(dispatch::maxsim_r4, (q, lut, codes, cids, cdot_t, cpu), terms)
            || call_ensures(residual::maxsim_r4_scalar, (q, lut, codes, cids, cdot_t), terms),
        0 <= d < cids@.len(),
        0 <= qi < q.sums@.len(),
    ensures
        terms.nq == q.sums@.len(),
        terms.lut_scale == lut.scale,
        terms.dots@.len() == cids@.len() * q.sums@.len(),
        terms.centroid@.len() == cids@.len() * q.sums@.len(),
        terms.dots@[d * q.sums@.len() + qi] == sums::sum(
            q.dim as int / 2,
            |k: int|
                q.values@[qi * q.dim + 2 * k] * lut.values@[codes@[d * (q.dim as int / 2)
                    + k] as int / 16] + q.values@[qi * q.dim + 2 * k + 1] * lut.values@[codes@[d * (
                q.dim as int / 2) + k] as int % 16],
        ),
        terms.centroid@[d * q.sums@.len() + qi] == cdot_t@[cids@[d] * q.sums@.len() + qi],
{
    let weights = lut.values@;
    plain::law_residual_extent(terms, q, weights, lut.scale, codes@, cids@, cdot_t@);
    plain::law_residual_entry(terms, q, weights, lut.scale, codes@, cids@, cdot_t@, d, qi);
    let f = |k: int|
        q.values@[qi * q.dim + 2 * k] * weights[codes@[d * (q.dim as int / 2) + k] as int / 16]
            + q.values@[qi * q.dim + 2 * k + 1] * weights[codes@[d * (q.dim as int / 2) + k] as int
            % 16];
    let g = |k: int|
        q.values@[qi * q.dim + 2 * k] * lut.values@[codes@[d * (q.dim as int / 2) + k] as int / 16]
            + q.values@[qi * q.dim + 2 * k + 1] * lut.values@[codes@[d * (q.dim as int / 2)
            + k] as int % 16];
    sums::lemma_sum_eq(q.dim as int / 2, f, g);
}

/// The best score of each row is taken of any scores, and is the best of the
/// row's column.
pub proof fn law_best_scores_call(scores: &[u32], nq: usize, best: Vec<u32>, qi: int)
    requires
        0 <= qi < nq,
    ensures
        call_requires(residual::best_scores, (scores, nq)),
        call_ensures(residual::best_scores, (scores, nq), best) ==> best@.len() == nq
            && residual::is_best(residual::column(scores@, nq as int, qi), best@[qi]),
{
}

/// A binary batch is taken with any well-formed query; it is scored where its
/// rows have no fault, and refused with the fault where they have one.
pub proof fn law_binary_batch_call(
    q: &QueryI8,
    payload: &[u8],
    lens: &[i64],
    cpu: CpuFeatures,
    r: Result<Vec<Vec<i32>>, DocsError>,
)
    requires
        q.wf(),
    ensures
        call_requires(docs::maxsim_docs, (q, payload, lens, cpu)),
        call_ensures(docs::maxsim_docs, (q, payload, lens, cpu), r) ==> match r {
            Ok(out) => docs::binary_rows_fault(
                lens@,
                q.dim as int / 8,
                payload@.len() as int,
            ) is None && docs::is_binary_batch(q, payload@, lens@, out@),
            Err(e) => docs::binary_rows_fault(lens@, q.dim as int / 8, payload@.len() as int)
                == Some(e),
        },
{
}

/// A residual batch is taken with any well-formed query, a whole centroid
/// matrix and sixteen weights; it is scored where its rows have no fault, and
/// refused with the fault where they have one.
pub proof fn law_residual_batch_call(
    q: &QueryI8,
    codes: &[u8],
    cids: &[u32],
    cdot_t: &[u32],
    n_centroids: usize,
    lens: &[i64],
    weights: &[i8],
    lut_scale: u32,
    cpu: CpuFeatures,
    r: Result<Vec<ResidualTerms>, DocsError>,
)
    requires
        q.wf(),
        q.dim <= 133_144,
        cdot_t@.len() == n_centroids * q.sums@.len(),
        weights@.len() == 16,
        cids@.len() * q.sums@.len() <= usize::MAX,
    ensures
        call_requires(
            docs::maxsim_docs_r4,
            (q, codes, cids, cdot_t, n_centroids, lens, weights, lut_scale, cpu),
        ),
        call_ensures(
            docs::maxsim_docs_r4,
            (q, codes, cids, cdot_t, n_centroids, lens, weights, lut_scale, cpu),
            r,
        ) ==> match r {
            Ok(out) => docs::residual_rows_fault(
                lens@,
                q.dim as int / 2,
                codes@.len() as int,
                cids@,
                n_centroids as int,
                weights@,
            ) is None && docs::is_residual_batch(
                q,
                weights@,
                lut_scale,
                codes@,
                cids@,
                cdot_t@,
                lens@,
                out@,
            ),
            Err(e) => docs::residual_rows_fault(
                lens@,
                q.dim as int / 2,
                codes@.len() as int,
                cids@,
                n_centroids as int,
                weights@,
            ) == Some(e),
        },
{
}

/// The shapes of a batch are accepted where they have no fault, and refused
/// with the first fault where they have one.
pub proof fn law_shape_calls(
    b: &BinaryShapes,
    rb: Result<(), DocsError>,
    s: &ResidualShapes,
    rs: Result<(), DocsError>,
)
    ensures
        call_requires(BinaryShapes::check, (b,)),
        call_requires(ResidualShapes::check, (s,)),
        call_ensures(BinaryShapes::check, (b,), rb) ==> match rb {
            Ok(_) => b.fault() is None,
            Err(e) => b.fault() == Some(e),
        },
        call_ensures(ResidualShapes::check, (s,), rs) ==> match rs {
            Ok(_) => s.fault() is None,
            Err(e) => s.fault() == Some(e),
        },
{
}

/// Quantizing takes whole rows of any patterns, and gives a well-formed query
/// of their codes.
pub proof fn law_quantize_call(
    magnitudes: &[u32],
    scales: &[u32],
    quotients: &[u32],
    dim: usize,
    q: QueryI8,
)
    requires
        0 < dim <= 16_909_320,
        dim % 8 == 0,
        magnitudes@.len() > 0,
        scales@.len() == magnitudes@.len(),
        quotients@.len() == magnitudes@.len() * dim,
        dim == 128 ==> quotients@.len() + 128 <= usize::MAX,
    ensures
        call_requires(query::quantize_query_i8, (magnitudes, scales, quotients, dim)),
        call_ensures(query::quantize_query_i8, (magnitudes, scales, quotients, dim), q) ==> q.wf()
            && q.is_quantized(magnitudes@, scales@, quotients@, dim as int),
{
}

/// A quantized query's code of an entry whose row has a magnitude above zero is
/// the integer nearest to the quotient, the even one of two equally near, and
/// the nearer end beyond `-127 ..= 127`; a quotient that is no number, and every
/// entry of another row, has the code zero.
pub proof fn law_quantize_gives_nearest_codes(
    magnitudes: &[u32],
    scales: &[u32],
    quotients: &[u32],
    dim: usize,
    q: QueryI8,
    i: int,
)
    requires
        call_ensures(query::quantize_query_i8, (magnitudes, scales, quotients, dim), q),
        0 <= i < quotients@.len(),
    ensures
        q.dim == dim,
        q.values@.len() == quotients@.len(),
        !(0 < magnitudes@[i / dim as int] <= 0x7f80_0000) ==> q.values@[i] == 0,
        quotients@[i] % 0x8000_0000 > 0x7f80_0000 ==> q.values@[i] == 0,
        0 < magnitudes@[i / dim as int] <= 0x7f80_0000 && quotients@[i] % 0x8000_0000 <= 0x7f80_0000
            ==> ({
            let one = pow2(149) as int;
            let value = binary32::scaled(quotients@[i]);
            let code = q.values@[i] as int;
            &&& value >= 127 * one ==> code == 127
            &&& value <= -127 * one ==> code == -127
            &&& -127 * one <= value <= 127 * one ==> -one <= 2 * (value - code * one) <= one
            &&& -127 * one <= value <= 127 * one && (2 * (value - code * one) == one || 2 * (value
                - code * one) == -one) ==> code % 2 == 0
        }),
{
    plain::law_quantized_code(&q, magnitudes@, scales@, quotients@, dim as int, i);
    plain::law_quantized_rows(&q, magnitudes@, scales@, quotients@, dim as int);
}

/// The magnitudes of whole rows are taken of any patterns, one a row.
pub proof fn law_magnitudes_call(x: &[u32], dim: usize, magnitudes: Vec<u32>, r: int)
    requires
        dim > 0,
        x@.len() % dim as nat == 0,
        0 <= r,
        (r + 1) * dim <= x@.len(),
    ensures
        call_requires(query::row_magnitudes, (x, dim)),
        call_ensures(query::row_magnitudes, (x, dim), magnitudes) ==> magnitudes@.len()
            == x@.len() / dim as nat && 0 <= r < magnitudes@.len() && query::is_row_magnitude(
            model::chunk(x@, dim as int, r),
            magnitudes@[r],
        ),
{
    let n = x@.len() as int / dim as int;
    vstd::arithmetic::div_mod::lemma_fundamental_div_mod(x@.len() as int, dim as int);
    assert(r < n) by (nonlinear_arith)
        requires
            (r + 1) * dim <= x@.len(),
            x@.len() == dim * n,
            dim > 0,
    ;
}

/// Packing takes whole rows of any patterns; unpacking takes any bytes and
/// gives +1 for each digit that is one and -1 for each that is zero, of whole
/// rows.
pub proof fn law_packing_calls(
    x: &[u32],
    packed: Vec<u8>,
    bits: &[u8],
    unpacked: Vec<i8>,
    dim: usize,
    d: int,
)
    requires
        dim > 0,
        dim % 8 == 0,
        x@.len() % dim as nat == 0,
        8 * bits@.len() <= usize::MAX,
        0 <= d,
    ensures
        call_requires(signs::binarize, (x, dim)),
        call_ensures(signs::binarize, (x, dim), packed) ==> signs::is_binarized(x@, packed@),
        call_requires(signs::signs_pm1, (bits, dim)),
        call_ensures(signs::signs_pm1, (bits, dim), unpacked) ==> unpacked@.len() == (bits@.len()
            / (dim as nat / 8)) * dim && (d < unpacked@.len() ==> unpacked@[d] == if (bits@[d
            / 8] as int / pow2((7 - d % 8) as nat) as int) % 2 == 1 {
            1int
        } else {
            -1int
        }),
{
    plain::law_sign_is_digit(bits@, d);
}

/// What is told of patterns, and what they round to.
pub proof fn law_pattern_calls(a: u32, b: u32, m: u32, number: bool, above: bool, more: bool, c: i8)
    ensures
        call_requires(binary32::magnitude, (a,)),
        call_requires(binary32::is_number, (a,)),
        call_requires(binary32::positive, (a,)),
        call_requires(binary32::greater, (a, b)),
        call_requires(binary32::round_code, (a,)),
        call_ensures(binary32::magnitude, (a,), m) ==> m == a % 0x8000_0000,
        call_ensures(binary32::is_number, (a,), number) ==> number == (a % 0x8000_0000
            <= 0x7f80_0000),
        call_ensures(binary32::positive, (a,), above) ==> above == (0 < a <= 0x7f80_0000),
        call_ensures(binary32::greater, (a, b), more) ==> more == (a % 0x8000_0000 <= 0x7f80_0000
            && b % 0x8000_0000 <= 0x7f80_0000 && binary32::scaled(a) > binary32::scaled(b)),
        call_ensures(binary32::round_code, (a,), c) ==> c == binary32::code_of(a),
{
    plain::law_kinds_of_patterns(a);
    plain::law_order_of_patterns(a, b);
}

/// Each fault has its message.
pub proof fn law_message_call(e: &DocsError, m: &'static str)
    ensures
        call_requires(DocsError::message, (e,)),
        call_ensures(DocsError::message, (e,), m) ==> m@ == e.text(),
{
}

} // verus!
