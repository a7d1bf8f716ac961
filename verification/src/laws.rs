//! What holds of scores, codes and layouts beyond any one function.

use crate::binary32;
use crate::docs;
use crate::model;
use crate::neon;
use crate::query;
use crate::query::QueryI8;
use crate::residual;
use crate::residual::ResidualTerms;
use crate::signs;
use crate::sums;
use vstd::prelude::*;

verus! {

/// The dot product with signs needs no decompression: it is twice the sum of
/// the codes at set bits, less the sum of all codes.
pub proof fn law_two_p_minus_t(row: Seq<i8>, tok: Seq<u8>)
    ensures
        model::signed_dot(row, tok) == 2 * model::selected_sum(row, tok) - model::row_sum(row),
{
    model::lemma_two_p_minus_t(row, tok, row.len() as int);
}

/// Code times one of two weights, by the bit of each dimension.
pub open spec fn two_weight_terms(row: Seq<i8>, tok: Seq<u8>, w0: int, w1: int) -> spec_fn(
    int,
) -> int {
    |d: int|
        row[d] * if model::bit_at(tok, d) {
            w1
        } else {
            w0
        }
}

/// With any two weights in place of -1 and +1 the dot product is
/// `(w1 - w0) * P + w0 * T`.
pub proof fn law_two_weights(row: Seq<i8>, tok: Seq<u8>, w0: int, w1: int)
    ensures
        sums::sum(row.len() as int, two_weight_terms(row, tok, w0, w1)) == (w1 - w0)
            * model::selected_sum(row, tok) + w0 * model::row_sum(row),
{
    let n = row.len() as int;
    let a = |d: int| (w1 - w0) * model::selected_terms(row, tok)(d);
    let b = |d: int| w0 * model::codes_of(row)(d);
    sums::lemma_sum_scale(n, w1 - w0, model::selected_terms(row, tok), a);
    sums::lemma_sum_scale(n, w0, model::codes_of(row), b);
    assert forall|d: int| 0 <= d < n implies #[trigger] two_weight_terms(row, tok, w0, w1)(d) == a(
        d,
    ) + b(d) by {
        let v = row[d] as int;
        assert(v * w1 == (w1 - w0) * v + w0 * v) by (nonlinear_arith);
        assert(v * w0 == (w1 - w0) * 0 + w0 * v) by (nonlinear_arith);
    }
    sums::lemma_sum_add(n, a, b, two_weight_terms(row, tok, w0, w1));
}

/// A binary token is a residual token whose table holds -1 and +1, wherever it
/// holds them: entry `a` of the table is -1 and stands for a clear bit, entry
/// `b` is +1 and stands for a set one.
pub proof fn law_binary_is_residual(
    row: Seq<i8>,
    tok: Seq<u8>,
    lut: Seq<i8>,
    codes: Seq<u8>,
    a: int,
    b: int,
)
    requires
        lut.len() == 16,
        0 <= a < 16,
        0 <= b < 16,
        lut[a] == -1,
        lut[b] == 1,
        forall|d: int|
            0 <= d < row.len() ==> #[trigger] model::nibble_at(codes, d) == if model::bit_at(
                tok,
                d,
            ) {
                b
            } else {
                a
            },
    ensures
        model::residual_dot(row, lut, codes) == model::signed_dot(row, tok),
{
    let f = model::residual_terms(row, lut, codes);
    let g = model::signed_terms(row, tok);
    assert forall|d: int| 0 <= d < row.len() implies #[trigger] f(d) == g(d) by {
        assert(model::nibble_at(codes, d) == if model::bit_at(tok, d) {
            b
        } else {
            a
        });
    }
    sums::lemma_sum_eq(row.len() as int, f, g);
}

/// Code times decoded value: a centroid's entry plus a looked-up weight.
pub open spec fn decoded_terms(
    row: Seq<i8>,
    centroid: Seq<int>,
    lut: Seq<i8>,
    tok: Seq<u8>,
) -> spec_fn(int) -> int {
    |d: int| row[d] * (centroid[d] + lut[model::nibble_at(tok, d)])
}

/// Code times centroid entry.
pub open spec fn centroid_terms(row: Seq<i8>, centroid: Seq<int>) -> spec_fn(int) -> int {
    |d: int| row[d] * centroid[d]
}

/// The dot product with a decoded token is the centroid's dot product plus the
/// residual one, so no token is ever decoded.
pub proof fn law_table_identity(row: Seq<i8>, centroid: Seq<int>, lut: Seq<i8>, tok: Seq<u8>)
    ensures
        sums::sum(row.len() as int, decoded_terms(row, centroid, lut, tok)) == sums::sum(
            row.len() as int,
            centroid_terms(row, centroid),
        ) + model::residual_dot(row, lut, tok),
{
    let n = row.len() as int;
    assert forall|d: int| 0 <= d < n implies #[trigger] decoded_terms(row, centroid, lut, tok)(d)
        == centroid_terms(row, centroid)(d) + model::residual_terms(row, lut, tok)(d) by {
        let v = row[d] as int;
        let c = centroid[d];
        let w = lut[model::nibble_at(tok, d)] as int;
        assert(v * (c + w) == v * c + v * w) by (nonlinear_arith);
    }
    sums::lemma_sum_add(
        n,
        centroid_terms(row, centroid),
        model::residual_terms(row, lut, tok),
        decoded_terms(row, centroid, lut, tok),
    );
}

/// The best score over at least one token is the score of one of them, and no
/// token has a larger one.
pub proof fn law_best_is_maximum(row: Seq<i8>, bits: Seq<u8>, n: int)
    requires
        model::symmetric(row),
        row.len() <= query::MAX_DIM,
        0 < n,
    ensures
        exists|d: int|
            0 <= d < n && model::best_score(row, bits, n) == model::signed_dot(
                row,
                #[trigger] model::chunk(bits, row.len() as int / 8, d),
            ),
        forall|d: int|
            0 <= d < n ==> model::signed_dot(
                row,
                #[trigger] model::chunk(bits, row.len() as int / 8, d),
            ) <= model::best_score(row, bits, n),
    decreases n,
{
    let pd = row.len() as int / 8;
    let last = model::chunk(bits, pd, n - 1);
    model::lemma_row_bounds(row, last, row.len() as int);
    reveal_with_fuel(model::best_score, 2);
    assert(n == 1 ==> model::best_score(row, bits, n) == model::signed_dot(row, last));
    if n > 1 {
        law_best_is_maximum(row, bits, n - 1);
        if model::best_score(row, bits, n) != model::signed_dot(row, last) {
            let d = choose|d: int|
                0 <= d < n - 1 && model::best_score(row, bits, n - 1) == model::signed_dot(
                    row,
                    #[trigger] model::chunk(bits, pd, d),
                );
            assert(model::best_score(row, bits, n) == model::signed_dot(
                row,
                model::chunk(bits, pd, d),
            ));
        }
    }
}

/// The best score over two documents' tokens is the better of the two.
pub proof fn law_best_of_joined(row: Seq<i8>, a: Seq<u8>, na: int, b: Seq<u8>, nb: int)
    requires
        0 <= na,
        0 <= nb,
        a.len() == na * (row.len() as int / 8),
        b.len() == nb * (row.len() as int / 8),
    ensures
        model::best_score(row, a + b, na + nb) == model::max(
            model::best_score(row, a, na),
            model::best_score(row, b, nb),
        ),
    decreases nb,
{
    let pd = row.len() as int / 8;
    if nb > 0 {
        let shorter = b.subrange(0, (nb - 1) * pd);
        model::lemma_chunk_fits(nb, pd, nb - 1);
        law_best_of_joined(row, a, na, shorter, nb - 1);
        lemma_best_prefix(row, b, shorter, nb - 1);
        assert((na + nb - 1) * pd == na * pd + (nb - 1) * pd) by (nonlinear_arith);
        lemma_best_prefix(row, a + b, a + shorter, na + nb - 1);
        assert(model::chunk(a + b, pd, na + nb - 1) =~= model::chunk(b, pd, nb - 1));
    } else {
        assert(nb * pd == 0) by (nonlinear_arith)
            requires
                nb == 0,
        ;
        assert(a + b =~= a);
        lemma_best_at_least_min(row, a, na);
    }
}

proof fn lemma_best_at_least_min(row: Seq<i8>, bits: Seq<u8>, n: int)
    ensures
        model::best_score(row, bits, n) >= i32::MIN,
    decreases n,
{
    if n > 0 {
        lemma_best_at_least_min(row, bits, n - 1);
    }
}

/// The best score over the first tokens depends on their bytes alone.
proof fn lemma_best_prefix(row: Seq<i8>, bits: Seq<u8>, prefix: Seq<u8>, n: int)
    requires
        0 <= n,
        prefix.len() == n * (row.len() as int / 8),
        prefix.len() <= bits.len(),
        forall|i: int| 0 <= i < prefix.len() ==> prefix[i] == bits[i],
    ensures
        model::best_score(row, bits, n) == model::best_score(row, prefix, n),
{
    lemma_best_prefix_upto(row, bits, prefix, n, n);
}

proof fn lemma_best_prefix_upto(row: Seq<i8>, bits: Seq<u8>, prefix: Seq<u8>, n: int, k: int)
    requires
        0 <= k <= n,
        prefix.len() == n * (row.len() as int / 8),
        prefix.len() <= bits.len(),
        forall|i: int| 0 <= i < prefix.len() ==> prefix[i] == bits[i],
    ensures
        model::best_score(row, bits, k) == model::best_score(row, prefix, k),
    decreases k,
{
    if k > 0 {
        let pd = row.len() as int / 8;
        lemma_best_prefix_upto(row, bits, prefix, n, k - 1);
        model::lemma_chunk_fits(n, pd, k - 1);
        assert(model::chunk(bits, pd, k - 1) =~= model::chunk(prefix, pd, k - 1));
    }
}

/// A document is a bag of tokens: the order of two parts does not matter.
pub proof fn law_order_of_parts(row: Seq<i8>, a: Seq<u8>, na: int, b: Seq<u8>, nb: int)
    requires
        0 <= na,
        0 <= nb,
        a.len() == na * (row.len() as int / 8),
        b.len() == nb * (row.len() as int / 8),
    ensures
        model::best_score(row, a + b, na + nb) == model::best_score(row, b + a, nb + na),
{
    law_best_of_joined(row, a, na, b, nb);
    law_best_of_joined(row, b, nb, a, na);
}

/// Scoring a token again cannot change a maximum.
pub proof fn law_repeated_token(row: Seq<i8>, bits: Seq<u8>, n: int, d: int)
    requires
        model::symmetric(row),
        row.len() <= query::MAX_DIM,
        0 <= d < n,
        bits.len() == n * (row.len() as int / 8),
    ensures
        model::best_score(row, bits + model::chunk(bits, row.len() as int / 8, d), n + 1)
            == model::best_score(row, bits, n),
{
    let pd = row.len() as int / 8;
    let tok = model::chunk(bits, pd, d);
    model::lemma_chunk_fits(n, pd, d);
    assert(1 * pd == pd) by (nonlinear_arith);
    law_best_of_joined(row, bits, n, tok, 1);
    law_best_is_maximum(row, bits, n);
    assert(model::chunk(tok, pd, 0) =~= tok);
    reveal_with_fuel(model::best_score, 2);
    model::lemma_row_bounds(row, tok, row.len() as int);
    assert(model::signed_dot(row, model::chunk(bits, pd, d)) <= model::best_score(row, bits, n));
}

/// Whatever kernels give the scores of a binary document, they give the same.
pub proof fn law_binary_kernels_agree(q: &QueryI8, bits: Seq<u8>, a: Seq<i32>, b: Seq<i32>)
    requires
        q.is_maxsim(bits, a),
        q.is_maxsim(bits, b),
    ensures
        a == b,
{
    assert(a =~= b);
}

/// Whatever kernels give the terms of a residual document, they give the same.
pub proof fn law_residual_kernels_agree(
    q: &QueryI8,
    weights: Seq<i8>,
    lut_scale: u32,
    codes: Seq<u8>,
    cids: Seq<u32>,
    cdot_t: Seq<u32>,
    a: ResidualTerms,
    b: ResidualTerms,
)
    requires
        a.is_residual(q, weights, lut_scale, codes, cids, cdot_t),
        b.is_residual(q, weights, lut_scale, codes, cids, cdot_t),
    ensures
        a.nq == b.nq,
        a.lut_scale == b.lut_scale,
        a.dots@ == b.dots@,
        a.centroid@ == b.centroid@,
{
    assert(a.dots@ =~= b.dots@);
    assert(a.centroid@ =~= b.centroid@);
}

/// Biased codes at set bits, zero elsewhere.
pub open spec fn biased_terms(row: Seq<i8>, tok: Seq<u8>) -> spec_fn(int) -> int {
    |d: int|
        if model::bit_at(tok, d) {
            row[d] + 128
        } else {
            0
        }
}

/// With 128 added to every code, the sum at set bits is
/// `P + 128 * popcount`.
pub proof fn law_biased_sum(row: Seq<i8>, tok: Seq<u8>)
    ensures
        sums::sum(row.len() as int, biased_terms(row, tok)) == model::selected_sum(row, tok) + 128
            * sums::sum(row.len() as int, model::set_bits(tok)),
{
    let n = row.len() as int;
    let scaled = |d: int| 128 * model::set_bits(tok)(d);
    sums::lemma_sum_scale(n, 128, model::set_bits(tok), scaled);
    sums::lemma_sum_add(n, model::selected_terms(row, tok), scaled, biased_terms(row, tok));
}

/// With codes and weights within `-127 ..= 127`, the sum of two products never
/// leaves the range of an `i16`.
pub proof fn law_pair_sum_fits(v0: int, w0: int, v1: int, w1: int)
    requires
        -127 <= v0 <= 127,
        -127 <= w0 <= 127,
        -127 <= v1 <= 127,
        -127 <= w1 <= 127,
    ensures
        -32258 <= v0 * w0 + v1 * w1 <= 32258,
        i16::MIN <= v0 * w0 + v1 * w1 <= i16::MAX,
{
    model::lemma_product_bound(v0, w0);
    model::lemma_product_bound(v1, w1);
}

/// A row of zero codes scores zero against every token.
pub proof fn law_zero_row(row: Seq<i8>, tok: Seq<u8>, lut: Seq<i8>, codes: Seq<u8>)
    requires
        forall|d: int| 0 <= d < row.len() ==> #[trigger] row[d] == 0,
    ensures
        model::signed_dot(row, tok) == 0,
        model::residual_dot(row, lut, codes) == 0,
{
    assert forall|d: int| 0 <= d < row.len() implies #[trigger] model::signed_terms(row, tok)(d)
        == 0 by {
        let s = model::sign_at(tok, d);
        assert(row[d] == 0);
        assert(0 * s == 0) by (nonlinear_arith);
    }
    sums::lemma_sum_zero(row.len() as int, model::signed_terms(row, tok));
    assert forall|d: int|
        0 <= d < row.len() implies #[trigger] model::residual_terms(row, lut, codes)(d) == 0 by {
        let w = lut[model::nibble_at(codes, d)] as int;
        assert(row[d] == 0);
        assert(0 * w == 0) by (nonlinear_arith);
    }
    sums::lemma_sum_zero(row.len() as int, model::residual_terms(row, lut, codes));
}

/// Packing the signs that a packed row stands for gives the row back.
pub proof fn law_pack_of_unpacked(bits: Seq<u8>, x: Seq<u32>, packed: Seq<u8>)
    requires
        x.len() == 8 * bits.len(),
        forall|d: int|
            0 <= d < x.len() ==> binary32::is_positive(#[trigger] x[d]) == (model::sign_at(bits, d)
                == 1),
        signs::is_binarized(x, packed),
    ensures
        packed == bits,
{
    assert forall|k: int| 0 <= k < bits.len() implies packed[k] == bits[k] by {
        assert forall|j: int| 0 <= j < 8 implies model::bit(packed[k], j) == model::bit(
            bits[k],
            j,
        ) by {
            let d = 8 * k + j;
            assert(d / 8 == k && d % 8 == j);
            assert(model::bit_at(packed, d) == binary32::is_positive(x[d]));
        }
        signs::lemma_bits_determine(packed[k], bits[k]);
    }
    assert(packed =~= bits);
}

/// Unpacking packed numbers gives the sign of each, zero counting as negative.
pub proof fn law_unpack_of_packed(x: Seq<u32>, bits: Seq<u8>, d: int)
    requires
        signs::is_binarized(x, bits),
        0 <= d < x.len(),
    ensures
        model::sign_at(bits, d) == if binary32::is_positive(x[d]) {
            1int
        } else {
            -1int
        },
{
}

/// Where a quotient is a number within `-127 ..= 127`, its code is the nearest
/// integer, and the even one of two that are equally near.
pub proof fn law_code_is_nearest(b: u32)
    requires
        !binary32::is_nan(b),
        -127 * binary32::one() <= binary32::scaled(b) <= 127 * binary32::one(),
    ensures
        -binary32::one() <= 2 * (binary32::scaled(b) - binary32::code_of(b) * binary32::one())
            <= binary32::one(),
        2 * (binary32::scaled(b) - binary32::code_of(b) * binary32::one()) == binary32::one() || 2
            * (binary32::scaled(b) - binary32::code_of(b) * binary32::one()) == -binary32::one()
            ==> binary32::code_of(b) % 2 == 0,
{
    let v = binary32::scaled(b);
    let u = binary32::one();
    let f = v / u;
    let r = v % u;
    vstd::arithmetic::power2::lemma_pow2_pos(149);
    vstd::arithmetic::div_mod::lemma_fundamental_div_mod(v, u);
    vstd::arithmetic::div_mod::lemma_mod_bound(v, u);
    assert(u * f == f * u && (f + 1) * u == f * u + u) by (nonlinear_arith);
    let n = binary32::round_half_even(v, u);
    assert(-127 <= n <= 127) by {
        assert(-127 <= f) by (nonlinear_arith)
            requires
                -127 * u <= v,
                v == u * f + r,
                0 <= r < u,
        ;
        assert(f <= 127) by (nonlinear_arith)
            requires
                v <= 127 * u,
                v == u * f + r,
                0 <= r < u,
        ;
        if f == 127 {
            assert(r == 0);
        }
    }
}

/// Beyond `-127 ..= 127` a code is the nearer end.
pub proof fn law_code_is_clamped(b: u32)
    requires
        !binary32::is_nan(b),
    ensures
        binary32::scaled(b) >= 127 * binary32::one() ==> binary32::code_of(b) == 127,
        binary32::scaled(b) <= -127 * binary32::one() ==> binary32::code_of(b) == -127,
        -127 <= binary32::code_of(b) <= 127,
{
    let v = binary32::scaled(b);
    let u = binary32::one();
    let f = v / u;
    let r = v % u;
    vstd::arithmetic::power2::lemma_pow2_pos(149);
    vstd::arithmetic::div_mod::lemma_fundamental_div_mod(v, u);
    vstd::arithmetic::div_mod::lemma_mod_bound(v, u);
    if v >= 127 * u {
        assert(f >= 127) by (nonlinear_arith)
            requires
                v >= 127 * u,
                v == u * f + r,
                0 <= r < u,
        ;
    }
    if v <= -127 * u {
        assert(f < -127 || (f == -127 && r == 0)) by (nonlinear_arith)
            requires
                v <= -127 * u,
                v == u * f + r,
                0 <= r < u,
        ;
    }
}

/// A larger quotient has no smaller code.
pub proof fn law_code_is_monotone(a: u32, b: u32)
    requires
        !binary32::is_nan(a),
        !binary32::is_nan(b),
        binary32::scaled(a) <= binary32::scaled(b),
    ensures
        binary32::code_of(a) <= binary32::code_of(b),
{
    let u = binary32::one();
    let va = binary32::scaled(a);
    let vb = binary32::scaled(b);
    let fa = va / u;
    let fb = vb / u;
    vstd::arithmetic::power2::lemma_pow2_pos(149);
    vstd::arithmetic::div_mod::lemma_fundamental_div_mod(va, u);
    vstd::arithmetic::div_mod::lemma_fundamental_div_mod(vb, u);
    vstd::arithmetic::div_mod::lemma_mod_bound(va, u);
    vstd::arithmetic::div_mod::lemma_mod_bound(vb, u);
    vstd::arithmetic::div_mod::lemma_div_is_ordered(va, vb, u);
}

/// Quantization is odd: changing the sign of a quotient changes the sign of
/// its code.
pub proof fn law_code_is_odd(a: u32, b: u32)
    requires
        b == a + 0x8000_0000,
    ensures
        binary32::code_of(b) == -binary32::code_of(a),
{
    vstd::arithmetic::power2::lemma_pow2_pos(149);
    binary32::lemma_sign_ignored(b, a);
    binary32::lemma_round_negated(binary32::scaled(a), binary32::one());
}

/// A row has one magnitude.
pub proof fn law_magnitude_is_unique(row: Seq<u32>, a: u32, b: u32)
    requires
        query::is_row_magnitude(row, a),
        query::is_row_magnitude(row, b),
    ensures
        a == b,
{
    lemma_magnitude_at_most(row, a, b);
    lemma_magnitude_at_most(row, b, a);
}

proof fn lemma_magnitude_at_most(row: Seq<u32>, a: u32, b: u32)
    requires
        query::is_row_magnitude(row, a),
        query::is_row_magnitude(row, b),
    ensures
        b <= a,
{
    if a < b {
        binary32::lemma_abs_increases(a, b);
        let d = choose|d: int|
            0 <= d < row.len() && !binary32::is_nan(#[trigger] row[d]) && b == row[d] % 0x8000_0000;
        binary32::lemma_sign_ignored(row[d], b);
    }
}

/// Quotients and remainders of a place in the plane-major layout.
proof fn lemma_plane_place(qi: int, p: int, k: int)
    requires
        0 <= qi,
        0 <= p < 8,
        0 <= k < 16,
    ensures
        (qi * 128 + p * 16 + k) / 128 == qi,
        (qi * 128 + p * 16 + k) % 16 == k,
        ((qi * 128 + p * 16 + k) % 128) / 16 == p,
{
}

/// Where the plane-major layout holds the code of dimension `8k + p`.
pub proof fn law_plane_layout(q: &QueryI8, qi: int, p: int, k: int)
    requires
        q.wf(),
        q.dim == 128,
        0 <= qi < q.nq(),
        0 <= p < 8,
        0 <= k < 16,
    ensures
        q.planes@[qi * 128 + p * 16 + k] == q.values@[qi * 128 + k * 8 + p],
{
    lemma_plane_place(qi, p, k);
}

/// Quotients and remainders of a place in the pair-major layout.
proof fn lemma_pair_place(p: int, i: int, h: int, j: int)
    requires
        0 <= p,
        0 <= i < 16,
        0 <= h < 2,
        0 <= j < 8,
    ensures
        (p * 256 + i * 16 + h * 8 + j) / 256 == p,
        ((p * 256 + i * 16 + h * 8 + j) % 256) / 16 == i,
        ((p * 256 + i * 16 + h * 8 + j) % 16) / 8 == h,
        (p * 256 + i * 16 + h * 8 + j) % 8 == j,
{
    let n = p * 256 + i * 16 + h * 8 + j;
    let r = i * 16 + h * 8 + j;
    vstd::arithmetic::div_mod::lemma_fundamental_div_mod_converse(n, 256, p, r);
    vstd::arithmetic::div_mod::lemma_fundamental_div_mod_converse(r, 16, i, h * 8 + j);
    vstd::arithmetic::div_mod::lemma_fundamental_div_mod_converse(n, 16, 16 * p + i, h * 8 + j);
    vstd::arithmetic::div_mod::lemma_fundamental_div_mod_converse(n, 8, 32 * p + 2 * i + h, j);
}

/// Where the pair-major layout holds plane byte `8i + j` of each row of a pair:
/// half `h` is of row `2p + h`, or of the last row where there is none such.
pub proof fn law_pair_layout(q: &QueryI8, p: int, i: int, h: int, j: int)
    requires
        q.wf(),
        q.dim == 128,
        0 <= p < (q.nq() + 1) / 2,
        0 <= i < 16,
        0 <= h < 2,
        0 <= j < 8,
    ensures
        q.planes_smmla@[p * 256 + i * 16 + h * 8 + j] == q.planes@[query::paired_row(q.nq(), p, h)
            * 128 + i * 8 + j],
{
    lemma_pair_place(p, i, h, j);
}

/// Quotients and remainders of a place in the even-then-odd layout.
proof fn lemma_even_odd_place(qi: int, g: int, h: int, k: int)
    requires
        0 <= qi,
        0 <= g < 2,
        0 <= h < 2,
        0 <= k < 32,
    ensures
        (qi * 128 + g * 64 + h * 32 + k) / 64 == qi * 2 + g,
        ((qi * 128 + g * 64 + h * 32 + k) % 64) / 32 == h,
        (qi * 128 + g * 64 + h * 32 + k) % 32 == k,
{
}

/// Where the even-then-odd layout holds the codes of dimensions `2k` (`h` is
/// 0) and `2k + 1` (`h` is 1) of a group of 64.
pub proof fn law_even_odd_layout(q: &QueryI8, qi: int, g: int, h: int, k: int)
    requires
        q.wf(),
        q.dim == 128,
        0 <= qi < q.nq(),
        0 <= g < 2,
        0 <= h < 2,
        0 <= k < 32,
    ensures
        q.perm4@[qi * 128 + g * 64 + h * 32 + k] == q.values@[qi * 128 + g * 64 + 2 * k + h],
{
    lemma_even_odd_place(qi, g, h, k);
}

/// Code times bit, the bit as 0 or 1.
pub open spec fn zero_one_terms(row: Seq<i8>, tok: Seq<u8>) -> spec_fn(int) -> int {
    |d: int| row[d] * model::set_bits(tok)(d)
}

/// `P` is the dot product with the bits as 0 and 1.
pub proof fn law_zero_one_dot(row: Seq<i8>, tok: Seq<u8>)
    ensures
        sums::sum(row.len() as int, zero_one_terms(row, tok)) == model::selected_sum(row, tok),
{
    assert forall|d: int| 0 <= d < row.len() implies #[trigger] zero_one_terms(row, tok)(d)
        == model::selected_terms(row, tok)(d) by {
        let v = row[d] as int;
        assert(v * 1 == v && v * 0 == 0) by (nonlinear_arith);
    }
    sums::lemma_sum_eq(row.len() as int, zero_one_terms(row, tok), model::selected_terms(row, tok));
}

/// A query's plane-major row meets the bits of an expanded token in the same
/// order: their dot product is `P`.
pub proof fn law_plane_order(q: &QueryI8, qi: int, tok: Seq<u8>, m: Seq<i8>)
    requires
        q.wf(),
        q.dim == 128,
        0 <= qi < q.nq(),
        tok.len() == 16,
        neon::is_expanded(tok, m),
    ensures
        sums::sum(128, model::products(model::chunk(q.planes@, 128, qi), m))
            == model::selected_sum(q.row(qi), tok),
{
    q.lemma_row(qi);
    neon::lemma_plane_row(q, qi);
    neon::lemma_plane_dot(q.row(qi), model::chunk(q.planes@, 128, qi), tok, m);
}

/// A query's even-then-odd row meets the weights of a token in the order in
/// which they are looked up: their dot product is the residual one.
pub proof fn law_even_odd_order(q: &QueryI8, qi: int, lut: Seq<i8>, tok: Seq<u8>, w: Seq<i8>)
    requires
        q.wf(),
        q.dim == 128,
        0 <= qi < q.nq(),
        residual::is_looked_up(lut, tok, w),
    ensures
        sums::sum(128, model::products(model::chunk(q.perm4@, 128, qi), w))
            == model::residual_dot(q.row(qi), lut, tok),
{
    q.lemma_row(qi);
    residual::lemma_perm_row(q, qi);
    residual::lemma_even_odd_dot(q.row(qi), model::chunk(q.perm4@, 128, qi), lut, tok, w);
}

/// A row of scores has one best.
pub proof fn law_best_score_is_unique(col: Seq<u32>, a: u32, b: u32)
    requires
        residual::is_best(col, a),
        residual::is_best(col, b),
    ensures
        a == b,
{
    if a != binary32::NEG_INFINITY {
        let i = choose|d: int| #[trigger] residual::is_first_best(col, a, d);
        assert(!binary32::is_greater(col[i], b));
        if b != binary32::NEG_INFINITY {
            let j = choose|d: int| #[trigger] residual::is_first_best(col, b, d);
            assert(!binary32::is_greater(col[j], a));
            if i < j {
                assert(binary32::is_greater(b, col[i]));
            } else if j < i {
                assert(binary32::is_greater(a, col[j]));
            }
        }
    } else if b != binary32::NEG_INFINITY {
        let j = choose|d: int| #[trigger] residual::is_first_best(col, b, d);
        assert(!binary32::is_greater(col[j], a));
    }
}

/// The parts of the first `i` documents, one after another.
pub open spec fn joined_parts<T>(s: Seq<T>, n: int, lens: Seq<i64>, i: int) -> Seq<T>
    decreases i,
{
    if i <= 0 {
        Seq::empty()
    } else {
        joined_parts(s, n, lens, i - 1) + docs::doc_part(s, n, lens, i - 1)
    }
}

/// The documents of a batch that is accepted cover its rows once each, in
/// order.
pub proof fn law_parts_cover<T>(s: Seq<T>, n: int, lens: Seq<i64>)
    requires
        !docs::has_empty_doc(lens),
        0 <= n,
        s.len() == docs::total_rows(lens) * n,
    ensures
        joined_parts(s, n, lens, lens.len() as int) == s,
{
    lemma_joined_prefix(s, n, lens, lens.len() as int);
    assert(s.subrange(0, s.len() as int) =~= s);
}

proof fn lemma_joined_prefix<T>(s: Seq<T>, n: int, lens: Seq<i64>, i: int)
    requires
        !docs::has_empty_doc(lens),
        0 <= n,
        0 <= i <= lens.len(),
        s.len() == docs::total_rows(lens) * n,
    ensures
        0 <= docs::first_row(lens, i) * n <= s.len(),
        joined_parts(s, n, lens, i) == s.subrange(0, docs::first_row(lens, i) * n),
    decreases i,
{
    if i > 0 {
        lemma_joined_prefix(s, n, lens, i - 1);
        docs::lemma_doc_part(lens, i - 1, n);
        assert(lens[i - 1] * n >= 0) by (nonlinear_arith)
            requires
                lens[i - 1] > 0,
                n >= 0,
        ;
        assert(joined_parts(s, n, lens, i) =~= s.subrange(0, docs::first_row(lens, i) * n));
    } else {
        assert(0 * n == 0) by (nonlinear_arith);
        assert(0 <= docs::total_rows(lens) * n);
        assert(joined_parts(s, n, lens, i) =~= s.subrange(0, docs::first_row(lens, i) * n));
    }
}

/// A batch of one document is that document.
pub proof fn law_single_document<T>(s: Seq<T>, n: int, lens: Seq<i64>)
    requires
        lens.len() == 1,
        !docs::has_empty_doc(lens),
        0 <= n,
        s.len() == docs::total_rows(lens) * n,
    ensures
        docs::doc_part(s, n, lens, 0) == s,
{
    assert(0 * n == 0) by (nonlinear_arith);
    assert(docs::doc_part(s, n, lens, 0) =~= s);
}

/// A document is a bag of tokens: two documents that hold the same tokens, in
/// whatever order and however often, have the same best score.
pub proof fn law_binary_bag(row: Seq<i8>, a: Seq<u8>, na: int, b: Seq<u8>, nb: int)
    requires
        model::symmetric(row),
        row.len() <= query::MAX_DIM,
        0 < na,
        0 < nb,
        forall|d: int|
            0 <= d < na ==> has_token(
                b,
                nb,
                row.len() as int / 8,
                #[trigger] model::chunk(a, row.len() as int / 8, d),
            ),
        forall|d: int|
            0 <= d < nb ==> has_token(
                a,
                na,
                row.len() as int / 8,
                #[trigger] model::chunk(b, row.len() as int / 8, d),
            ),
    ensures
        model::best_score(row, a, na) == model::best_score(row, b, nb),
{
    lemma_best_of_fewer(row, a, na, b, nb);
    lemma_best_of_fewer(row, b, nb, a, na);
}

/// One of the first `n` tokens of `pd` bytes is `tok`.
pub open spec fn has_token(bits: Seq<u8>, n: int, pd: int, tok: Seq<u8>) -> bool {
    exists|e: int| 0 <= e < n && #[trigger] model::chunk(bits, pd, e) == tok
}

proof fn lemma_best_of_fewer(row: Seq<i8>, a: Seq<u8>, na: int, b: Seq<u8>, nb: int)
    requires
        model::symmetric(row),
        row.len() <= query::MAX_DIM,
        0 < na,
        0 < nb,
        forall|d: int|
            0 <= d < na ==> has_token(
                b,
                nb,
                row.len() as int / 8,
                #[trigger] model::chunk(a, row.len() as int / 8, d),
            ),
    ensures
        model::best_score(row, a, na) <= model::best_score(row, b, nb),
{
    let pd = row.len() as int / 8;
    law_best_is_maximum(row, a, na);
    law_best_is_maximum(row, b, nb);
    let d = choose|d: int|
        0 <= d < na && model::best_score(row, a, na) == model::signed_dot(
            row,
            #[trigger] model::chunk(a, pd, d),
        );
    assert(has_token(b, nb, pd, model::chunk(a, pd, d)));
    let e = choose|e: int|
        0 <= e < nb && #[trigger] model::chunk(b, pd, e) == model::chunk(a, pd, d);
    assert(model::signed_dot(row, model::chunk(b, pd, e)) <= model::best_score(row, b, nb));
}

/// The bits of a complemented byte.
proof fn lemma_complemented_bit(b: u8, j: int)
    requires
        0 <= j < 8,
    ensures
        model::bit(!b, j) == !model::bit(b, j),
{
    let k = (7 - j) as u8;
    assert(((!b) >> k) & 1u8 == 1u8 <==> !((b >> k) & 1u8 == 1u8)) by (bit_vector)
        requires
            k < 8u8,
    ;
}

/// A negated row has with the complement of a token the dot product that the
/// row has with the token.
pub proof fn law_negated_dot(row: Seq<i8>, tok: Seq<u8>, negated: Seq<i8>, complement: Seq<u8>)
    requires
        negated.len() == row.len(),
        forall|d: int| 0 <= d < row.len() ==> #[trigger] negated[d] == -row[d],
        complement.len() == tok.len(),
        row.len() <= tok.len() * 8,
        forall|i: int| 0 <= i < tok.len() ==> #[trigger] complement[i] == !tok[i],
    ensures
        model::signed_dot(negated, complement) == model::signed_dot(row, tok),
{
    let f = model::signed_terms(negated, complement);
    let g = model::signed_terms(row, tok);
    assert forall|d: int| 0 <= d < row.len() implies #[trigger] f(d) == g(d) by {
        assert(complement[d / 8] == !tok[d / 8]);
        lemma_complemented_bit(tok[d / 8], d % 8);
        let v = row[d] as int;
        assert(negated[d] == -v);
        assert((-v) * -1 == v * 1 && (-v) * 1 == v * -1) by (nonlinear_arith);
    }
    sums::lemma_sum_eq(row.len() as int, f, g);
}

proof fn lemma_negated_best(
    row: Seq<i8>,
    bits: Seq<u8>,
    negated: Seq<i8>,
    complement: Seq<u8>,
    count: int,
    n: int,
)
    requires
        row.len() % 8 == 0,
        negated.len() == row.len(),
        forall|d: int| 0 <= d < row.len() ==> #[trigger] negated[d] == -row[d],
        complement.len() == bits.len(),
        0 <= n <= count,
        count * (row.len() as int / 8) <= bits.len(),
        forall|i: int| 0 <= i < bits.len() ==> #[trigger] complement[i] == !bits[i],
    ensures
        model::best_score(negated, complement, n) == model::best_score(row, bits, n),
    decreases n,
{
    if n > 0 {
        let pd = row.len() as int / 8;
        lemma_negated_best(row, bits, negated, complement, count, n - 1);
        model::lemma_chunk_fits(count, pd, n - 1);
        law_negated_dot(
            row,
            model::chunk(bits, pd, n - 1),
            negated,
            model::chunk(complement, pd, n - 1),
        );
    }
}

/// `b` holds the codes of `a` with their signs changed.
pub open spec fn are_negated(a: Seq<i8>, b: Seq<i8>) -> bool {
    &&& b.len() == a.len()
    &&& forall|i: int| 0 <= i < a.len() ==> #[trigger] b[i] == -a[i]
}

/// A query of negated codes scores a document of complemented bits as the query
/// scores the document.
pub proof fn law_negated_query(
    q: &QueryI8,
    negated: &QueryI8,
    bits: Seq<u8>,
    complement: Seq<u8>,
    a: Seq<i32>,
    b: Seq<i32>,
)
    requires
        q.wf(),
        negated.wf(),
        negated.dim == q.dim,
        are_negated(q.values@, negated.values@),
        complement.len() == bits.len(),
        forall|i: int| 0 <= i < bits.len() ==> #[trigger] complement[i] == !bits[i],
        q.is_maxsim(bits, a),
        negated.is_maxsim(complement, b),
    ensures
        a == b,
{
    let pd = q.dim as int / 8;
    let n = bits.len() as int / pd;
    lemma_same_count(q.nq(), negated.nq(), q.dim as int);
    model::lemma_whole_rows(bits.len() as int, pd);
    assert forall|qi: int| 0 <= qi < q.nq() implies #[trigger] a[qi] == b[qi] by {
        q.lemma_row(qi);
        negated.lemma_row(qi);
        lemma_negated_best(q.row(qi), bits, negated.row(qi), complement, n, n);
    }
    assert(a =~= b);
}

/// `b` is `a` with its sign changed: the patterns differ in the sign bit alone,
/// or neither encodes a number.
pub open spec fn is_negation(a: u32, b: u32) -> bool {
    ||| b == a + 0x8000_0000
    ||| a == b + 0x8000_0000
    ||| binary32::is_nan(a) && binary32::is_nan(b)
}

/// A row and its negation have the same magnitude.
pub proof fn law_negated_magnitude(row: Seq<u32>, negated: Seq<u32>, a: u32, b: u32)
    requires
        negated.len() == row.len(),
        forall|d: int| 0 <= d < row.len() ==> is_negation(#[trigger] row[d], negated[d]),
        query::is_row_magnitude(row, a),
        query::is_row_magnitude(negated, b),
    ensures
        a == b,
{
    assert forall|d: int| 0 <= d < row.len() && !binary32::is_nan(#[trigger] row[d]) implies
        binary32::scaled_abs(row[d]) <= binary32::scaled(b) by {
        lemma_negation_ignored(row[d], negated[d]);
        assert(!binary32::is_nan(negated[d]));
    }
    if b != 0 {
        let d = choose|d: int|
            0 <= d < negated.len() && !binary32::is_nan(#[trigger] negated[d]) && b == negated[d]
                % 0x8000_0000;
        lemma_negation_ignored(row[d], negated[d]);
        assert(b == row[d] % 0x8000_0000);
    }
    assert(query::is_row_magnitude(row, b));
    law_magnitude_is_unique(row, a, b);
}

/// A change of sign leaves the other bits as they are.
proof fn lemma_negation_ignored(a: u32, b: u32)
    requires
        is_negation(a, b),
    ensures
        binary32::is_nan(a) == binary32::is_nan(b),
        !binary32::is_nan(a) ==> a % 0x8000_0000 == b % 0x8000_0000 && binary32::scaled_abs(a)
            == binary32::scaled_abs(b),
{
    binary32::lemma_sign_ignored(a, (a % 0x8000_0000) as u32);
    binary32::lemma_sign_ignored(b, (b % 0x8000_0000) as u32);
}

/// Sums of negated codes are negated.
proof fn lemma_negated_row_sum(a: Seq<i8>, b: Seq<i8>)
    requires
        are_negated(a, b),
    ensures
        model::row_sum(b) == -model::row_sum(a),
{
    sums::lemma_sum_scale(a.len() as int, -1, model::codes_of(a), model::codes_of(b));
}

/// The layouts of negated codes are negated, and their absolute codes the same.
proof fn lemma_negated_layouts(q: &QueryI8, n: &QueryI8)
    requires
        q.wf(),
        n.wf(),
        n.dim == q.dim,
        q.dim == 128,
        n.nq() == q.nq(),
        are_negated(q.values@, n.values@),
    ensures
        are_negated(q.planes@, n.planes@),
        are_negated(q.planes_smmla@, n.planes_smmla@),
        are_negated(q.perm4@, n.perm4@),
        n.absq4@ == q.absq4@,
{
    let count = q.nq();
    assert forall|i: int| 0 <= i < q.planes@.len() implies #[trigger] n.planes@[i]
        == -q.planes@[i] by {
        query::lemma_plane_source(i, count * 128);
        let at = (i / 128) * 128 + (i % 16) * 8 + (i % 128) / 16;
        assert(q.planes@[i] == q.values@[at]);
        assert(n.planes@[i] == n.values@[at]);
    }
    assert forall|i: int| 0 <= i < q.planes_smmla@.len() implies #[trigger] n.planes_smmla@[i]
        == -q.planes_smmla@[i] by {
        query::lemma_pair_source(i, count);
        let row = query::paired_row(count, i / 256, (i % 16) / 8);
        let at = row * 128 + ((i % 256) / 16) * 8 + i % 8;
        assert(q.planes_smmla@[i] == q.planes@[at]);
        assert(n.planes_smmla@[i] == n.planes@[at]);
    }
    assert forall|i: int| 0 <= i < q.perm4@.len() implies #[trigger] n.perm4@[i]
        == -q.perm4@[i] by {
        query::lemma_even_odd_source(i, count * 128);
        let at = (i / 64) * 64 + 2 * (i % 32) + (i % 64) / 32;
        assert(q.perm4@[i] == q.values@[at]);
        assert(n.perm4@[i] == n.values@[at]);
    }
    assert forall|i: int| 0 <= i < q.absq4@.len() implies #[trigger] n.absq4@[i]
        == q.absq4@[i] by {
        assert(n.perm4@[i] == -q.perm4@[i]);
    }
    assert(n.absq4@ =~= q.absq4@);
}

/// Quantizing a negated query keeps the scales and the absolute codes and
/// negates the codes, their sums and their layouts; a biased code becomes its
/// distance from 256. The quotients of rows of zeros do not matter.
pub proof fn law_negated_quantization(
    q: &QueryI8,
    n: &QueryI8,
    magnitudes: Seq<u32>,
    scales: Seq<u32>,
    quotients: Seq<u32>,
    negated: Seq<u32>,
    dim: int,
)
    requires
        q.wf(),
        n.wf(),
        q.is_quantized(magnitudes, scales, quotients, dim),
        n.is_quantized(magnitudes, scales, negated, dim),
        forall|i: int|
            0 <= i < quotients.len() && binary32::is_positive(magnitudes[i / dim])
                ==> is_negation(#[trigger] quotients[i], negated[i]),
    ensures
        n.scales@ == q.scales@,
        are_negated(q.values@, n.values@),
        n.sums@.len() == q.sums@.len(),
        forall|qi: int| 0 <= qi < q.nq() ==> #[trigger] n.sums@[qi] == -q.sums@[qi],
        n.biased@.len() == q.biased@.len(),
        forall|i: int| 0 <= i < q.biased@.len() ==> #[trigger] n.biased@[i] == 256 - q.biased@[i],
        are_negated(q.planes@, n.planes@),
        are_negated(q.planes_smmla@, n.planes_smmla@),
        are_negated(q.perm4@, n.perm4@),
        n.absq4@ == q.absq4@,
{
    assert(n.scales@ =~= q.scales@);
    assert forall|i: int| 0 <= i < q.values@.len() implies #[trigger] n.values@[i]
        == -q.values@[i] by {
        assert(q.values@[i] == query::quantized(magnitudes, quotients, dim, i));
        assert(n.values@[i] == query::quantized(magnitudes, negated, dim, i));
        if binary32::is_positive(magnitudes[i / dim]) {
            let a = quotients[i];
            let b = negated[i];
            assert(is_negation(a, b));
            if b == a + 0x8000_0000 {
                law_code_is_odd(a, b);
            } else if a == b + 0x8000_0000 {
                law_code_is_odd(b, a);
            }
        }
    }
    assert forall|qi: int| 0 <= qi < q.nq() implies #[trigger] n.sums@[qi] == -q.sums@[qi] by {
        q.lemma_row(qi);
        n.lemma_row(qi);
        lemma_negated_row_sum(q.row(qi), n.row(qi));
        assert(q.sums@[qi] == model::row_sum(q.row(qi)));
    }
    assert forall|i: int| 0 <= i < q.biased@.len() implies #[trigger] n.biased@[i] == 256
        - q.biased@[i] by {
        assert(n.values@[i] == -q.values@[i]);
        assert(q.biased@[i] == q.values@[i] + 128);
    }
    if q.dim == 128 {
        lemma_negated_layouts(q, n);
    } else {
        assert(n.absq4@ =~= q.absq4@);
    }
}

/// A row has with the complement of a token the negated dot product.
pub proof fn law_complement_dot(row: Seq<i8>, tok: Seq<u8>, complement: Seq<u8>)
    requires
        complement.len() == tok.len(),
        row.len() <= tok.len() * 8,
        forall|i: int| 0 <= i < tok.len() ==> #[trigger] complement[i] == !tok[i],
    ensures
        model::signed_dot(row, complement) == -model::signed_dot(row, tok),
{
    let f = model::signed_terms(row, tok);
    let g = model::signed_terms(row, complement);
    assert forall|d: int| 0 <= d < row.len() implies #[trigger] g(d) == -1 * f(d) by {
        assert(complement[d / 8] == !tok[d / 8]);
        lemma_complemented_bit(tok[d / 8], d % 8);
        let v = row[d] as int;
        assert(v * 1 == v && v * -1 == -v) by (nonlinear_arith);
    }
    sums::lemma_sum_scale(row.len() as int, -1, f, g);
}

/// The best score over one token is its dot product.
proof fn lemma_best_of_one(row: Seq<i8>, tok: Seq<u8>)
    requires
        model::symmetric(row),
        row.len() <= query::MAX_DIM,
        tok.len() == row.len() as int / 8,
    ensures
        model::best_score(row, tok, 1) == model::signed_dot(row, tok),
{
    let pd = row.len() as int / 8;
    assert(0 * pd == 0) by (nonlinear_arith);
    assert(model::chunk(tok, pd, 0) =~= tok);
    model::lemma_row_bounds(row, tok, row.len() as int);
    reveal_with_fuel(model::best_score, 2);
}

/// A document of one token, complemented, has the negated scores.
pub proof fn law_complemented_token(
    q: &QueryI8,
    tok: Seq<u8>,
    complement: Seq<u8>,
    a: Seq<i32>,
    b: Seq<i32>,
)
    requires
        q.wf(),
        tok.len() == q.dim as int / 8,
        complement.len() == tok.len(),
        forall|i: int| 0 <= i < tok.len() ==> #[trigger] complement[i] == !tok[i],
        q.is_maxsim(tok, a),
        q.is_maxsim(complement, b),
    ensures
        b.len() == a.len(),
        forall|qi: int| 0 <= qi < q.nq() ==> #[trigger] b[qi] == -a[qi],
{
    let pd = q.dim as int / 8;
    vstd::arithmetic::div_mod::lemma_div_by_self(pd);
    assert forall|qi: int| 0 <= qi < q.nq() implies #[trigger] b[qi] == -a[qi] by {
        q.lemma_row(qi);
        lemma_best_of_one(q.row(qi), tok);
        lemma_best_of_one(q.row(qi), complement);
        law_complement_dot(q.row(qi), tok, complement);
        assert(a[qi] == model::best_score(q.row(qi), tok, 1));
    }
}

/// As many items make as many rows.
proof fn lemma_same_count(a: int, b: int, n: int)
    requires
        0 < n,
        a * n == b * n,
    ensures
        a == b,
{
    assert(a == b) by (nonlinear_arith)
        requires
            0 < n,
            a * n == b * n,
    ;
}

/// A token has a row's own signs where it has a set bit for each positive code
/// and a clear one for each negative code.
pub open spec fn has_own_signs(row: Seq<i8>, own: Seq<u8>) -> bool {
    forall|d: int|
        0 <= d < row.len() ==> (#[trigger] row[d] > 0 ==> model::bit_at(own, d)) && (row[d] < 0
            ==> !model::bit_at(own, d))
}

/// The absolute values of the codes of a row, as terms of a sum.
pub open spec fn absolute_terms(row: Seq<i8>) -> spec_fn(int) -> int {
    |d: int|
        if row[d] < 0 {
            -row[d]
        } else {
            row[d] as int
        }
}

/// A row has with its own signs the sum of its absolute codes, and no token has
/// a larger dot product with it.
pub proof fn law_own_signs(row: Seq<i8>, own: Seq<u8>, tok: Seq<u8>)
    requires
        has_own_signs(row, own),
    ensures
        model::signed_dot(row, own) == sums::sum(row.len() as int, absolute_terms(row)),
        model::signed_dot(row, tok) <= model::signed_dot(row, own),
{
    let n = row.len() as int;
    assert forall|d: int| 0 <= d < n implies #[trigger] model::signed_terms(row, own)(d)
        == absolute_terms(row)(d) by {
        let v = row[d] as int;
        assert(v * 1 == v && v * -1 == -v) by (nonlinear_arith);
    }
    sums::lemma_sum_eq(n, model::signed_terms(row, own), absolute_terms(row));
    lemma_at_most_absolute(row, tok, n);
}

proof fn lemma_at_most_absolute(row: Seq<i8>, tok: Seq<u8>, n: int)
    ensures
        sums::sum(n, model::signed_terms(row, tok)) <= sums::sum(n, absolute_terms(row)),
    decreases n,
{
    if n > 0 {
        lemma_at_most_absolute(row, tok, n - 1);
        let v = row[n - 1] as int;
        assert(v * 1 == v && v * -1 == -v) by (nonlinear_arith);
    }
}

/// No document beats a row's own signs, and one that holds them reaches them.
pub proof fn law_no_document_beats_own_signs(row: Seq<i8>, own: Seq<u8>, bits: Seq<u8>, n: int)
    requires
        model::symmetric(row),
        row.len() <= query::MAX_DIM,
        has_own_signs(row, own),
    ensures
        model::best_score(row, bits, n) <= model::signed_dot(row, own),
        0 < n && has_token(bits, n, row.len() as int / 8, own) ==> model::best_score(row, bits, n)
            == model::signed_dot(row, own),
    decreases n,
{
    let pd = row.len() as int / 8;
    model::lemma_row_bounds(row, own, row.len() as int);
    if n > 0 {
        law_no_document_beats_own_signs(row, own, bits, n - 1);
        law_own_signs(row, own, model::chunk(bits, pd, n - 1));
        law_best_is_maximum(row, bits, n);
        if has_token(bits, n, pd, own) {
            let e = choose|e: int| 0 <= e < n && #[trigger] model::chunk(bits, pd, e) == own;
            assert(model::signed_dot(row, model::chunk(bits, pd, e)) <= model::best_score(
                row,
                bits,
                n,
            ));
        }
    }
}

/// No document beats the query's own signs: where token `qi` of a document has
/// the signs of row `qi`, every row scores there the most that it can score.
pub proof fn law_query_scores_own_signs_best(
    q: &QueryI8,
    own: Seq<u8>,
    bits: Seq<u8>,
    a: Seq<i32>,
    b: Seq<i32>,
)
    requires
        q.wf(),
        own.len() == q.nq() * (q.dim as int / 8),
        forall|qi: int|
            0 <= qi < q.nq() ==> has_own_signs(
                #[trigger] q.row(qi),
                model::chunk(own, q.dim as int / 8, qi),
            ),
        q.is_maxsim(own, a),
        q.is_maxsim(bits, b),
    ensures
        forall|qi: int| 0 <= qi < q.nq() ==> #[trigger] b[qi] <= a[qi],
{
    let pd = q.dim as int / 8;
    let n = own.len() as int / pd;
    vstd::arithmetic::div_mod::lemma_div_multiples_vanish(q.nq(), pd);
    assert(q.nq() * pd == pd * q.nq()) by (nonlinear_arith);
    assert forall|qi: int| 0 <= qi < q.nq() implies #[trigger] b[qi] <= a[qi] by {
        q.lemma_row(qi);
        let tok = model::chunk(own, pd, qi);
        assert(has_own_signs(q.row(qi), tok));
        assert(has_token(own, n, pd, tok));
        law_no_document_beats_own_signs(q.row(qi), tok, own, n);
        law_no_document_beats_own_signs(q.row(qi), tok, bits, bits.len() as int / pd);
    }
}

/// A code has the sign of its quotient, or is zero.
pub proof fn law_code_keeps_sign(b: u32)
    ensures
        binary32::code_of(b) > 0 ==> binary32::is_positive(b),
        binary32::code_of(b) < 0 ==> !binary32::is_nan(b) && binary32::scaled(b) < 0,
{
    let u = binary32::one();
    let v = binary32::scaled(b);
    vstd::arithmetic::power2::lemma_pow2_pos(149);
    vstd::arithmetic::power2::lemma_pow2_unfold(149);
    vstd::arithmetic::div_mod::lemma_fundamental_div_mod(v, u);
    vstd::arithmetic::div_mod::lemma_mod_bound(v, u);
    let f = v / u;
    let r = v % u;
    if v <= 0 {
        assert(f < 0 || (f == 0 && r == 0)) by (nonlinear_arith)
            requires
                v <= 0,
                v == u * f + r,
                0 <= r < u,
        ;
    }
    if v >= 0 {
        assert(f >= 0) by (nonlinear_arith)
            requires
                v >= 0,
                v == u * f + r,
                0 <= r < u,
        ;
    }
}

/// The bits that a query's numbers pack to are its own signs, where dividing a
/// number by its row's scale keeps its sign or gives zero.
pub proof fn law_packed_query_has_own_signs(
    q: &QueryI8,
    x: Seq<u32>,
    own: Seq<u8>,
    magnitudes: Seq<u32>,
    scales: Seq<u32>,
    quotients: Seq<u32>,
    qi: int,
)
    requires
        q.wf(),
        q.is_quantized(magnitudes, scales, quotients, q.dim as int),
        x.len() == quotients.len(),
        forall|i: int|
            0 <= i < x.len() && binary32::is_positive(#[trigger] quotients[i])
                ==> binary32::is_positive(x[i]),
        forall|i: int|
            0 <= i < x.len() && !binary32::is_nan(#[trigger] quotients[i]) && binary32::scaled(
                quotients[i],
            ) < 0 ==> !binary32::is_positive(x[i]),
        signs::is_binarized(x, own),
        0 <= qi < q.nq(),
    ensures
        has_own_signs(q.row(qi), model::chunk(own, q.dim as int / 8, qi)),
{
    let dim = q.dim as int;
    let pd = dim / 8;
    let row = q.row(qi);
    let tok = model::chunk(own, pd, qi);
    q.lemma_row(qi);
    model::lemma_chunk_fits(q.nq(), pd, qi);
    assert(q.nq() * dim == 8 * (q.nq() * pd) && qi * dim == 8 * (qi * pd)) by (nonlinear_arith)
        requires
            dim == 8 * pd,
    ;
    assert forall|d: int| 0 <= d < row.len() implies (#[trigger] row[d] > 0 ==> model::bit_at(
        tok,
        d,
    )) && (row[d] < 0 ==> !model::bit_at(tok, d)) by {
        let i = qi * dim + d;
        assert(row[d] == q.values@[i]);
        assert(q.values@[i] == query::quantized(magnitudes, quotients, dim, i));
        law_code_keeps_sign(quotients[i]);
        assert(model::bit_at(own, i) == binary32::is_positive(x[i]));
        assert(i / 8 == qi * pd + d / 8 && i % 8 == d % 8);
        assert(tok[d / 8] == own[qi * pd + d / 8]);
    }
}

} // verus!
