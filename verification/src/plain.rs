//! The scores, codes, layouts and faults in plain arithmetic: what each result
//! is in terms of the bytes, codes and patterns that go in.
//!
//! Nothing here rests on how the model is put together. A byte is its digits,
//! a token's index is a quotient or a remainder by 16, a score is a sum over
//! the entries of flat arrays, and a float is its 32-bit pattern.

use crate::binary32;
use crate::docs;
use crate::docs::BinaryShapes;
use crate::docs::DocsError;
use crate::docs::ResidualShapes;
use crate::laws;
use crate::model;
use crate::query;
use crate::query::QueryI8;
use crate::residual;
use crate::residual::LutI8;
use crate::residual::ResidualTerms;
use crate::signs;
use crate::sums;
use vstd::arithmetic::power2::pow2;
use vstd::prelude::*;

verus! {

/// A sum of no terms is zero, and one more term adds itself.
pub proof fn law_sum_grows(n: int, f: spec_fn(int) -> int)
    requires
        0 <= n,
    ensures
        sums::sum(0, f) == 0,
        sums::sum(n + 1, f) == sums::sum(n, f) + f(n),
{
}

/// A byte is made of its bits, the first worth 128 and the last worth 1.
pub proof fn law_byte_is_its_bits(b: u8)
    ensures
        b == (if model::bit(b, 0) {
            128int
        } else {
            0
        }) + (if model::bit(b, 1) {
            64int
        } else {
            0
        }) + (if model::bit(b, 2) {
            32int
        } else {
            0
        }) + (if model::bit(b, 3) {
            16int
        } else {
            0
        }) + (if model::bit(b, 4) {
            8int
        } else {
            0
        }) + (if model::bit(b, 5) {
            4int
        } else {
            0
        }) + (if model::bit(b, 6) {
            2int
        } else {
            0
        }) + (if model::bit(b, 7) {
            1int
        } else {
            0
        }),
{
    assert(b == (if (b >> 7u8) & 1u8 == 1u8 {
        128u8
    } else {
        0u8
    }) + (if (b >> 6u8) & 1u8 == 1u8 {
        64u8
    } else {
        0u8
    }) + (if (b >> 5u8) & 1u8 == 1u8 {
        32u8
    } else {
        0u8
    }) + (if (b >> 4u8) & 1u8 == 1u8 {
        16u8
    } else {
        0u8
    }) + (if (b >> 3u8) & 1u8 == 1u8 {
        8u8
    } else {
        0u8
    }) + (if (b >> 2u8) & 1u8 == 1u8 {
        4u8
    } else {
        0u8
    }) + (if (b >> 1u8) & 1u8 == 1u8 {
        2u8
    } else {
        0u8
    }) + (if (b >> 0u8) & 1u8 == 1u8 {
        1u8
    } else {
        0u8
    })) by (bit_vector);
    assert(7u8 == (7 - 0) as u8 && 6u8 == (7 - 1) as u8 && 5u8 == (7 - 2) as u8 && 4u8 == (7
        - 3) as u8 && 3u8 == (7 - 4) as u8 && 2u8 == (7 - 5) as u8 && 1u8 == (7 - 6) as u8 && 0u8
        == (7 - 7) as u8);
}

/// Shifts and masks of a byte as divisions.
proof fn lemma_digits(b: u8)
    ensures
        ((b >> 7u8) & 1u8 == 1u8) == ((b / 128u8) % 2u8 == 1u8),
        ((b >> 6u8) & 1u8 == 1u8) == ((b / 64u8) % 2u8 == 1u8),
        ((b >> 5u8) & 1u8 == 1u8) == ((b / 32u8) % 2u8 == 1u8),
        ((b >> 4u8) & 1u8 == 1u8) == ((b / 16u8) % 2u8 == 1u8),
        ((b >> 3u8) & 1u8 == 1u8) == ((b / 8u8) % 2u8 == 1u8),
        ((b >> 2u8) & 1u8 == 1u8) == ((b / 4u8) % 2u8 == 1u8),
        ((b >> 1u8) & 1u8 == 1u8) == ((b / 2u8) % 2u8 == 1u8),
        ((b >> 0u8) & 1u8 == 1u8) == (b % 2u8 == 1u8),
{
    assert(((b >> 7u8) & 1u8 == 1u8) == ((b / 128u8) % 2u8 == 1u8) && ((b >> 6u8) & 1u8 == 1u8)
        == ((b / 64u8) % 2u8 == 1u8) && ((b >> 5u8) & 1u8 == 1u8) == ((b / 32u8) % 2u8 == 1u8) && (
    (b >> 4u8) & 1u8 == 1u8) == ((b / 16u8) % 2u8 == 1u8) && ((b >> 3u8) & 1u8 == 1u8) == ((b / 8u8)
        % 2u8 == 1u8) && ((b >> 2u8) & 1u8 == 1u8) == ((b / 4u8) % 2u8 == 1u8) && ((b >> 1u8) & 1u8
        == 1u8) == ((b / 2u8) % 2u8 == 1u8) && ((b >> 0u8) & 1u8 == 1u8) == (b % 2u8 == 1u8))
        by (bit_vector);
}

/// Bit `j` of a byte is its binary digit of worth `2^(7 - j)`.
pub proof fn law_bit_is_digit(b: u8, j: int)
    requires
        0 <= j < 8,
    ensures
        model::bit(b, j) <==> (b as int / pow2((7 - j) as nat) as int) % 2 == 1,
{
    lemma_digits(b);
    vstd::arithmetic::power2::lemma2_to64();
    if j == 0 {
        assert((7 - j) as u8 == 7u8 && pow2((7 - j) as nat) == 128);
        assert(model::bit(b, j) == ((b / 128u8) % 2u8 == 1u8));
        assert((b as int / 128) % 2 == 1 <==> ((b / 128u8) % 2u8 == 1u8));
    } else if j == 1 {
        assert((7 - j) as u8 == 6u8 && pow2((7 - j) as nat) == 64);
        assert(model::bit(b, j) == ((b / 64u8) % 2u8 == 1u8));
        assert((b as int / 64) % 2 == 1 <==> ((b / 64u8) % 2u8 == 1u8));
    } else if j == 2 {
        assert((7 - j) as u8 == 5u8 && pow2((7 - j) as nat) == 32);
        assert(model::bit(b, j) == ((b / 32u8) % 2u8 == 1u8));
        assert((b as int / 32) % 2 == 1 <==> ((b / 32u8) % 2u8 == 1u8));
    } else if j == 3 {
        assert((7 - j) as u8 == 4u8 && pow2((7 - j) as nat) == 16);
        assert(model::bit(b, j) == ((b / 16u8) % 2u8 == 1u8));
        assert((b as int / 16) % 2 == 1 <==> ((b / 16u8) % 2u8 == 1u8));
    } else if j == 4 {
        assert((7 - j) as u8 == 3u8 && pow2((7 - j) as nat) == 8);
        assert(model::bit(b, j) == ((b / 8u8) % 2u8 == 1u8));
        assert((b as int / 8) % 2 == 1 <==> ((b / 8u8) % 2u8 == 1u8));
    } else if j == 5 {
        assert((7 - j) as u8 == 2u8 && pow2((7 - j) as nat) == 4);
        assert(model::bit(b, j) == ((b / 4u8) % 2u8 == 1u8));
        assert((b as int / 4) % 2 == 1 <==> ((b / 4u8) % 2u8 == 1u8));
    } else if j == 6 {
        assert((7 - j) as u8 == 1u8 && pow2((7 - j) as nat) == 2);
        assert(model::bit(b, j) == ((b / 2u8) % 2u8 == 1u8));
        assert((b as int / 2) % 2 == 1 <==> ((b / 2u8) % 2u8 == 1u8));
    } else {
        assert((7 - j) as u8 == 0u8 && pow2((7 - j) as nat) == 1);
        assert(model::bit(b, j) == (b % 2u8 == 1u8));
        assert((b as int / 1) % 2 == 1 <==> (b % 2u8 == 1u8));
    }
}

/// The sign of dimension `d` of a token is +1 where the digit of worth
/// `2^(7 - d % 8)` of byte `d / 8` is one, and -1 where it is zero.
pub proof fn law_sign_is_digit(tok: Seq<u8>, d: int)
    requires
        0 <= d,
    ensures
        model::bit_at(tok, d) <==> (tok[d / 8] as int / pow2((7 - d % 8) as nat) as int) % 2 == 1,
        model::sign_at(tok, d) == if (tok[d / 8] as int / pow2((7 - d % 8) as nat) as int) % 2
            == 1 {
            1int
        } else {
            -1int
        },
{
    law_bit_is_digit(tok[d / 8], d % 8);
}

/// The index of an even dimension is the quotient of its byte by 16, that of
/// the odd dimension after it the remainder.
pub proof fn law_index_is_half_a_byte(tok: Seq<u8>, k: int)
    ensures
        model::nibble_at(tok, 2 * k) == tok[k] as int / 16,
        model::nibble_at(tok, 2 * k + 1) == tok[k] as int % 16,
{
    let b = tok[k];
    assert(b >> 4u8 == b / 16u8) by (bit_vector);
    assert(b & 15u8 == b % 16u8) by (bit_vector);
    assert((2 * k) / 2 == k && (2 * k) % 2 == 0 && (2 * k + 1) / 2 == k && (2 * k + 1) % 2 == 1);
}

/// A residual dot product, byte by byte: the first code of a byte meets the
/// weight at the byte's quotient by 16, the second that at its remainder.
pub proof fn law_residual_dot_by_bytes(row: Seq<i8>, lut: Seq<i8>, tok: Seq<u8>)
    requires
        row.len() == 2 * tok.len(),
    ensures
        model::residual_dot(row, lut, tok) == sums::sum(
            tok.len() as int,
            |k: int|
                row[2 * k] * lut[tok[k] as int / 16] + row[2 * k + 1] * lut[tok[k] as int % 16],
        ),
{
    let f = model::residual_terms(row, lut, tok);
    let g = |k: int|
        row[2 * k] * lut[tok[k] as int / 16] + row[2 * k + 1] * lut[tok[k] as int % 16];
    lemma_sum_of_pairs(tok.len() as int, f, g, row, lut, tok);
}

proof fn lemma_sum_of_pairs(
    n: int,
    f: spec_fn(int) -> int,
    g: spec_fn(int) -> int,
    row: Seq<i8>,
    lut: Seq<i8>,
    tok: Seq<u8>,
)
    requires
        0 <= n,
        f == model::residual_terms(row, lut, tok),
        forall|k: int|
            0 <= k < n ==> #[trigger] g(k) == row[2 * k] * lut[tok[k] as int / 16] + row[2 * k + 1]
                * lut[tok[k] as int % 16],
    ensures
        sums::sum(2 * n, f) == sums::sum(n, g),
    decreases n,
{
    if n > 0 {
        lemma_sum_of_pairs(n - 1, f, g, row, lut, tok);
        law_index_is_half_a_byte(tok, n - 1);
        assert(sums::sum(2 * n - 1, f) == sums::sum(2 * n - 2, f) + f(2 * (n - 1)));
        assert(sums::sum(2 * n, f) == sums::sum(2 * n - 1, f) + f(2 * (n - 1) + 1));
    }
}

/// A signed dot product, dimension by dimension: a code is added where the
/// digit of its dimension is one, and taken away where it is zero.
pub proof fn law_signed_dot_by_digits(row: Seq<i8>, tok: Seq<u8>)
    ensures
        model::signed_dot(row, tok) == sums::sum(
            row.len() as int,
            (|d: int|
                if (tok[d / 8] as int / pow2((7 - d % 8) as nat) as int) % 2 == 1 {
                    row[d] as int
                } else {
                    -row[d]
                }),
        ),
{
    let f = model::signed_terms(row, tok);
    let g = |d: int|
        if (tok[d / 8] as int / pow2((7 - d % 8) as nat) as int) % 2 == 1 {
            row[d] as int
        } else {
            -row[d]
        };
    assert forall|d: int| 0 <= d < row.len() implies #[trigger] f(d) == g(d) by {
        law_sign_is_digit(tok, d);
        let v = row[d] as int;
        assert(v * 1 == v && v * -1 == -v) by (nonlinear_arith);
    }
    sums::lemma_sum_eq(row.len() as int, f, g);
}

/// Row `i` of a flat array of rows of length `n`, entry by entry.
pub proof fn law_row_of_flat<T>(s: Seq<T>, n: int, i: int)
    requires
        0 <= i,
        0 <= n,
        (i + 1) * n <= s.len(),
    ensures
        model::chunk(s, n, i).len() == n,
        forall|k: int| 0 <= k < n ==> #[trigger] model::chunk(s, n, i)[k] == s[i * n + k],
{
    model::lemma_chunk_fits(i + 1, n, i);
}

/// The dot product of a query row and a token of a document, over the flat
/// arrays that hold them.
pub proof fn law_flat_signed_dot(q: &QueryI8, bits: Seq<u8>, qi: int, d: int)
    requires
        q.wf(),
        0 <= qi < q.sums@.len(),
        0 <= d,
        (d + 1) * (q.dim as int / 8) <= bits.len(),
    ensures
        model::signed_dot(q.row(qi), model::chunk(bits, q.dim as int / 8, d)) == sums::sum(
            q.dim as int,
            (|k: int|
                if (bits[d * (q.dim as int / 8) + k / 8] as int / pow2((7 - k % 8) as nat) as int)
                    % 2 == 1 {
                    q.values@[qi * q.dim + k] as int
                } else {
                    -q.values@[qi * q.dim + k]
                }),
        ),
{
    let pd = q.dim as int / 8;
    let row = q.row(qi);
    let tok = model::chunk(bits, pd, d);
    q.lemma_row(qi);
    law_row_of_flat(bits, pd, d);
    law_signed_dot_by_digits(row, tok);
    let f = |k: int|
        if (tok[k / 8] as int / pow2((7 - k % 8) as nat) as int) % 2 == 1 {
            row[k] as int
        } else {
            -row[k]
        };
    let g = |k: int|
        if (bits[d * (q.dim as int / 8) + k / 8] as int / pow2((7 - k % 8) as nat) as int) % 2
            == 1 {
            q.values@[qi * q.dim + k] as int
        } else {
            -q.values@[qi * q.dim + k]
        };
    assert(model::signed_dot(row, tok) == sums::sum(row.len() as int, f));
    assert forall|k: int| 0 <= k < q.dim implies #[trigger] f(k) == g(k) by {
        assert(row[k] == q.values@[qi * q.dim + k]);
        assert(0 <= k / 8 < pd);
        assert(tok[k / 8] == bits[d * pd + k / 8]);
    }
    sums::lemma_sum_eq(q.dim as int, f, g);
}

/// The result of a binary kernel has one score a row, and none of a document's
/// whole tokens has a larger dot product with the row.
pub proof fn law_kernel_score_is_not_beaten(
    q: &QueryI8,
    bits: Seq<u8>,
    best: Seq<i32>,
    qi: int,
    d: int,
)
    requires
        q.wf(),
        q.is_maxsim(bits, best),
        0 <= qi < q.sums@.len(),
        0 <= d,
        (d + 1) * (q.dim as int / 8) <= bits.len(),
    ensures
        best.len() == q.sums@.len(),
        model::signed_dot(q.row(qi), model::chunk(bits, q.dim as int / 8, d)) <= best[qi],
        sums::sum(
            q.dim as int,
            (|k: int|
                if (bits[d * (q.dim as int / 8) + k / 8] as int / pow2((7 - k % 8) as nat) as int)
                    % 2 == 1 {
                    q.values@[qi * q.dim + k] as int
                } else {
                    -q.values@[qi * q.dim + k]
                }),
        ) <= best[qi],
{
    let pd = q.dim as int / 8;
    let n = bits.len() as int / pd;
    lemma_whole_token(bits.len() as int, pd, d);
    q.lemma_row(qi);
    laws::law_best_is_maximum(q.row(qi), bits, n);
    assert(model::signed_dot(q.row(qi), model::chunk(bits, pd, d)) <= model::best_score(
        q.row(qi),
        bits,
        n,
    ));
    assert(best[qi] == model::best_score(q.row(qi), bits, n));
    law_flat_signed_dot(q, bits, qi, d);
}

/// The result of a binary kernel on a document of at least one whole token is,
/// for each row, the dot product of the row with one of the tokens.
pub proof fn law_kernel_score_is_reached(
    q: &QueryI8,
    bits: Seq<u8>,
    best: Seq<i32>,
    qi: int,
) -> (d: int)
    requires
        q.wf(),
        q.is_maxsim(bits, best),
        0 <= qi < q.sums@.len(),
        q.dim as int / 8 <= bits.len(),
    ensures
        0 <= d,
        (d + 1) * (q.dim as int / 8) <= bits.len(),
        best[qi] == model::signed_dot(q.row(qi), model::chunk(bits, q.dim as int / 8, d)),
        best[qi] == sums::sum(
            q.dim as int,
            (|k: int|
                if (bits[d * (q.dim as int / 8) + k / 8] as int / pow2((7 - k % 8) as nat) as int)
                    % 2 == 1 {
                    q.values@[qi * q.dim + k] as int
                } else {
                    -q.values@[qi * q.dim + k]
                }),
        ),
{
    let pd = q.dim as int / 8;
    let n = bits.len() as int / pd;
    lemma_whole_token(bits.len() as int, pd, 0);
    model::lemma_whole_rows(bits.len() as int, pd);
    q.lemma_row(qi);
    laws::law_best_is_maximum(q.row(qi), bits, n);
    let d = choose|d: int|
        0 <= d < n && model::best_score(q.row(qi), bits, n) == model::signed_dot(
            q.row(qi),
            #[trigger] model::chunk(bits, q.row(qi).len() as int / 8, d),
        );
    model::lemma_chunk_fits(n, pd, d);
    assert(best[qi] == model::best_score(q.row(qi), bits, n));
    law_flat_signed_dot(q, bits, qi, d);
    d
}

/// The result of a binary kernel on a document without a whole token is the
/// least integer for each row.
pub proof fn law_kernel_score_of_nothing(q: &QueryI8, bits: Seq<u8>, best: Seq<i32>, qi: int)
    requires
        q.wf(),
        q.is_maxsim(bits, best),
        0 <= qi < q.sums@.len(),
        bits.len() < q.dim as int / 8,
    ensures
        best.len() == q.sums@.len(),
        best[qi] == -0x8000_0000,
{
    let pd = q.dim as int / 8;
    vstd::arithmetic::div_mod::lemma_basic_div(bits.len() as int, pd);
    assert(best[qi] == model::best_score(q.row(qi), bits, 0));
}

/// Token `d` is one of the whole tokens of `len` bytes.
proof fn lemma_whole_token(len: int, pd: int, d: int)
    requires
        0 < pd,
        0 <= d,
        (d + 1) * pd <= len,
    ensures
        0 <= d < len / pd,
{
    vstd::arithmetic::div_mod::lemma_fundamental_div_mod(len, pd);
    vstd::arithmetic::div_mod::lemma_mod_bound(len, pd);
    let n = len / pd;
    assert(d < n) by (nonlinear_arith)
        requires
            (d + 1) * pd <= len,
            len < pd * n + pd,
            0 < pd,
    ;
}

/// The dot product of a query row and a residual token, over the flat arrays
/// that hold them.
pub proof fn law_flat_residual_dot(
    q: &QueryI8,
    weights: Seq<i8>,
    codes: Seq<u8>,
    qi: int,
    d: int,
)
    requires
        q.wf(),
        0 <= qi < q.sums@.len(),
        0 <= d,
        (d + 1) * (q.dim as int / 2) <= codes.len(),
    ensures
        model::residual_dot(q.row(qi), weights, model::chunk(codes, q.dim as int / 2, d))
            == sums::sum(
            q.dim as int / 2,
            |k: int|
                q.values@[qi * q.dim + 2 * k] * weights[codes[d * (q.dim as int / 2) + k] as int
                    / 16] + q.values@[qi * q.dim + 2 * k + 1] * weights[codes[d * (q.dim as int / 2)
                    + k] as int % 16],
        ),
{
    let pd = q.dim as int / 2;
    let row = q.row(qi);
    let tok = model::chunk(codes, pd, d);
    q.lemma_row(qi);
    law_row_of_flat(codes, pd, d);
    law_residual_dot_by_bytes(row, weights, tok);
    let f = |k: int|
        row[2 * k] * weights[tok[k] as int / 16] + row[2 * k + 1] * weights[tok[k] as int % 16];
    let g = |k: int|
        q.values@[qi * q.dim + 2 * k] * weights[codes[d * (q.dim as int / 2) + k] as int / 16]
            + q.values@[qi * q.dim + 2 * k + 1] * weights[codes[d * (q.dim as int / 2) + k] as int
            % 16];
    assert(model::residual_dot(row, weights, tok) == sums::sum(tok.len() as int, f));
    assert forall|k: int| 0 <= k < pd implies #[trigger] f(k) == g(k) by {
        assert(row[2 * k] == q.values@[qi * q.dim + 2 * k]);
        assert(row[2 * k + 1] == q.values@[qi * q.dim + (2 * k + 1)]);
        assert(tok[k] == codes[d * pd + k]);
    }
    sums::lemma_sum_eq(pd, f, g);
}

/// The result of a residual kernel, entry by entry: the integer term of token
/// `d` and row `qi` is a sum over the token's bytes, and its centroid term the
/// entry of the token's centroid row.
pub proof fn law_residual_entry(
    terms: ResidualTerms,
    q: &QueryI8,
    weights: Seq<i8>,
    lut_scale: u32,
    codes: Seq<u8>,
    cids: Seq<u32>,
    cdot_t: Seq<u32>,
    d: int,
    qi: int,
)
    requires
        q.wf(),
        terms.is_residual(q, weights, lut_scale, codes, cids, cdot_t),
        codes.len() == cids.len() * (q.dim as int / 2),
        0 <= d < cids.len(),
        0 <= qi < q.sums@.len(),
    ensures
        0 <= d * q.sums@.len() + qi < terms.dots@.len(),
        terms.dots@[d * q.sums@.len() + qi] == sums::sum(
            q.dim as int / 2,
            |k: int|
                q.values@[qi * q.dim + 2 * k] * weights[codes[d * (q.dim as int / 2) + k] as int
                    / 16] + q.values@[qi * q.dim + 2 * k + 1] * weights[codes[d * (q.dim as int / 2)
                    + k] as int % 16],
        ),
        terms.centroid@[d * q.sums@.len() + qi] == cdot_t[cids[d] * q.sums@.len() + qi],
{
    let nq = q.sums@.len() as int;
    let pd = q.dim as int / 2;
    let i = d * nq + qi;
    model::lemma_chunk_fits(cids.len() as int, nq, d);
    model::lemma_chunk_fits(cids.len() as int, pd, d);
    assert(d * nq == nq * d) by (nonlinear_arith);
    vstd::arithmetic::div_mod::lemma_fundamental_div_mod_converse(i, nq, d, qi);
    law_flat_residual_dot(q, weights, codes, qi, d);
    assert(terms.dots@[i] == model::residual_dot(
        q.row(i % nq),
        weights,
        model::chunk(codes, pd, i / nq),
    ));
    assert(terms.centroid@[i] == cdot_t[cids[i / nq] * nq + i % nq]);
}

/// The result of a residual kernel has one entry a token and row, and the
/// table's scale.
pub proof fn law_residual_extent(
    terms: ResidualTerms,
    q: &QueryI8,
    weights: Seq<i8>,
    lut_scale: u32,
    codes: Seq<u8>,
    cids: Seq<u32>,
    cdot_t: Seq<u32>,
)
    requires
        terms.is_residual(q, weights, lut_scale, codes, cids, cdot_t),
    ensures
        terms.nq == q.sums@.len(),
        terms.lut_scale == lut_scale,
        terms.dots@.len() == cids.len() * q.sums@.len(),
        terms.centroid@.len() == cids.len() * q.sums@.len(),
{
}

/// Where the rows of document `i` begin and end: after those of the documents
/// before it, as many as it is long.
pub proof fn law_document_rows(lens: Seq<i64>, i: int)
    requires
        0 <= i < lens.len(),
    ensures
        docs::first_row(lens, 0) == 0,
        docs::first_row(lens, i) == sums::sum(i, |k: int| lens[k] as int),
        docs::first_row(lens, i + 1) == docs::first_row(lens, i) + lens[i],
        docs::total_rows(lens) == sums::sum(lens.len() as int, |k: int| lens[k] as int),
{
    let f = |k: int| lens[k] as int;
    sums::lemma_sum_eq(i, docs::lens_of(lens), f);
    sums::lemma_sum_eq(lens.len() as int, docs::lens_of(lens), f);
}

/// The part of document `i`, row by row.
proof fn lemma_part_row<T>(s: Seq<T>, n: int, lens: Seq<i64>, i: int, t: int)
    requires
        !docs::has_empty_doc(lens),
        0 < n,
        s.len() == docs::total_rows(lens) * n,
        0 <= i < lens.len(),
        0 <= t < lens[i],
    ensures
        docs::doc_part(s, n, lens, i).len() == lens[i] * n,
        (t + 1) * n <= lens[i] * n,
        0 <= docs::first_row(lens, i),
        (docs::first_row(lens, i) + t + 1) * n <= s.len(),
        model::chunk(docs::doc_part(s, n, lens, i), n, t) == model::chunk(
            s,
            n,
            docs::first_row(lens, i) + t,
        ),
{
    let a = docs::first_row(lens, i);
    let count = lens[i] as int;
    docs::lemma_doc_part(lens, i, n);
    docs::lemma_doc_rows(lens, i);
    model::lemma_chunk_fits(count, n, t);
    assert((a + t) * n == a * n + t * n && (a + t + 1) * n == a * n + t * n + n)
        by (nonlinear_arith);
    assert(model::chunk(docs::doc_part(s, n, lens, i), n, t) =~= model::chunk(s, n, a + t));
}

/// In the result of an accepted binary batch no row of a document has a larger
/// dot product with a query row than the document's score of it: `t` counts the
/// document's own rows, all `lens[i]` of them.
pub proof fn law_batch_score_is_not_beaten(
    q: &QueryI8,
    payload: Seq<u8>,
    lens: Seq<i64>,
    out: Seq<Vec<i32>>,
    i: int,
    qi: int,
    t: int,
)
    requires
        q.wf(),
        docs::binary_rows_fault(lens, q.dim as int / 8, payload.len() as int) is None,
        docs::is_binary_batch(q, payload, lens, out),
        0 <= i < lens.len(),
        0 <= qi < q.sums@.len(),
        0 <= t < lens[i],
    ensures
        out.len() == lens.len(),
        out[i]@.len() == q.sums@.len(),
        model::signed_dot(
            q.row(qi),
            model::chunk(
                payload,
                q.dim as int / 8,
                sums::sum(i, |k: int| lens[k] as int) + t,
            ),
        ) <= out[i]@[qi],
        sums::sum(
            q.dim as int,
            (|k: int|
                if (payload[(sums::sum(i, |m: int| lens[m] as int) + t) * (q.dim as int / 8) + k
                    / 8] as int / pow2((7 - k % 8) as nat) as int) % 2 == 1 {
                    q.values@[qi * q.dim + k] as int
                } else {
                    -q.values@[qi * q.dim + k]
                }),
        ) <= out[i]@[qi],
{
    let pd = q.dim as int / 8;
    let part = docs::doc_part(payload, pd, lens, i);
    law_document_rows(lens, i);
    lemma_part_row(payload, pd, lens, i, t);
    assert(q.is_maxsim(part, out[i]@));
    law_kernel_score_is_not_beaten(q, part, out[i]@, qi, t);
    law_flat_signed_dot(q, payload, qi, sums::sum(i, |k: int| lens[k] as int) + t);
}

/// In the result of an accepted binary batch a document's score of a query row
/// is the dot product of the row with one of the document's own rows.
pub proof fn law_batch_score_is_reached(
    q: &QueryI8,
    payload: Seq<u8>,
    lens: Seq<i64>,
    out: Seq<Vec<i32>>,
    i: int,
    qi: int,
) -> (t: int)
    requires
        q.wf(),
        docs::binary_rows_fault(lens, q.dim as int / 8, payload.len() as int) is None,
        docs::is_binary_batch(q, payload, lens, out),
        0 <= i < lens.len(),
        0 <= qi < q.sums@.len(),
    ensures
        0 <= t < lens[i],
        out[i]@[qi] == model::signed_dot(
            q.row(qi),
            model::chunk(
                payload,
                q.dim as int / 8,
                sums::sum(i, |k: int| lens[k] as int) + t,
            ),
        ),
        out[i]@[qi] == sums::sum(
            q.dim as int,
            (|k: int|
                if (payload[(sums::sum(i, |m: int| lens[m] as int) + t) * (q.dim as int / 8) + k
                    / 8] as int / pow2((7 - k % 8) as nat) as int) % 2 == 1 {
                    q.values@[qi * q.dim + k] as int
                } else {
                    -q.values@[qi * q.dim + k]
                }),
        ),
{
    let pd = q.dim as int / 8;
    let part = docs::doc_part(payload, pd, lens, i);
    let count = lens[i] as int;
    law_document_rows(lens, i);
    assert(lens[i] > 0);
    lemma_part_row(payload, pd, lens, i, 0);
    assert(q.is_maxsim(part, out[i]@));
    let t = law_kernel_score_is_reached(q, part, out[i]@, qi);
    assert(t < count) by (nonlinear_arith)
        requires
            (t + 1) * pd <= count * pd,
            0 < pd,
    ;
    lemma_part_row(payload, pd, lens, i, t);
    law_flat_signed_dot(q, payload, qi, sums::sum(i, |k: int| lens[k] as int) + t);
    t
}

/// The result of an accepted residual batch, entry by entry: `t` counts the
/// document's own rows, all `lens[i]` of them.
pub proof fn law_residual_batch_entry(
    q: &QueryI8,
    weights: Seq<i8>,
    lut_scale: u32,
    codes: Seq<u8>,
    cids: Seq<u32>,
    cdot_t: Seq<u32>,
    n_centroids: int,
    lens: Seq<i64>,
    out: Seq<ResidualTerms>,
    i: int,
    t: int,
    qi: int,
)
    requires
        q.wf(),
        docs::residual_rows_fault(
            lens,
            q.dim as int / 2,
            codes.len() as int,
            cids,
            n_centroids,
            weights,
        ) is None,
        docs::is_residual_batch(q, weights, lut_scale, codes, cids, cdot_t, lens, out),
        0 <= i < lens.len(),
        0 <= t < lens[i],
        0 <= qi < q.sums@.len(),
    ensures
        out.len() == lens.len(),
        out[i].nq == q.sums@.len(),
        out[i].lut_scale == lut_scale,
        out[i].dots@.len() == lens[i] * q.sums@.len(),
        out[i].centroid@.len() == lens[i] * q.sums@.len(),
        out[i].dots@[t * q.sums@.len() + qi] == sums::sum(
            q.dim as int / 2,
            |k: int|
                q.values@[qi * q.dim + 2 * k] * weights[codes[(sums::sum(
                    i,
                    |m: int| lens[m] as int,
                ) + t) * (q.dim as int / 2) + k] as int / 16] + q.values@[qi * q.dim + 2 * k + 1]
                    * weights[codes[(sums::sum(i, |m: int| lens[m] as int) + t) * (q.dim as int / 2)
                    + k] as int % 16],
        ),
        out[i].centroid@[t * q.sums@.len() + qi] == cdot_t[cids[sums::sum(
            i,
            |m: int| lens[m] as int,
        ) + t] * q.sums@.len() + qi],
{
    let pd = q.dim as int / 2;
    let nq = q.sums@.len() as int;
    let doc_codes = docs::doc_part(codes, pd, lens, i);
    let doc_cids = docs::doc_part(cids, 1, lens, i);
    let a = sums::sum(i, |m: int| lens[m] as int);
    law_document_rows(lens, i);
    lemma_part_row(codes, pd, lens, i, t);
    lemma_part_row(cids, 1, lens, i, t);
    assert(doc_cids.len() == lens[i]);
    assert(model::chunk(doc_cids, 1, t)[0] == model::chunk(cids, 1, a + t)[0]);
    assert(doc_cids[t] == cids[a + t]);
    assert(out[i].is_residual(q, weights, lut_scale, doc_codes, doc_cids, cdot_t));
    law_residual_extent(out[i], q, weights, lut_scale, doc_codes, doc_cids, cdot_t);
    law_residual_entry(out[i], q, weights, lut_scale, doc_codes, doc_cids, cdot_t, t, qi);
    law_row_of_flat(doc_codes, pd, t);
    law_flat_residual_dot(q, weights, doc_codes, qi, t);
    law_flat_residual_dot(q, weights, codes, qi, a + t);
}

/// When the rows of a binary batch are refused, and why: first a length that
/// is not positive, then lengths that do not add up to the rows.
pub proof fn law_binary_rows(lens: Seq<i64>, pd: int, len: int)
    ensures
        docs::binary_rows_fault(lens, pd, len) == Some(DocsError::EmptyDoc) <==> exists|i: int|
            0 <= i < lens.len() && #[trigger] lens[i] <= 0,
        docs::binary_rows_fault(lens, pd, len) == Some(DocsError::PayloadRows) <==> (forall|i: int|
            0 <= i < lens.len() ==> #[trigger] lens[i] > 0) && sums::sum(
            lens.len() as int,
            |k: int| lens[k] as int,
        ) * pd != len,
        docs::binary_rows_fault(lens, pd, len) is None <==> (forall|i: int|
            0 <= i < lens.len() ==> #[trigger] lens[i] > 0) && sums::sum(
            lens.len() as int,
            |k: int| lens[k] as int,
        ) * pd == len,
{
    let f = |k: int| lens[k] as int;
    sums::lemma_sum_eq(lens.len() as int, docs::lens_of(lens), f);
    assert(docs::has_empty_doc(lens) == exists|i: int|
        0 <= i < lens.len() && #[trigger] lens[i] <= 0);
    if !docs::has_empty_doc(lens) {
        assert forall|i: int| 0 <= i < lens.len() implies #[trigger] lens[i] > 0 by {}
    }
}

/// When the rows of a residual batch are refused, and why: first a length that
/// is not positive, then lengths that do not add up to the rows of indices or
/// of centroid ids, then an id without a centroid, then a weight of -128.
pub proof fn law_residual_rows(
    lens: Seq<i64>,
    pd: int,
    codes_len: int,
    cids: Seq<u32>,
    n_centroids: int,
    weights: Seq<i8>,
)
    ensures
        ({
            let fault = docs::residual_rows_fault(
                lens,
                pd,
                codes_len,
                cids,
                n_centroids,
                weights,
            );
            let total = sums::sum(lens.len() as int, |k: int| lens[k] as int);
            let empty = exists|i: int| 0 <= i < lens.len() && #[trigger] lens[i] <= 0;
            let rows = total * pd == codes_len && total == cids.len();
            let past = exists|d: int| 0 <= d < cids.len() && #[trigger] cids[d] >= n_centroids;
            let low = exists|k: int| 0 <= k < weights.len() && #[trigger] weights[k] == -128;
            &&& fault == Some(DocsError::EmptyDoc) <==> empty
            &&& fault == Some(DocsError::CodesRows) <==> !empty && !rows
            &&& fault == Some(DocsError::CentroidId) <==> !empty && rows && past
            &&& fault == Some(DocsError::LutRange) <==> !empty && rows && !past && low
            &&& fault is None <==> !empty && rows && !past && !low
        }),
{
    let f = |k: int| lens[k] as int;
    sums::lemma_sum_eq(lens.len() as int, docs::lens_of(lens), f);
}

/// Which shapes of a binary batch are accepted, and what each fault stands for.
pub proof fn law_binary_shapes(s: &BinaryShapes)
    ensures
        ({
            let dim = 0 < s.dim && s.dim % 8 == 0;
            let rows = dim && 0 < s.nq;
            let columns = rows && s.payload_columns * 8 == s.dim;
            let query = columns && s.query_contiguous;
            let payload = query && s.payload_contiguous;
            &&& s.fault() == Some(DocsError::Dim) <==> !dim
            &&& s.fault() == Some(DocsError::EmptyQuery) <==> dim && !rows
            &&& s.fault() == Some(DocsError::PayloadColumns) <==> rows && !columns
            &&& s.fault() == Some(DocsError::QueryLayout) <==> columns && !query
            &&& s.fault() == Some(DocsError::PayloadLayout) <==> query && !payload
            &&& s.fault() == Some(DocsError::LensLayout) <==> payload && !s.lens_contiguous
            &&& s.fault() is None <==> payload && s.lens_contiguous
        }),
{
    lemma_columns(s.payload_columns as int, s.dim as int, 8);
}

/// Which shapes of a residual batch are accepted, and what each fault stands
/// for.
pub proof fn law_residual_shapes(s: &ResidualShapes)
    ensures
        ({
            let dim = 0 < s.dim && s.dim % 8 == 0;
            let rows = dim && 0 < s.nq;
            let columns = rows && s.codes_columns * 2 == s.dim;
            let cdot_columns = columns && s.cdot_columns == s.nq;
            let entries = cdot_columns && s.lut_entries == 16;
            let query = entries && s.query_contiguous;
            let codes = query && s.codes_contiguous;
            let cids = codes && s.cids_contiguous;
            let cdot = cids && s.cdot_contiguous;
            let lens = cdot && s.lens_contiguous;
            &&& s.fault() == Some(DocsError::Dim) <==> !dim
            &&& s.fault() == Some(DocsError::EmptyQuery) <==> dim && !rows
            &&& s.fault() == Some(DocsError::CodesColumns) <==> rows && !columns
            &&& s.fault() == Some(DocsError::CentroidColumns) <==> columns && !cdot_columns
            &&& s.fault() == Some(DocsError::LutEntries) <==> cdot_columns && !entries
            &&& s.fault() == Some(DocsError::QueryLayout) <==> entries && !query
            &&& s.fault() == Some(DocsError::CodesLayout) <==> query && !codes
            &&& s.fault() == Some(DocsError::CidsLayout) <==> codes && !cids
            &&& s.fault() == Some(DocsError::CentroidLayout) <==> cids && !cdot
            &&& s.fault() == Some(DocsError::LensLayout) <==> cdot && !lens
            &&& s.fault() == Some(DocsError::LutLayout) <==> lens && !s.lut_contiguous
            &&& s.fault() is None <==> lens && s.lut_contiguous
        }),
{
    lemma_columns(s.codes_columns as int, s.dim as int, 2);
}

/// As many columns as `n` to an item make up the dimensions.
proof fn lemma_columns(columns: int, dim: int, n: int)
    requires
        n == 2 || n == 8,
    ensures
        dim % 8 == 0 ==> (columns * n == dim <==> columns == dim / n),
{
}

/// Which patterns encode numbers, and which of them are above zero.
pub proof fn law_kinds_of_patterns(b: u32)
    ensures
        binary32::is_nan(b) <==> b % 0x8000_0000 > 0x7f80_0000,
        binary32::is_positive(b) <==> 0 < b <= 0x7f80_0000,
{
    binary32::lemma_abs_nonnegative(b);
}

/// The values of patterns, in units of the smallest positive number: small
/// patterns count themselves, a step of the exponent doubles, the sign bit
/// negates, and one is `2^149`.
pub proof fn law_values_of_patterns(b: u32)
    ensures
        b < 0x100_0000 ==> binary32::scaled(b) == b,
        0x100_0000 <= b < 0x8000_0000 ==> binary32::scaled(b) == 2 * binary32::scaled(
            (b - 0x80_0000) as u32,
        ),
        0x8000_0000 <= b ==> binary32::scaled(b) == -binary32::scaled((b - 0x8000_0000) as u32),
        binary32::scaled_abs(b) == binary32::scaled((b % 0x8000_0000) as u32),
        binary32::one() == pow2(149),
{
    let m = (b % 0x8000_0000) as u32;
    binary32::lemma_sign_ignored(b, m);
    if b < 0x100_0000 {
        if b >= 0x80_0000 {
            assert(binary32::exponent(b) == 1);
            vstd::arithmetic::power2::lemma2_to64();
            assert((0x80_0000 + binary32::fraction(b)) * 1 == b) by (nonlinear_arith)
                requires
                    0x80_0000 + binary32::fraction(b) == b,
            ;
        }
    } else if b < 0x8000_0000 {
        let c = (b - 0x80_0000) as u32;
        let e = binary32::exponent(b);
        let f = binary32::fraction(b);
        assert(binary32::exponent(c) == e - 1 && binary32::fraction(c) == f && e >= 2);
        vstd::arithmetic::power2::lemma_pow2_unfold((e - 1) as nat);
        let h = pow2((e - 2) as nat) as int;
        assert(pow2((e - 1) as nat) == 2 * h);
        assert((0x80_0000 + f) * (2 * h) == 2 * ((0x80_0000 + f) * h)) by (nonlinear_arith);
    }
}

/// One number is above another where both are numbers and its value is the
/// larger.
pub proof fn law_order_of_patterns(a: u32, b: u32)
    ensures
        binary32::is_greater(a, b) <==> a % 0x8000_0000 <= 0x7f80_0000 && b % 0x8000_0000
            <= 0x7f80_0000 && binary32::scaled(a) > binary32::scaled(b),
        a < b < 0x8000_0000 ==> binary32::scaled(a) < binary32::scaled(b),
{
    law_kinds_of_patterns(a);
    law_kinds_of_patterns(b);
    if a < b < 0x8000_0000 {
        binary32::lemma_abs_increases(a, b);
    }
}

/// The magnitude of a row is the largest of its patterns without their signs,
/// of those that encode numbers; zero where there is none.
pub proof fn law_magnitude_is_largest(row: Seq<u32>, m: u32)
    requires
        query::is_row_magnitude(row, m),
    ensures
        m <= 0x7f80_0000,
        forall|d: int|
            0 <= d < row.len() && #[trigger] row[d] % 0x8000_0000 <= 0x7f80_0000 ==> row[d]
                % 0x8000_0000 <= m,
        m == 0 || exists|d: int| 0 <= d < row.len() && #[trigger] row[d] % 0x8000_0000 == m,
{
    law_kinds_of_patterns(m);
    assert forall|d: int|
        0 <= d < row.len() && #[trigger] row[d] % 0x8000_0000 <= 0x7f80_0000 implies row[d]
        % 0x8000_0000 <= m by {
        let a = (row[d] % 0x8000_0000) as u32;
        law_kinds_of_patterns(row[d]);
        binary32::lemma_sign_ignored(row[d], a);
        if a > m {
            binary32::lemma_abs_increases(m, a);
        }
    }
}

/// The code that quantizing gives an entry: in a row whose magnitude is above
/// zero the integer nearest to the quotient, the even one of two equally near,
/// and the nearer end beyond `-127 ..= 127`; zero for a quotient that is no
/// number, and in every other row.
pub proof fn law_quantized_code(
    q: &QueryI8,
    magnitudes: Seq<u32>,
    scales: Seq<u32>,
    quotients: Seq<u32>,
    dim: int,
    i: int,
)
    requires
        q.is_quantized(magnitudes, scales, quotients, dim),
        0 <= i < quotients.len(),
    ensures
        q.values@.len() == quotients.len(),
        !(0 < magnitudes[i / dim] <= 0x7f80_0000) ==> q.values@[i] == 0,
        quotients[i] % 0x8000_0000 > 0x7f80_0000 ==> q.values@[i] == 0,
        0 < magnitudes[i / dim] <= 0x7f80_0000 && quotients[i] % 0x8000_0000 <= 0x7f80_0000 ==> ({
            let one = pow2(149) as int;
            let value = binary32::scaled(quotients[i]);
            let code = q.values@[i] as int;
            &&& value >= 127 * one ==> code == 127
            &&& value <= -127 * one ==> code == -127
            &&& -127 * one <= value <= 127 * one ==> -one <= 2 * (value - code * one) <= one
            &&& -127 * one <= value <= 127 * one && (2 * (value - code * one) == one || 2 * (value
                - code * one) == -one) ==> code % 2 == 0
        }),
{
    let b = quotients[i];
    law_kinds_of_patterns(b);
    law_kinds_of_patterns(magnitudes[i / dim]);
    assert(q.values@[i] == query::quantized(magnitudes, quotients, dim, i));
    if !binary32::is_nan(b) {
        laws::law_code_is_clamped(b);
        if -127 * binary32::one() <= binary32::scaled(b) <= 127 * binary32::one() {
            laws::law_code_is_nearest(b);
        }
    }
}

/// The dimension, rows and scales that quantizing gives: a row keeps its scale
/// where its magnitude is above zero, and has the scale zero elsewhere.
pub proof fn law_quantized_rows(
    q: &QueryI8,
    magnitudes: Seq<u32>,
    scales: Seq<u32>,
    quotients: Seq<u32>,
    dim: int,
)
    requires
        q.is_quantized(magnitudes, scales, quotients, dim),
    ensures
        q.dim == dim,
        q.sums@.len() == magnitudes.len(),
        q.scales@.len() == magnitudes.len(),
        forall|r: int|
            0 <= r < magnitudes.len() ==> #[trigger] q.scales@[r] == if 0 < magnitudes[r]
                <= 0x7f80_0000 {
                scales[r]
            } else {
                0
            },
{
    assert forall|r: int| 0 <= r < magnitudes.len() implies #[trigger] q.scales@[r] == if 0
        < magnitudes[r] <= 0x7f80_0000 {
        scales[r]
    } else {
        0
    } by {
        law_kinds_of_patterns(magnitudes[r]);
    }
}

/// The code of a pattern on its own: the nearest integer, held to
/// `-127 ..= 127`.
pub proof fn law_code_of_pattern(b: u32)
    ensures
        -127 <= binary32::code_of(b) <= 127,
        b % 0x8000_0000 > 0x7f80_0000 ==> binary32::code_of(b) == 0,
        b % 0x8000_0000 <= 0x7f80_0000 ==> ({
            let one = pow2(149) as int;
            let value = binary32::scaled(b);
            let code = binary32::code_of(b);
            &&& value >= 127 * one ==> code == 127
            &&& value <= -127 * one ==> code == -127
            &&& -127 * one <= value <= 127 * one ==> -one <= 2 * (value - code * one) <= one
            &&& -127 * one <= value <= 127 * one && (2 * (value - code * one) == one || 2 * (value
                - code * one) == -one) ==> code % 2 == 0
        }),
{
    law_kinds_of_patterns(b);
    if !binary32::is_nan(b) {
        laws::law_code_is_clamped(b);
        if -127 * binary32::one() <= binary32::scaled(b) <= 127 * binary32::one() {
            laws::law_code_is_nearest(b);
        }
    }
}

/// A well-formed query, entry by entry: the codes and their sums, the codes
/// plus 128, and the extents of all arrays.
pub proof fn law_query_entries(q: &QueryI8, qi: int, d: int)
    requires
        q.wf(),
        0 <= qi < q.sums@.len(),
        0 <= d < q.dim,
    ensures
        q.dim % 8 == 0,
        q.values@.len() == q.sums@.len() * q.dim,
        q.scales@.len() == q.sums@.len(),
        q.biased@.len() == q.values@.len(),
        0 <= qi * q.dim + d < q.values@.len(),
        -127 <= q.values@[qi * q.dim + d] <= 127,
        q.biased@[qi * q.dim + d] == q.values@[qi * q.dim + d] + 128,
        q.sums@[qi] == sums::sum(q.dim as int, |k: int| q.values@[qi * q.dim + k] as int),
        q.planes@.len() == if q.dim == 128 {
            q.values@.len()
        } else {
            0
        },
        q.perm4@.len() == q.planes@.len(),
        q.absq4@.len() == q.planes@.len(),
        q.planes_smmla@.len() == if q.dim == 128 {
            256 * ((q.sums@.len() as int + 1) / 2)
        } else {
            0
        },
{
    let row = q.row(qi);
    let f = |k: int| q.values@[qi * q.dim + k] as int;
    q.lemma_row(qi);
    assert forall|k: int| 0 <= k < q.dim implies #[trigger] model::codes_of(row)(k) == f(k) by {
        assert(row[k] == q.values@[qi * q.dim + k]);
    }
    sums::lemma_sum_eq(q.dim as int, model::codes_of(row), f);
    assert(q.sums@[qi] == model::row_sum(row));
}

/// The layouts of a well-formed query of 128 dimensions: where each holds the
/// code of dimension `8k + p`, or of dimension `64g + 2j + h`, of row `qi`.
pub proof fn law_query_layouts(
    q: &QueryI8,
    qi: int,
    p: int,
    k: int,
    g: int,
    h: int,
    j: int,
)
    requires
        q.wf(),
        q.dim == 128,
        0 <= qi < q.sums@.len(),
        0 <= p < 8,
        0 <= k < 16,
        0 <= g < 2,
        0 <= h < 2,
        0 <= j < 32,
    ensures
        q.planes@[qi * 128 + p * 16 + k] == q.values@[qi * 128 + k * 8 + p],
        q.perm4@[qi * 128 + g * 64 + h * 32 + j] == q.values@[qi * 128 + g * 64 + 2 * j + h],
        q.absq4@[qi * 128 + g * 64 + h * 32 + j] == if q.values@[qi * 128 + g * 64 + 2 * j + h]
            < 0 {
            -q.values@[qi * 128 + g * 64 + 2 * j + h]
        } else {
            q.values@[qi * 128 + g * 64 + 2 * j + h] as int
        },
{
    laws::law_plane_layout(q, qi, p, k);
    laws::law_even_odd_layout(q, qi, g, h, j);
    q.lemma_row(qi);
    let at = qi * 128 + g * 64 + h * 32 + j;
    assert(q.absq4@[at] == if q.perm4@[at] < 0 {
        -q.perm4@[at]
    } else {
        q.perm4@[at] as int
    });
}

/// The pairs of a well-formed query of 128 dimensions: eight plane bytes of row
/// `2p`, then eight of row `2p + 1`, sixteen times; the last row stands in for
/// one that is missing.
pub proof fn law_query_pairs(q: &QueryI8, p: int, i: int, j: int)
    requires
        q.wf(),
        q.dim == 128,
        0 <= p,
        2 * p < q.sums@.len(),
        0 <= i < 16,
        0 <= j < 8,
    ensures
        q.planes_smmla@[p * 256 + i * 16 + j] == q.planes@[2 * p * 128 + i * 8 + j],
        2 * p + 1 < q.sums@.len() ==> q.planes_smmla@[p * 256 + i * 16 + 8 + j] == q.planes@[(2 * p
            + 1) * 128 + i * 8 + j],
        2 * p + 1 == q.sums@.len() ==> q.planes_smmla@[p * 256 + i * 16 + 8 + j] == q.planes@[2 * p
            * 128 + i * 8 + j],
{
    laws::law_pair_layout(q, p, i, 0, j);
    laws::law_pair_layout(q, p, i, 1, j);
}

/// A query whose arrays agree in every entry is well formed.
pub proof fn law_agreeing_query_is_wf(q: &QueryI8)
    requires
        0 < q.dim <= 16_909_320,
        q.dim % 8 == 0,
        0 < q.sums@.len(),
        q.values@.len() == q.sums@.len() * q.dim,
        q.scales@.len() == q.sums@.len(),
        forall|i: int| 0 <= i < q.values@.len() ==> #[trigger] q.values@[i] != -128,
        forall|qi: int|
            0 <= qi < q.sums@.len() ==> #[trigger] q.sums@[qi] == sums::sum(
                q.dim as int,
                |k: int| q.values@[qi * q.dim + k] as int,
            ),
        q.biased@.len() == q.values@.len(),
        forall|i: int| 0 <= i < q.biased@.len() ==> #[trigger] q.biased@[i] == q.values@[i] + 128,
        q.dim != 128 ==> q.planes@.len() == 0 && q.planes_smmla@.len() == 0 && q.perm4@.len() == 0
            && q.absq4@.len() == 0,
        q.dim == 128 ==> q.planes@.len() == q.values@.len() && q.perm4@.len() == q.values@.len()
            && q.absq4@.len() == q.values@.len() && q.planes_smmla@.len() == 256 * ((
        q.sums@.len() as int + 1) / 2),
        forall|i: int|
            0 <= i < q.planes@.len() ==> #[trigger] q.planes@[i] == q.values@[(i / 128) * 128 + (i
                % 16) * 8 + (i % 128) / 16],
        forall|i: int|
            0 <= i < q.perm4@.len() ==> #[trigger] q.perm4@[i] == q.values@[(i / 64) * 64 + 2 * (i
                % 32) + (i % 64) / 32],
        forall|i: int|
            0 <= i < q.absq4@.len() ==> #[trigger] q.absq4@[i] == if q.perm4@[i] < 0 {
                -q.perm4@[i]
            } else {
                q.perm4@[i] as int
            },
        forall|i: int|
            0 <= i < q.planes_smmla@.len() ==> #[trigger] q.planes_smmla@[i] == q.planes@[(if 2 * (i
                / 256) + (i % 16) / 8 < q.sums@.len() {
                2 * (i / 256) + (i % 16) / 8
            } else {
                q.sums@.len() - 1
            }) * 128 + ((i % 256) / 16) * 8 + i % 8],
    ensures
        q.wf(),
{
    assert forall|qi: int| 0 <= qi < q.nq() implies #[trigger] q.sums@[qi] == model::row_sum(
        q.row(qi),
    ) by {
        let row = q.row(qi);
        let f = |k: int| q.values@[qi * q.dim + k] as int;
        model::lemma_chunk_fits(q.nq(), q.dim as int, qi);
        sums::lemma_sum_eq(q.dim as int, model::codes_of(row), f);
    }
    if q.dim == 128 {
        assert(query::is_plane_major(q.values@, q.planes@));
        assert(query::is_even_odd(q.values@, q.perm4@));
        assert(query::is_abs(q.perm4@, q.absq4@));
        assert(query::is_pair_major(q.nq(), q.planes@, q.planes_smmla@));
    }
}

/// A decode table is well formed where no entry is -128.
pub proof fn law_table_is_wf(lut: &LutI8)
    ensures
        lut.wf() <==> forall|k: int| 0 <= k < 16 ==> #[trigger] lut.values@[k] != -128,
{
    if lut.wf() {
        assert forall|k: int| 0 <= k < 16 implies #[trigger] lut.values@[k] != -128 by {}
    }
}

/// What the residual kernels ask of their arguments.
pub proof fn law_residual_is_ready(
    q: &QueryI8,
    lut: &LutI8,
    codes: Seq<u8>,
    cids: Seq<u32>,
    cdot_t: Seq<u32>,
)
    requires
        q.wf(),
        q.dim <= 133_144,
        forall|k: int| 0 <= k < 16 ==> #[trigger] lut.values@[k] != -128,
        codes.len() == cids.len() * (q.dim as int / 2),
        forall|d: int|
            0 <= d < cids.len() ==> (#[trigger] cids[d] + 1) * q.sums@.len() <= cdot_t.len(),
        cids.len() * q.sums@.len() <= usize::MAX,
    ensures
        residual::residual_ready(q, lut, codes, cids, cdot_t),
{
    law_table_is_wf(lut);
}

/// The dimensions are held to what the sums of codes, and of codes times
/// weights, need to fit in 32 bits whatever the codes, and to no less.
pub proof fn law_limits_are_exact()
    ensures
        127 * query::MAX_DIM <= 0x7fff_ffff < 127 * (query::MAX_DIM + 1),
        127 * 127 * residual::MAX_RESIDUAL_DIM <= 0x7fff_ffff < 127 * 127 * (
        residual::MAX_RESIDUAL_DIM + 1),
{
}

/// No score of a row is above the row's best.
pub proof fn law_best_score_is_not_beaten(scores: Seq<u32>, nq: int, qi: int, r: u32, d: int)
    requires
        0 <= qi < nq,
        residual::is_best(residual::column(scores, nq, qi), r),
        0 <= d,
        (d + 1) * nq <= scores.len(),
    ensures
        r % 0x8000_0000 <= 0x7f80_0000,
        scores[d * nq + qi] % 0x8000_0000 <= 0x7f80_0000 ==> binary32::scaled(scores[d * nq + qi])
            <= binary32::scaled(r),
{
    let col = residual::column(scores, nq, qi);
    lemma_whole_token(scores.len() as int, nq, d);
    law_kinds_of_patterns(r);
    law_kinds_of_patterns(scores[d * nq + qi]);
    law_kinds_of_patterns(binary32::NEG_INFINITY);
    assert(col[d] == scores[d * nq + qi]);
    assert(!binary32::is_greater(col[d], r));
    if r != binary32::NEG_INFINITY {
        let e = choose|e: int| #[trigger] residual::is_first_best(col, r, e);
        assert(binary32::is_greater(r, binary32::NEG_INFINITY));
    }
}

/// The best score of a row is negative infinity, or the first of its scores
/// that no other beats.
pub proof fn law_best_score_is_reached(scores: Seq<u32>, nq: int, qi: int, r: u32) -> (d: int)
    requires
        0 <= qi < nq,
        residual::is_best(residual::column(scores, nq, qi), r),
        r != 0xff80_0000,
    ensures
        0 <= d,
        (d + 1) * nq <= scores.len(),
        scores[d * nq + qi] == r,
        forall|e: int|
            #![trigger scores[e * nq + qi]]
            0 <= e < d && scores[e * nq + qi] % 0x8000_0000 <= 0x7f80_0000 ==> binary32::scaled(
                scores[e * nq + qi],
            ) < binary32::scaled(r),
{
    let col = residual::column(scores, nq, qi);
    let d = choose|d: int| #[trigger] residual::is_first_best(col, r, d);
    model::lemma_whole_rows(scores.len() as int, nq);
    model::lemma_chunk_fits(scores.len() as int / nq, nq, d);
    assert(col[d] == scores[d * nq + qi]);
    assert forall|e: int|
        #![trigger scores[e * nq + qi]]
        0 <= e < d && scores[e * nq + qi] % 0x8000_0000 <= 0x7f80_0000 implies binary32::scaled(
        scores[e * nq + qi],
    ) < binary32::scaled(r) by {
        law_kinds_of_patterns(scores[e * nq + qi]);
        assert(col[e] == scores[e * nq + qi]);
    }
    d
}

/// A packed byte holds the signs of eight numbers, the first worth 128: a one
/// for each number above zero.
pub proof fn law_packed_byte(x: Seq<u32>, bits: Seq<u8>, k: int)
    requires
        signs::is_binarized(x, bits),
        0 <= k < bits.len(),
    ensures
        x.len() == 8 * bits.len(),
        bits[k] == (if 0 < x[8 * k] <= 0x7f80_0000 {
            128int
        } else {
            0
        }) + (if 0 < x[8 * k + 1] <= 0x7f80_0000 {
            64int
        } else {
            0
        }) + (if 0 < x[8 * k + 2] <= 0x7f80_0000 {
            32int
        } else {
            0
        }) + (if 0 < x[8 * k + 3] <= 0x7f80_0000 {
            16int
        } else {
            0
        }) + (if 0 < x[8 * k + 4] <= 0x7f80_0000 {
            8int
        } else {
            0
        }) + (if 0 < x[8 * k + 5] <= 0x7f80_0000 {
            4int
        } else {
            0
        }) + (if 0 < x[8 * k + 6] <= 0x7f80_0000 {
            2int
        } else {
            0
        }) + (if 0 < x[8 * k + 7] <= 0x7f80_0000 {
            1int
        } else {
            0
        }),
{
    assert forall|j: int| 0 <= j < 8 implies #[trigger] model::bit(bits[k], j) == (0 < x[8 * k + j]
        <= 0x7f80_0000) by {
        let d = 8 * k + j;
        assert(d / 8 == k && d % 8 == j);
        assert(model::bit_at(bits, d) == binary32::is_positive(x[d]));
        law_kinds_of_patterns(x[d]);
    }
    law_byte_is_its_bits(bits[k]);
}

} // verus!
