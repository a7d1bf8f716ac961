//! What a MaxSim score is, over sequences of codes, sign bits and table indices.
//!
//! A query is a list of rows of signed integer codes. A binary document token
//! is a row of sign bits, packed eight to a byte with the most significant bit
//! first. A residual document token is a row of 4-bit table indices, packed
//! two to a byte with the high nibble first.

use crate::sums;
use vstd::prelude::*;

verus! {

/// Row `i` of a flat sequence whose rows are `n` long.
pub open spec fn chunk<T>(s: Seq<T>, n: int, i: int) -> Seq<T> {
    s.subrange(i * n, i * n + n)
}

/// Bit `j` of a byte, counted from the most significant.
pub open spec fn bit(b: u8, j: int) -> bool {
    (b >> ((7 - j) as u8)) & 1u8 == 1u8
}

/// Sign bit of dimension `d` of a packed token.
pub open spec fn bit_at(tok: Seq<u8>, d: int) -> bool {
    bit(tok[d / 8], d % 8)
}

/// The value that a sign bit stands for: +1 where it is set, -1 where not.
pub open spec fn sign_at(tok: Seq<u8>, d: int) -> int {
    if bit_at(tok, d) {
        1
    } else {
        -1
    }
}

/// Table index of dimension `d` of a packed residual token.
pub open spec fn nibble_at(tok: Seq<u8>, d: int) -> int {
    if d % 2 == 0 {
        (tok[d / 2] >> 4u8) as int
    } else {
        (tok[d / 2] & 15u8) as int
    }
}

/// The codes of a row, as terms of a sum.
pub open spec fn codes_of(row: Seq<i8>) -> spec_fn(int) -> int {
    |d: int| row[d] as int
}

/// Code times sign, dimension by dimension.
pub open spec fn signed_terms(row: Seq<i8>, tok: Seq<u8>) -> spec_fn(int) -> int {
    |d: int| row[d] * sign_at(tok, d)
}

/// The codes at set bits, zero elsewhere.
pub open spec fn selected_terms(row: Seq<i8>, tok: Seq<u8>) -> spec_fn(int) -> int {
    |d: int|
        if bit_at(tok, d) {
            row[d] as int
        } else {
            0
        }
}

/// One for each set bit.
pub open spec fn set_bits(tok: Seq<u8>) -> spec_fn(int) -> int {
    |d: int|
        if bit_at(tok, d) {
            1
        } else {
            0
        }
}

/// Code times looked-up weight, dimension by dimension.
pub open spec fn residual_terms(row: Seq<i8>, lut: Seq<i8>, tok: Seq<u8>) -> spec_fn(int) -> int {
    |d: int| row[d] * lut[nibble_at(tok, d)]
}

/// Products of two sequences, term by term.
pub open spec fn products(x: Seq<i8>, y: Seq<i8>) -> spec_fn(int) -> int {
    |i: int| x[i] * y[i]
}

/// `T`: the sum of a row's codes.
pub open spec fn row_sum(row: Seq<i8>) -> int {
    sums::sum(row.len() as int, codes_of(row))
}

/// `P`: the sum of a row's codes over a token's set bits.
pub open spec fn selected_sum(row: Seq<i8>, tok: Seq<u8>) -> int {
    sums::sum(row.len() as int, selected_terms(row, tok))
}

/// The dot product of a row of codes and the signs of a token.
pub open spec fn signed_dot(row: Seq<i8>, tok: Seq<u8>) -> int {
    sums::sum(row.len() as int, signed_terms(row, tok))
}

/// The dot product of a row of codes and the weights that a token's indices
/// look up.
pub open spec fn residual_dot(row: Seq<i8>, lut: Seq<i8>, tok: Seq<u8>) -> int {
    sums::sum(row.len() as int, residual_terms(row, lut, tok))
}

/// The larger of two integers.
pub open spec fn max(a: int, b: int) -> int {
    if a >= b {
        a
    } else {
        b
    }
}

/// The largest signed dot product of a row over the first `n` tokens of a
/// packed document, `i32::MIN` over none.
pub open spec fn best_score(row: Seq<i8>, bits: Seq<u8>, n: int) -> int
    decreases n,
{
    if n <= 0 {
        i32::MIN as int
    } else {
        max(
            best_score(row, bits, n - 1),
            signed_dot(row, chunk(bits, row.len() as int / 8, n - 1)),
        )
    }
}

/// Every code is within `-127 ..= 127`.
pub open spec fn symmetric(codes: Seq<i8>) -> bool {
    forall|i: int| 0 <= i < codes.len() ==> -127 <= #[trigger] codes[i] <= 127
}

/// Row `i` of `count` rows of length `n` lies inside the sequence.
pub proof fn lemma_chunk_fits(count: int, n: int, i: int)
    requires
        0 <= i < count,
        0 <= n,
    ensures
        0 <= i * n,
        i * n + n <= count * n,
        (i + 1) * n == i * n + n,
{
    assert(0 <= i * n) by (nonlinear_arith)
        requires
            0 <= i,
            0 <= n,
    ;
    assert((i + 1) * n == i * n + n) by (nonlinear_arith);
    assert((i + 1) * n <= count * n) by (nonlinear_arith)
        requires
            i + 1 <= count,
            0 <= n,
    ;
}

/// There are `len / n` whole rows of length `n` in `len` items.
pub proof fn lemma_whole_rows(len: int, n: int)
    requires
        0 <= len,
        0 < n,
    ensures
        0 <= len / n,
        (len / n) * n <= len,
        len / n <= len,
{
    vstd::arithmetic::div_mod::lemma_fundamental_div_mod(len, n);
    vstd::arithmetic::div_mod::lemma_mod_bound(len, n);
    vstd::arithmetic::div_mod::lemma_div_pos_is_pos(len, n);
    vstd::arithmetic::div_mod::lemma_div_nonincreasing(len, n);
    assert((len / n) * n == n * (len / n)) by (nonlinear_arith);
}

/// The signed dot product is `2P - T`, over the first `n` dimensions.
pub proof fn lemma_two_p_minus_t(row: Seq<i8>, tok: Seq<u8>, n: int)
    requires
        0 <= n,
    ensures
        sums::sum(n, signed_terms(row, tok)) == 2 * sums::sum(n, selected_terms(row, tok))
            - sums::sum(n, codes_of(row)),
    decreases n,
{
    if n > 0 {
        lemma_two_p_minus_t(row, tok, n - 1);
        let v = row[n - 1] as int;
        assert(v * 1 == v && v * -1 == -v) by (nonlinear_arith);
    }
}

/// Bounds on what a row of symmetric codes adds up to, over its first `n`
/// dimensions.
pub proof fn lemma_row_bounds(row: Seq<i8>, tok: Seq<u8>, n: int)
    requires
        symmetric(row),
        0 <= n <= row.len(),
    ensures
        -127 * n <= sums::sum(n, codes_of(row)) <= 127 * n,
        -127 * n <= sums::sum(n, selected_terms(row, tok)) <= 127 * n,
        -127 * n <= sums::sum(n, signed_terms(row, tok)) <= 127 * n,
{
    sums::lemma_sum_bound(n, 127, codes_of(row));
    sums::lemma_sum_bound(n, 127, selected_terms(row, tok));
    assert forall|i: int| 0 <= i < n implies -127 <= #[trigger] signed_terms(row, tok)(i)
        <= 127 by {
        let v = row[i] as int;
        assert(v * 1 == v && v * -1 == -v) by (nonlinear_arith);
    }
    sums::lemma_sum_bound(n, 127, signed_terms(row, tok));
}

/// Bound on a residual dot product of symmetric codes and weights, over the
/// first `n` dimensions.
pub proof fn lemma_residual_bounds(row: Seq<i8>, lut: Seq<i8>, tok: Seq<u8>, n: int)
    requires
        symmetric(row),
        symmetric(lut),
        lut.len() == 16,
        0 <= n <= row.len(),
    ensures
        -16129 * n <= sums::sum(n, residual_terms(row, lut, tok)) <= 16129 * n,
{
    assert forall|i: int| 0 <= i < n implies -16129 <= #[trigger] residual_terms(row, lut, tok)(i)
        <= 16129 by {
        lemma_nibble_range(tok, i);
        lemma_product_bound(row[i] as int, lut[nibble_at(tok, i)] as int);
    }
    sums::lemma_sum_bound(n, 16129, residual_terms(row, lut, tok));
}

/// A product of two integers within `-127 ..= 127`.
pub proof fn lemma_product_bound(a: int, b: int)
    requires
        -127 <= a <= 127,
        -127 <= b <= 127,
    ensures
        -16129 <= a * b <= 16129,
{
    assert(-16129 <= a * b <= 16129) by (nonlinear_arith)
        requires
            -127 <= a <= 127,
            -127 <= b <= 127,
    ;
}

/// A table index has four bits.
pub proof fn lemma_nibble_range(tok: Seq<u8>, d: int)
    ensures
        0 <= nibble_at(tok, d) < 16,
{
    let b = tok[d / 2];
    assert(b >> 4u8 < 16u8) by (bit_vector);
    assert(b & 15u8 < 16u8) by (bit_vector);
}

} // verus!
