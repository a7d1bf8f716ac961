//! The fused AVX2 kernels for rows of 128 codes.
//!
//! The binary kernel turns a token's bits into byte masks and sums the query's
//! biased codes under them. With 128 added to every code, that sum is
//! `P + 128 * popcount`. The residual kernel looks weights up in a byte
//! shuffle, moves the query's signs onto them, and multiplies by the query's
//! absolute values.

use crate::avx2_lanes;
use crate::laws;
use crate::model;
use crate::query;
use crate::query::QueryI8;
use crate::residual;
use crate::residual::LutI8;
use crate::residual::ResidualTerms;
use crate::sums;
use vstd::prelude::*;

verus! {

/// `mask` is all ones where the bit of its dimension is set, from dimension
/// `at` on, and zero elsewhere.
spec fn is_mask(tok: Seq<u8>, at: int, mask: [u8; 32]) -> bool {
    forall|i: int|
        0 <= i < 32 ==> #[trigger] mask[i] == if model::bit_at(tok, at + i) {
            255int
        } else {
            0int
        }
}

/// A bit singled out by its selector is set exactly where the masked byte is
/// the selector.
proof fn lemma_selector(b: u8, j: u8)
    requires
        j < 8,
    ensures
        (b & (0x80u8 >> j) == 0x80u8 >> j) == model::bit(b, j as int),
{
    let k = (7 - j) as u8;
    assert((b & (0x80u8 >> j) == 0x80u8 >> j) == ((b >> k) & 1u8 == 1u8)) by (bit_vector)
        requires
            j < 8,
            k == 7 - j,
    ;
}

/// The byte masks of 32 bits of a token: each byte is spread over eight
/// places, and a different bit of it is tested in each.
fn mask_32(tok: &[u8], g: usize) -> (mask: [u8; 32])
    requires
        tok@.len() == 16,
        g < 4,
    ensures
        is_mask(tok@, 32 * g, mask),
{
    let word: [u8; 32] = avx2_lanes::broadcast_word(tok, 4 * g);
    let bytes: [u8; 32] = avx2_lanes::shuffle(word, avx2_lanes::byte_spread());
    let select: [u8; 32] = avx2_lanes::bit_selector();
    let picked: [u8; 32] = avx2_lanes::and_bytes(bytes, select);
    let mask: [u8; 32] = avx2_lanes::equal_bytes(picked, select);
    proof {
        assert forall|i: int| 0 <= i < 32 implies #[trigger] mask[i] == if model::bit_at(
            tok@,
            32 * g + i,
        ) {
            255int
        } else {
            0int
        } by {
            let b = tok@[4 * g + i / 8];
            let from = (i / 16) * 16 + i / 8;
            assert(0 <= from < 32 && from % 4 == i / 8);
            assert(word[from] == tok@[4 * g + from % 4]);
            assert(bytes[i] == word[from]);
            assert(select[i] == 0x80u8 >> ((i % 8) as u8));
            assert(picked[i] == bytes[i] & select[i]);
            lemma_selector(b, (i % 8) as u8);
            assert((32 * g + i) / 8 == 4 * g + i / 8 && (32 * g + i) % 8 == i % 8);
        }
    }
    mask
}

/// The number of set bits of a token.
fn count_set_bits(tok: &[u8]) -> (n: i32)
    requires
        tok@.len() == 16,
    ensures
        n == sums::sum(128, model::set_bits(tok@)),
        0 <= n <= 128,
{
    let mut n: i32 = 0;
    let mut k: usize = 0;
    while k < 16
        invariant
            k <= 16,
            tok@.len() == 16,
            n == sums::sum(8 * k, model::set_bits(tok@)),
            0 <= n <= 8 * k,
        decreases 16 - k,
    {
        let byte: u8 = tok[k];
        let mut j: u8 = 0;
        while j < 8
            invariant
                k < 16,
                tok@.len() == 16,
                byte == tok@[k as int],
                j <= 8,
                n == sums::sum(8 * k + j, model::set_bits(tok@)),
                0 <= n <= 8 * k + j,
            decreases 8 - j,
        {
            if (byte >> (7 - j)) & 1 == 1 {
                n = n + 1;
            }
            j = j + 1;
        }
        k = k + 1;
    }
    n
}

/// The biased codes at set bits, zero elsewhere.
spec fn masked_terms(biased: Seq<u8>, tok: Seq<u8>) -> spec_fn(int) -> int {
    |d: int|
        if model::bit_at(tok, d) {
            biased[d] as int
        } else {
            0
        }
}

/// The sums of the biased codes of 32 dimensions under their mask.
fn masked_sad(biased: &[u8], mask: [u8; 32], g: usize, Ghost(tok): Ghost<Seq<u8>>) -> (r: [u64; 4])
    requires
        biased@.len() == 128,
        g < 4,
        is_mask(tok, 32 * g, mask),
    ensures
        avx2_lanes::wide_total(r) == sums::sum(32 * g + 32, masked_terms(biased@, tok)) - sums::sum(
            32 * g as int,
            masked_terms(biased@, tok),
        ),
        forall|l: int| 0 <= l < 4 ==> #[trigger] r[l] <= 2040,
{
    let b: [u8; 32] = avx2_lanes::load_u8(biased, 32 * g);
    let x: [u8; 32] = avx2_lanes::and_bytes(mask, b);
    proof {
        let f = masked_terms(biased@, tok);
        assert forall|i: int| 0 <= i < 32 implies #[trigger] avx2_lanes::bytes_of(x@)(i)
            == sums::shifted(f, 32 * g as int)(i) by {
            let v = b[i];
            assert(255u8 & v == v && 0u8 & v == 0u8) by (bit_vector);
            assert(x[i] == mask[i] & b[i]);
            assert(mask[i] == if model::bit_at(tok, 32 * g + i) {
                255int
            } else {
                0int
            });
        }
        sums::lemma_sum_eq(
            32,
            avx2_lanes::bytes_of(x@),
            sums::shifted(f, 32 * g as int),
        );
        sums::lemma_sum_split(32 * g as int, 32, f);
    }
    avx2_lanes::sad(x)
}

/// The sum of the biased codes at set bits is `P + 128 * popcount`.
proof fn lemma_biased_sum(row: Seq<i8>, biased: Seq<u8>, tok: Seq<u8>)
    requires
        row.len() == 128,
        biased.len() == 128,
        forall|d: int| 0 <= d < 128 ==> #[trigger] biased[d] == row[d] + 128,
    ensures
        sums::sum(128, masked_terms(biased, tok)) == model::selected_sum(row, tok) + 128
            * sums::sum(128, model::set_bits(tok)),
{
    laws::law_biased_sum(row, tok);
    sums::lemma_sum_eq(128, masked_terms(biased, tok), laws::biased_terms(row, tok));
}

/// Row `qi` of the biased codes is row `qi` of the codes plus 128.
proof fn lemma_biased_row(q: &QueryI8, qi: int)
    requires
        q.wf(),
        q.dim == 128,
        0 <= qi < q.nq(),
    ensures
        q.biased@.len() == q.nq() * 128,
        model::chunk(q.biased@, 128, qi).len() == 128,
        forall|d: int|
            0 <= d < 128 ==> #[trigger] model::chunk(q.biased@, 128, qi)[d] == q.row(qi)[d] + 128,
{
    q.lemma_row(qi);
}

/// Best dot product of each query row with a token of a packed binary document
/// of 128 dimensions, by sums of biased codes under byte masks.
pub fn maxsim_avx2_sad128(q: &QueryI8, bits: &[u8]) -> (best: Vec<i32>)
    requires
        q.wf(),
        q.dim == 128,
    ensures
        q.is_maxsim(bits@, best@),
{
    let nq: usize = q.sums.len();
    let nd: usize = bits.len() / 16;
    let mut best: Vec<i32> = Vec::with_capacity(nq);
    let mut qi: usize = 0;
    while qi < nq
        invariant
            qi <= nq,
            best@.len() == qi,
            forall|k: int| 0 <= k < qi ==> #[trigger] best@[k] == i32::MIN,
        decreases nq - qi,
    {
        best.push(i32::MIN);
        qi = qi + 1;
    }
    let mut d: usize = 0;
    while d < nd
        invariant
            q.wf(),
            q.dim == 128,
            nq == q.nq(),
            nd == bits@.len() / 16,
            d <= nd,
            best@.len() == nq,
            forall|k: int|
                0 <= k < nq ==> #[trigger] best@[k] == model::best_score(
                    q.row(k),
                    bits@,
                    d as int,
                ),
        decreases nd - d,
    {
        let tok: &[u8] = query::row_slice(bits, 16, d, nd);
        let m0: [u8; 32] = mask_32(tok, 0);
        let m1: [u8; 32] = mask_32(tok, 1);
        let m2: [u8; 32] = mask_32(tok, 2);
        let m3: [u8; 32] = mask_32(tok, 3);
        let cnt: i32 = count_set_bits(tok);
        let mut qi: usize = 0;
        while qi < nq
            invariant
                q.wf(),
                q.dim == 128,
                nq == q.nq(),
                nd == bits@.len() / 16,
                d < nd,
                tok@ == model::chunk(bits@, 16, d as int),
                is_mask(tok@, 0, m0),
                is_mask(tok@, 32, m1),
                is_mask(tok@, 64, m2),
                is_mask(tok@, 96, m3),
                cnt == sums::sum(128, model::set_bits(tok@)),
                0 <= cnt <= 128,
                qi <= nq,
                best@.len() == nq,
                forall|k: int|
                    0 <= k < qi ==> #[trigger] best@[k] == model::best_score(
                        q.row(k),
                        bits@,
                        d + 1,
                    ),
                forall|k: int|
                    qi <= k < nq ==> #[trigger] best@[k] == model::best_score(
                        q.row(k),
                        bits@,
                        d as int,
                    ),
            decreases nq - qi,
        {
            let ghost row = q.row(qi as int);
            proof {
                q.lemma_row(qi as int);
                lemma_biased_row(q, qi as int);
            }
            let biased: &[u8] = query::row_slice(q.biased.as_slice(), 128, qi, nq);
            let s0: [u64; 4] = masked_sad(biased, m0, 0, Ghost(tok@));
            let s1: [u64; 4] = masked_sad(biased, m1, 1, Ghost(tok@));
            let s2: [u64; 4] = masked_sad(biased, m2, 2, Ghost(tok@));
            let s3: [u64; 4] = masked_sad(biased, m3, 3, Ghost(tok@));
            let s: [u64; 4] = avx2_lanes::add_wide(
                avx2_lanes::add_wide(s0, s1),
                avx2_lanes::add_wide(s2, s3),
            );
            let sad: i32 = avx2_lanes::add_across_wide(s) as i32;
            proof {
                assert(sums::sum(0, masked_terms(biased@, tok@)) == 0);
                lemma_biased_sum(row, biased@, tok@);
                model::lemma_row_bounds(row, tok@, 128);
                model::lemma_two_p_minus_t(row, tok@, 128);
            }
            // The sum is P + 128 * popcount, so P is what is left of it.
            let score: i32 = 2 * (sad - 128 * cnt) - q.sums[qi];
            if score > best[qi] {
                best.set(qi, score);
            }
            qi = qi + 1;
        }
        d = d + 1;
    }
    best
}

/// Shifting words and masking leaves each byte's own high nibble.
proof fn lemma_high_nibbles(lo: u8, hi: u8)
    ensures
        ((lo >> 4u8) | (hi << 4u8)) & 15u8 == lo >> 4u8,
        (lo >> 4u8) & 15u8 == lo >> 4u8,
        lo >> 4u8 < 16,
        lo & 15u8 < 16,
{
    assert(((lo >> 4u8) | (hi << 4u8)) & 15u8 == lo >> 4u8) by (bit_vector);
    assert((lo >> 4u8) & 15u8 == lo >> 4u8) by (bit_vector);
    assert(lo >> 4u8 < 16u8) by (bit_vector);
    assert(lo & 15u8 < 16u8) by (bit_vector);
}

/// The indices in the high or low nibbles of 32 bytes of a token, from byte
/// `at` on.
fn nibbles_32(tok: &[u8], at: usize, high: bool) -> (index: [u8; 32])
    requires
        at + 32 <= tok@.len(),
    ensures
        forall|i: int|
            0 <= i < 32 ==> #[trigger] index[i] == if high {
                tok@[at + i] >> 4u8
            } else {
                tok@[at + i] & 15u8
            },
{
    let v: [u8; 32] = avx2_lanes::load_u8(tok, at);
    if high {
        let words: [u8; 32] = avx2_lanes::shift_words_right_4(v);
        let index: [u8; 32] = avx2_lanes::and_all(words, 15);
        proof {
            assert forall|i: int| 0 <= i < 32 implies #[trigger] index[i] == tok@[at + i]
                >> 4u8 by {
                assert(index[i] == words[i] & 15u8);
                assert(v[i] == tok@[at + i]);
                if i % 2 == 0 {
                    lemma_high_nibbles(v[i], v[i + 1]);
                } else {
                    lemma_high_nibbles(v[i], 0);
                }
            }
        }
        index
    } else {
        avx2_lanes::and_all(v, 15)
    }
}

/// The 128 weights that a packed residual token looks up, in the order of a
/// query's `perm4`.
fn lookup_weights_128(lut: &LutI8, tok: &[u8]) -> (w: [i8; 128])
    requires
        tok@.len() == 64,
    ensures
        residual::is_looked_up(lut.values@, tok@, w@),
{
    let table: [i8; 32] = avx2_lanes::broadcast_table(&lut.values);
    let mut w: [i8; 128] = [0i8;128];
    let mut g: usize = 0;
    while g < 4
        invariant
            g <= 4,
            tok@.len() == 64,
            forall|i: int| 0 <= i < 32 ==> #[trigger] table[i] == lut.values[i % 16],
            forall|i: int|
                0 <= i < 32 * g ==> #[trigger] w[i] == lut.values@[model::nibble_at(
                    tok@,
                    residual::even_odd_dim(i),
                )],
        decreases 4 - g,
    {
        let at: usize = (g / 2) * 32;
        let high: bool = g % 2 == 0;
        let index: [u8; 32] = nibbles_32(tok, at, high);
        let x: [i8; 32] = avx2_lanes::shuffle_signed(table, index);
        let mut k: usize = 0;
        while k < 32
            invariant
                g < 4,
                k <= 32,
                tok@.len() == 64,
                at == (g / 2) * 32,
                high == (g % 2 == 0),
                forall|i: int| 0 <= i < 32 ==> #[trigger] table[i] == lut.values[i % 16],
                forall|i: int|
                    0 <= i < 32 ==> #[trigger] index[i] == if high {
                        tok@[at + i] >> 4u8
                    } else {
                        tok@[at + i] & 15u8
                    },
                forall|i: int|
                    0 <= i < 32 ==> #[trigger] x[i] == if index[i] >= 128 {
                        0
                    } else {
                        table[(i / 16) * 16 + index[i] % 16] as int
                    },
                forall|i: int|
                    0 <= i < 32 * g + k ==> #[trigger] w[i] == lut.values@[model::nibble_at(
                        tok@,
                        residual::even_odd_dim(i),
                    )],
            decreases 32 - k,
        {
            proof {
                let i = 32 * g + k;
                let d = residual::even_odd_dim(i);
                let b = tok@[at + k];
                lemma_high_nibbles(b, 0);
                assert(index[k as int] == if high {
                    b >> 4u8
                } else {
                    b & 15u8
                });
                assert(d / 2 == at + k);
                assert(d % 2 == if high {
                    0int
                } else {
                    1int
                });
                let n = index[k as int] as int;
                assert(0 <= n < 16);
                assert(((k as int / 16) * 16 + n) % 16 == n);
                assert(x[k as int] == table[(k as int / 16) * 16 + n]);
                assert(x[k as int] == lut.values@[model::nibble_at(tok@, d)]);
            }
            w[32 * g + k] = x[k];
            k = k + 1;
        }
        g = g + 1;
    }
    w
}

/// `ws` has the weights from `at` on with the signs of the codes, and `mag` the
/// absolute values of the codes: their products are those of codes and weights.
proof fn lemma_signed_products(
    perm: Seq<i8>,
    abs: Seq<u8>,
    w: Seq<i8>,
    at: int,
    mag: [u8; 32],
    ws: [i8; 32],
    i: int,
)
    requires
        0 <= at,
        at + 32 <= perm.len(),
        w.len() == perm.len(),
        query::is_abs(perm, abs),
        model::symmetric(perm),
        model::symmetric(w),
        0 <= i < 32,
        mag[i] == abs[at + i],
        ws[i] == if perm[at + i] < 0 {
            -w[at + i]
        } else if perm[at + i] == 0 {
            0
        } else {
            w[at + i] as int
        },
    ensures
        mag[i] * ws[i] == model::products(perm, w)(at + i),
        -16129 <= mag[i] * ws[i] <= 16129,
{
    let v = perm[at + i] as int;
    let x = w[at + i] as int;
    assert((-v) * (-x) == v * x) by (nonlinear_arith);
    assert(v == 0 ==> v * x == 0) by (nonlinear_arith);
    model::lemma_product_bound(v, x);
    assert(abs[at + i] == if v < 0 {
        -v
    } else {
        v
    });
}

/// Eight lanes of four products each add up to the 32 terms from `at` on.
proof fn lemma_group_total(f: spec_fn(int) -> int, at: int, p: [i16; 16], r: [i32; 8])
    requires
        0 <= at,
        forall|i: int|
            0 <= i < 16 ==> #[trigger] p[i] == f(at + 2 * i) + f(at + 2 * i + 1),
        forall|i: int| 0 <= i < 8 ==> #[trigger] r[i] == p[2 * i] + p[2 * i + 1],
    ensures
        avx2_lanes::lane_total(r) == sums::sum(at + 32, f) - sums::sum(at, f),
{
    assert(sums::sum(at + 32, f) == sums::sum(at, f)
        + f(at) + f(at + 1) + f(at + 2) + f(at + 3)
        + f(at + 4) + f(at + 5) + f(at + 6) + f(at + 7)
        + f(at + 8) + f(at + 9) + f(at + 10) + f(at + 11)
        + f(at + 12) + f(at + 13) + f(at + 14) + f(at + 15)
        + f(at + 16) + f(at + 17) + f(at + 18) + f(at + 19)
        + f(at + 20) + f(at + 21) + f(at + 22) + f(at + 23)
        + f(at + 24) + f(at + 25) + f(at + 26) + f(at + 27)
        + f(at + 28) + f(at + 29) + f(at + 30) + f(at + 31)) by {
        reveal_with_fuel(sums::sum, 33);
    }
    assert(r[0] == f(at + 0) + f(at + 1) + f(at + 2) + f(at + 3)) by {
        assert(p[0] == f(at + 0) + f(at + 1));
        assert(p[1] == f(at + 2) + f(at + 3));
    }
    assert(r[1] == f(at + 4) + f(at + 5) + f(at + 6) + f(at + 7)) by {
        assert(p[2] == f(at + 4) + f(at + 5));
        assert(p[3] == f(at + 6) + f(at + 7));
    }
    assert(r[2] == f(at + 8) + f(at + 9) + f(at + 10) + f(at + 11)) by {
        assert(p[4] == f(at + 8) + f(at + 9));
        assert(p[5] == f(at + 10) + f(at + 11));
    }
    assert(r[3] == f(at + 12) + f(at + 13) + f(at + 14) + f(at + 15)) by {
        assert(p[6] == f(at + 12) + f(at + 13));
        assert(p[7] == f(at + 14) + f(at + 15));
    }
    assert(r[4] == f(at + 16) + f(at + 17) + f(at + 18) + f(at + 19)) by {
        assert(p[8] == f(at + 16) + f(at + 17));
        assert(p[9] == f(at + 18) + f(at + 19));
    }
    assert(r[5] == f(at + 20) + f(at + 21) + f(at + 22) + f(at + 23)) by {
        assert(p[10] == f(at + 20) + f(at + 21));
        assert(p[11] == f(at + 22) + f(at + 23));
    }
    assert(r[6] == f(at + 24) + f(at + 25) + f(at + 26) + f(at + 27)) by {
        assert(p[12] == f(at + 24) + f(at + 25));
        assert(p[13] == f(at + 26) + f(at + 27));
    }
    assert(r[7] == f(at + 28) + f(at + 29) + f(at + 30) + f(at + 31)) by {
        assert(p[14] == f(at + 28) + f(at + 29));
        assert(p[15] == f(at + 30) + f(at + 31));
    }
}

/// The products of 32 codes and weights from `32 * g` on, summed by fours into
/// eight lanes.
fn group_lanes(perm: &[i8], abs: &[u8], w: &[i8; 128], g: usize) -> (r: [i32; 8])
    requires
        perm@.len() == 128,
        query::is_abs(perm@, abs@),
        model::symmetric(perm@),
        model::symmetric(w@),
        g < 4,
    ensures
        avx2_lanes::lane_total(r) == sums::sum(32 * g + 32, model::products(perm@, w@))
            - sums::sum(32 * g as int, model::products(perm@, w@)),
        avx2_lanes::within(r, 65536),
{
    let codes: [i8; 32] = avx2_lanes::load_i8(perm, 32 * g);
    let mag: [u8; 32] = avx2_lanes::load_u8(abs, 32 * g);
    let weights: [i8; 32] = avx2_lanes::load_i8(w.as_slice(), 32 * g);
    let ws: [i8; 32] = avx2_lanes::sign_bytes(weights, codes);
    let p: [i16; 16] = avx2_lanes::multiply_add_bytes(mag, ws);
    let r: [i32; 8] = avx2_lanes::pair_sums(p);
    proof {
        let at = 32 * g as int;
        let f = model::products(perm@, w@);
        assert forall|i: int| 0 <= i < 32 implies mag[i] * ws[i] == #[trigger] f(at + i)
            && -16129 <= mag[i] * ws[i] <= 16129 by {
            assert(weights[i] == w@[at + i]);
            assert(codes[i] == perm@[at + i]);
            assert(mag[i] == abs@[at + i]);
            assert(ws[i] == if perm@[at + i] < 0 {
                -w@[at + i]
            } else if perm@[at + i] == 0 {
                0
            } else {
                w@[at + i] as int
            });
            lemma_signed_products(perm@, abs@, w@, at, mag, ws, i);
        }
        assert forall|i: int| 0 <= i < 16 implies #[trigger] p[i] == f(at + 2 * i) + f(
            at + 2 * i + 1,
        ) && -32258 <= p[i] <= 32258 by {
            assert(mag[2 * i] * ws[2 * i] == f(at + 2 * i));
            assert(mag[2 * i + 1] * ws[2 * i + 1] == f(at + (2 * i + 1)));
        }
        lemma_group_total(f, at, p, r);
    }
    r
}

/// Terms of a residual document of 128 dimensions: each token's weights are
/// looked up once by byte shuffles, and multiplied with every query row by the
/// transfer of signs.
pub fn maxsim_r4_avx2_128(
    q: &QueryI8,
    lut: &LutI8,
    codes: &[u8],
    cids: &[u32],
    cdot_t: &[u32],
) -> (terms: ResidualTerms)
    requires
        residual::residual_ready(q, lut, codes@, cids@, cdot_t@),
        q.dim == 128,
    ensures
        terms.is_residual(q, lut.values@, lut.scale, codes@, cids@, cdot_t@),
{
    let nq: usize = q.sums.len();
    let nd: usize = cids.len();
    let mut terms: ResidualTerms = ResidualTerms::start(
        nq,
        lut,
        Ghost(q),
        Ghost(codes@),
        Ghost(cids@),
        Ghost(cdot_t@),
    );
    let mut d: usize = 0;
    while d < nd
        invariant
            residual::residual_ready(q, lut, codes@, cids@, cdot_t@),
            q.dim == 128,
            nq == q.nq(),
            d <= nd == cids@.len(),
            terms.holds(q, lut.values@, lut.scale, codes@, cids@, cdot_t@, d * q.nq()),
        decreases nd - d,
    {
        let tok: &[u8] = query::row_slice(codes, 64, d, nd);
        let w: [i8; 128] = lookup_weights_128(lut, tok);
        proof {
            assert forall|i: int| 0 <= i < w@.len() implies -127 <= #[trigger] w@[i] <= 127 by {
                assert(w@[i] == lut.values@[model::nibble_at(
                    tok@,
                    residual::even_odd_dim(i),
                )]);
                model::lemma_nibble_range(tok@, residual::even_odd_dim(i));
            }
        }
        let mut qi: usize = 0;
        while qi < nq
            invariant
                residual::residual_ready(q, lut, codes@, cids@, cdot_t@),
                q.dim == 128,
                nq == q.nq(),
                d < nd == cids@.len(),
                tok@ == model::chunk(codes@, 64, d as int),
                residual::is_looked_up(lut.values@, tok@, w@),
                model::symmetric(w@),
                qi <= nq,
                terms.holds(q, lut.values@, lut.scale, codes@, cids@, cdot_t@, d * q.nq() + qi),
            decreases nq - qi,
        {
            proof {
                q.lemma_row(qi as int);
                residual::lemma_perm_row(q, qi as int);
            }
            let perm: &[i8] = query::row_slice(q.perm4.as_slice(), 128, qi, nq);
            let abs: &[u8] = query::row_slice(q.absq4.as_slice(), 128, qi, nq);
            proof {
                residual::lemma_even_odd_dot(q.row(qi as int), perm@, lut.values@, tok@, w@);
                assert(model::symmetric(perm@)) by {
                    assert forall|i: int| 0 <= i < perm@.len() implies -127 <= #[trigger] perm@[i]
                        <= 127 by {
                        assert(perm@[i] == q.row(qi as int)[residual::even_odd_dim(i)]);
                    }
                }
            }
            let acc: i32 = residual_dot_128(perm, abs, &w);
            terms.push(
                qi,
                acc,
                cdot_t,
                cids[d],
                Ghost(d as int),
                Ghost(q),
                Ghost(lut),
                Ghost(codes@),
                Ghost(cids@),
            );
            qi = qi + 1;
        }
        assert((d + 1) * q.nq() == d * q.nq() + q.nq()) by (nonlinear_arith);
        d = d + 1;
    }
    terms
}

/// The dot product of 128 permuted codes and looked-up weights.
fn residual_dot_128(perm: &[i8], abs: &[u8], w: &[i8; 128]) -> (acc: i32)
    requires
        perm@.len() == 128,
        query::is_abs(perm@, abs@),
        model::symmetric(perm@),
        model::symmetric(w@),
    ensures
        acc == sums::sum(128, model::products(perm@, w@)),
{
    let mut acc: [i32; 8] = [0i32;8];
    let mut g: usize = 0;
    while g < 4
        invariant
            g <= 4,
            perm@.len() == 128,
            query::is_abs(perm@, abs@),
            model::symmetric(perm@),
            model::symmetric(w@),
            avx2_lanes::lane_total(acc) == sums::sum(32 * g as int, model::products(perm@, w@)),
            avx2_lanes::within(acc, 65536 * g),
        decreases 4 - g,
    {
        let r: [i32; 8] = group_lanes(perm, abs, w, g);
        acc = avx2_lanes::add_lanes(acc, r);
        g = g + 1;
    }
    avx2_lanes::add_across(acc)
}

} // verus!
