//! Residual scoring with a 4-bit table: a token decodes to a centroid plus
//! looked-up weights, so its score against a query row is a centroid term,
//! already known, plus an integer dot product of codes and weights.
//!
//! The integer part and the choice of centroid terms are here. The two are
//! joined as `scale_q * scale_w * dot + centroid`, in floating point, and
//! [`best_scores`] then takes the best token of every row.

use crate::binary32;
use crate::model;
use crate::query;
use crate::query::QueryI8;
use crate::sums;
use vstd::prelude::*;

verus! {

/// The largest dimension whose residual dot products fit in an `i32` whatever
/// the codes and weights.
pub const MAX_RESIDUAL_DIM: usize = 133_144;

/// The quantized 16-entry decode table: entry times scale is a weight.
pub struct LutI8 {
    pub values: [i8; 16],
    /// The common scale, as a binary32 pattern.
    pub scale: u32,
}

impl LutI8 {
    /// Every entry is within `-127 ..= 127`, so that its sign can be flipped.
    pub open spec fn wf(&self) -> bool {
        model::symmetric(self.values@)
    }
}

/// The two parts of the score of each document token against each of `nq`
/// query rows, token by token: entry `d * nq + qi` is of token `d` and row
/// `qi`.
pub struct ResidualTerms {
    pub nq: usize,
    /// The table's scale, as a binary32 pattern: a dot product times its row's
    /// scale and this one is in the units of the centroid terms.
    pub lut_scale: u32,
    /// Integer dot products of codes and weights.
    pub dots: Vec<i32>,
    /// Centroid terms, as binary32 patterns.
    pub centroid: Vec<u32>,
}

/// Every centroid id names a whole row of `nq` entries out of `len`.
pub open spec fn cids_in_range(cids: Seq<u32>, nq: int, len: int) -> bool {
    forall|d: int| 0 <= d < cids.len() ==> (#[trigger] cids[d] + 1) * nq <= len
}

/// What the residual kernels ask of their arguments: a packed row of indices
/// and a centroid row for each token.
pub open spec fn residual_ready(
    q: &QueryI8,
    lut: &LutI8,
    codes: Seq<u8>,
    cids: Seq<u32>,
    cdot_t: Seq<u32>,
) -> bool {
    &&& q.wf()
    &&& lut.wf()
    &&& q.dim <= MAX_RESIDUAL_DIM
    &&& codes.len() == cids.len() * (q.dim as int / 2)
    &&& cids_in_range(cids, q.nq(), cdot_t.len() as int)
    &&& cids.len() * q.nq() <= usize::MAX
}

impl ResidualTerms {
    /// The first `n` entries are the dot products and centroid terms of their
    /// token and row.
    pub open spec fn holds(
        &self,
        q: &QueryI8,
        weights: Seq<i8>,
        lut_scale: u32,
        codes: Seq<u8>,
        cids: Seq<u32>,
        cdot_t: Seq<u32>,
        n: int,
    ) -> bool {
        &&& self.nq == q.nq()
        &&& self.lut_scale == lut_scale
        &&& self.dots@.len() == n
        &&& self.centroid@.len() == n
        &&& forall|i: int|
            0 <= i < n ==> #[trigger] self.dots@[i] == model::residual_dot(
                q.row(i % q.nq()),
                weights,
                model::chunk(codes, q.dim as int / 2, i / q.nq()),
            )
        &&& forall|i: int|
            0 <= i < n ==> #[trigger] self.centroid@[i] == cdot_t[cids[i / q.nq()] * q.nq() + i
                % q.nq()]
    }

    /// The terms of every token and row.
    pub open spec fn is_residual(
        &self,
        q: &QueryI8,
        weights: Seq<i8>,
        lut_scale: u32,
        codes: Seq<u8>,
        cids: Seq<u32>,
        cdot_t: Seq<u32>,
    ) -> bool {
        self.holds(q, weights, lut_scale, codes, cids, cdot_t, cids.len() * q.nq())
    }

    /// No terms yet.
    pub(crate) fn start(
        nq: usize,
        lut: &LutI8,
        Ghost(q): Ghost<&QueryI8>,
        Ghost(codes): Ghost<Seq<u8>>,
        Ghost(cids): Ghost<Seq<u32>>,
        Ghost(cdot_t): Ghost<Seq<u32>>,
    ) -> (terms: ResidualTerms)
        requires
            nq == q.nq(),
        ensures
            terms.holds(q, lut.values@, lut.scale, codes, cids, cdot_t, 0),
    {
        ResidualTerms { nq, lut_scale: lut.scale, dots: Vec::new(), centroid: Vec::new() }
    }

    /// Adds the terms of token `d` and row `qi`, which are next in order.
    pub(crate) fn push(
        &mut self,
        qi: usize,
        dot: i32,
        cdot_t: &[u32],
        cid: u32,
        Ghost(d): Ghost<int>,
        Ghost(q): Ghost<&QueryI8>,
        Ghost(lut): Ghost<&LutI8>,
        Ghost(codes): Ghost<Seq<u8>>,
        Ghost(cids): Ghost<Seq<u32>>,
    )
        requires
            residual_ready(q, lut, codes, cids, cdot_t@),
            0 <= d < cids.len(),
            qi < q.nq(),
            cid == cids[d],
            old(self).holds(q, lut.values@, lut.scale, codes, cids, cdot_t@, d * q.nq() + qi),
            dot == model::residual_dot(
                q.row(qi as int),
                lut.values@,
                model::chunk(codes, q.dim as int / 2, d),
            ),
        ensures
            final(self).holds(q, lut.values@, lut.scale, codes, cids, cdot_t@, d * q.nq() + qi + 1),
    {
        let nq: usize = self.nq;
        proof {
            let n = q.nq();
            vstd::arithmetic::div_mod::lemma_fundamental_div_mod_converse(
                n * d + qi,
                n,
                d,
                qi as int,
            );
            assert(n * d == d * n) by (nonlinear_arith);
            assert((cids[d] + 1) * n <= cdot_t@.len());
            assert((cids[d] + 1) * n == cids[d] * n + n) by (nonlinear_arith);
            assert(0 <= cids[d] * n) by (nonlinear_arith)
                requires
                    0 <= cids[d],
                    0 <= n,
            ;
            assert(cdot_t@.len() == cdot_t.len());
        }
        let at: usize = cid as usize * nq + qi;
        self.dots.push(dot);
        self.centroid.push(cdot_t[at]);
    }
}

/// The dot product of a row and a packed token, one look-up a value.
fn residual_dot_scalar(row: &[i8], lut: &[i8; 16], tok: &[u8]) -> (acc: i32)
    requires
        row@.len() <= MAX_RESIDUAL_DIM,
        row@.len() == tok@.len() * 2,
        model::symmetric(row@),
        model::symmetric(lut@),
    ensures
        acc == model::residual_dot(row@, lut@, tok@),
{
    let n: usize = tok.len();
    let mut acc: i32 = 0;
    let mut j: usize = 0;
    while j < n
        invariant
            j <= n == tok@.len(),
            row@.len() == n * 2,
            row@.len() <= MAX_RESIDUAL_DIM,
            model::symmetric(row@),
            model::symmetric(lut@),
            acc == sums::sum(2 * j, model::residual_terms(row@, lut@, tok@)),
        decreases n - j,
    {
        let b: u8 = tok[j];
        proof {
            assert(b >> 4u8 < 16u8) by (bit_vector);
            assert(b & 15u8 < 16u8) by (bit_vector);
            model::lemma_residual_bounds(row@, lut@, tok@, 2 * j);
            model::lemma_residual_bounds(row@, lut@, tok@, 2 * j + 1);
            model::lemma_residual_bounds(row@, lut@, tok@, 2 * j + 2);
            model::lemma_product_bound(row@[2 * j] as int, lut@[(b >> 4u8) as int] as int);
            model::lemma_product_bound(row@[2 * j + 1] as int, lut@[(b & 15u8) as int] as int);
            assert((2 * j + 1) / 2 == j && (2 * j + 1) % 2 == 1);
            let f = model::residual_terms(row@, lut@, tok@);
            assert(sums::sum(2 * j + 1, f) == sums::sum(2 * j, f) + f(2 * j as int));
            assert(sums::sum(2 * j + 2, f) == sums::sum(2 * j + 1, f) + f(2 * j + 1));
        }
        acc = acc + row[2 * j] as i32 * lut[(b >> 4) as usize] as i32;
        acc = acc + row[2 * j + 1] as i32 * lut[(b & 15) as usize] as i32;
        j = j + 1;
    }
    acc
}

/// Reference for the terms of a residual document: one look-up a value.
///
/// `codes` holds `dim / 2` bytes for each token, two table indices a byte with
/// the even dimension in the high nibble; `cids` each token's centroid id;
/// `cdot_t` one row of `nq` centroid terms for each centroid.
pub fn maxsim_r4_scalar(
    q: &QueryI8,
    lut: &LutI8,
    codes: &[u8],
    cids: &[u32],
    cdot_t: &[u32],
) -> (terms: ResidualTerms)
    requires
        residual_ready(q, lut, codes@, cids@, cdot_t@),
    ensures
        terms.is_residual(q, lut.values@, lut.scale, codes@, cids@, cdot_t@),
{
    let dim: usize = q.dim;
    let pd: usize = dim / 2;
    let nq: usize = q.sums.len();
    let nd: usize = cids.len();
    let mut terms: ResidualTerms = ResidualTerms::start(
        nq,
        lut,
        Ghost(q),
        Ghost(codes@),
        Ghost(cids@),
        Ghost(cdot_t@),
    );
    let mut d: usize = 0;
    while d < nd
        invariant
            residual_ready(q, lut, codes@, cids@, cdot_t@),
            dim == q.dim,
            pd == dim / 2,
            nq == q.nq(),
            d <= nd == cids@.len(),
            terms.holds(q, lut.values@, lut.scale, codes@, cids@, cdot_t@, d * q.nq()),
        decreases nd - d,
    {
        let tok: &[u8] = query::row_slice(codes, pd, d, nd);
        let mut qi: usize = 0;
        while qi < nq
            invariant
                residual_ready(q, lut, codes@, cids@, cdot_t@),
                dim == q.dim,
                pd == dim / 2,
                nq == q.nq(),
                d < nd == cids@.len(),
                tok@ == model::chunk(codes@, pd as int, d as int),
                tok@.len() == pd,
                qi <= nq,
                terms.holds(q, lut.values@, lut.scale, codes@, cids@, cdot_t@, d * q.nq() + qi),
            decreases nq - qi,
        {
            proof {
                q.lemma_row(qi as int);
            }
            let row: &[i8] = query::row_slice(q.values.as_slice(), dim, qi, nq);
            let acc: i32 = residual_dot_scalar(row, &lut.values, tok);
            terms.push(
                qi,
                acc,
                cdot_t,
                cids[d],
                Ghost(d as int),
                Ghost(q),
                Ghost(lut),
                Ghost(codes@),
                Ghost(cids@),
            );
            qi = qi + 1;
        }
        assert((d + 1) * q.nq() == d * q.nq() + q.nq()) by (nonlinear_arith);
        d = d + 1;
    }
    terms
}

/// The scores of query row `qi`, token by token.
pub open spec fn column(scores: Seq<u32>, nq: int, qi: int) -> Seq<u32> {
    Seq::new((scores.len() / nq as nat) as nat, |d: int| scores[d * nq + qi])
}

/// `r` is the first of the largest numbers in `col`, negative infinity where
/// none is above it.
pub open spec fn is_best(col: Seq<u32>, r: u32) -> bool {
    &&& forall|d: int| 0 <= d < col.len() ==> !binary32::is_greater(#[trigger] col[d], r)
    &&& r == binary32::NEG_INFINITY || exists|d: int| #[trigger] is_first_best(col, r, d)
}

/// Entry `d` is `r`, above negative infinity and above every number before it.
pub open spec fn is_first_best(col: Seq<u32>, r: u32, d: int) -> bool {
    &&& 0 <= d < col.len()
    &&& col[d] == r
    &&& binary32::is_greater(r, binary32::NEG_INFINITY)
    &&& forall|e: int|
        0 <= e < d && !binary32::is_nan(#[trigger] col[e]) ==> binary32::is_greater(r, col[e])
}

/// One further score taken into a running best.
pub proof fn lemma_best_step(col: Seq<u32>, before: u32, s: u32, after: u32)
    requires
        is_best(col, before),
        after == if binary32::is_greater(s, before) {
            s
        } else {
            before
        },
    ensures
        is_best(col.push(s), after),
{
    let next = col.push(s);
    let n = col.len() as int;
    assert(!binary32::is_nan(binary32::NEG_INFINITY));
    assert(!binary32::is_nan(before));
    assert forall|d: int| 0 <= d < next.len() implies !binary32::is_greater(
        #[trigger] next[d],
        after,
    ) by {
        if d < n {
            assert(next[d] == col[d]);
        }
    }
    if binary32::is_greater(s, before) {
        assert forall|e: int| 0 <= e < n && !binary32::is_nan(#[trigger] next[e]) implies
            binary32::is_greater(s, next[e]) by {
            assert(next[e] == col[e]);
        }
        assert(is_first_best(next, s, n));
    } else if before != binary32::NEG_INFINITY {
        let d = choose|d: int| #[trigger] is_first_best(col, before, d);
        assert forall|e: int| 0 <= e < d && !binary32::is_nan(#[trigger] next[e]) implies
            binary32::is_greater(before, next[e]) by {
            assert(next[e] == col[e]);
        }
        assert(is_first_best(next, before, d));
    }
}

/// The best score of each of `nq` query rows over all tokens, of scores laid
/// out as [`ResidualTerms`] are, as binary32 patterns.
pub fn best_scores(scores: &[u32], nq: usize) -> (best: Vec<u32>)
    requires
        nq > 0,
    ensures
        best@.len() == nq,
        forall|qi: int|
            0 <= qi < nq ==> is_best(column(scores@, nq as int, qi), #[trigger] best@[qi]),
{
    let nd: usize = scores.len() / nq;
    let mut best: Vec<u32> = Vec::with_capacity(nq);
    let mut qi: usize = 0;
    proof {
        model::lemma_whole_rows(scores@.len() as int, nq as int);
    }
    while qi < nq
        invariant
            qi <= nq,
            nd == scores@.len() / nq as nat,
            nd * nq <= scores@.len(),
            best@.len() == qi,
            forall|k: int|
                0 <= k < qi ==> is_best(column(scores@, nq as int, k), #[trigger] best@[k]),
        decreases nq - qi,
    {
        let ghost col = column(scores@, nq as int, qi as int);
        let mut r: u32 = binary32::NEG_INFINITY;
        let mut d: usize = 0;
        while d < nd
            invariant
                qi < nq,
                nd == scores@.len() / nq as nat,
                nd * nq <= scores@.len(),
                col == column(scores@, nq as int, qi as int),
                d <= nd,
                is_best(col.take(d as int), r),
            decreases nd - d,
        {
            proof {
                model::lemma_chunk_fits(nd as int, nq as int, d as int);
                assert(scores@.len() == scores.len());
                assert(col.take(d + 1) =~= col.take(d as int).push(col[d as int]));
            }
            let s: u32 = scores[d * nq + qi];
            let ghost before = r;
            if binary32::greater(s, r) {
                r = s;
            }
            proof {
                lemma_best_step(col.take(d as int), before, s, r);
            }
            d = d + 1;
        }
        assert(col.take(nd as int) =~= col);
        best.push(r);
        qi = qi + 1;
    }
    best
}

/// The dimension that place `i` of the even-then-odd order of 128 stands for.
pub open spec fn even_odd_dim(i: int) -> int {
    (i / 64) * 64 + 2 * (i % 32) + (i % 64) / 32
}

/// `w` holds the weights that a token of 128 dimensions looks up, in the order
/// of a query's `perm4`.
pub open spec fn is_looked_up(lut: Seq<i8>, tok: Seq<u8>, w: Seq<i8>) -> bool {
    &&& w.len() == 128
    &&& forall|i: int|
        0 <= i < 128 ==> #[trigger] w[i] == lut[model::nibble_at(tok, even_odd_dim(i))]
}

/// A permuted row and the looked-up weights have the residual dot product.
pub proof fn lemma_even_odd_dot(row: Seq<i8>, perm: Seq<i8>, lut: Seq<i8>, tok: Seq<u8>, w: Seq<i8>)
    requires
        row.len() == 128,
        perm.len() == 128,
        forall|i: int| 0 <= i < 128 ==> #[trigger] perm[i] == row[even_odd_dim(i)],
        is_looked_up(lut, tok, w),
    ensures
        sums::sum(128, model::products(perm, w)) == model::residual_dot(row, lut, tok),
{
    let f = model::products(perm, w);
    let g = model::residual_terms(row, lut, tok);
    sums::lemma_sum_split(64, 64, f);
    sums::lemma_sum_split(64, 64, g);
    sums::lemma_sum_split(0, 64, f);
    sums::lemma_sum_split(0, 64, g);
    lemma_even_odd_group(row, perm, lut, tok, w, 0);
    lemma_even_odd_group(row, perm, lut, tok, w, 64);
}

/// The part of [`lemma_even_odd_dot`] on the 64 dimensions from `at` on.
proof fn lemma_even_odd_group(
    row: Seq<i8>,
    perm: Seq<i8>,
    lut: Seq<i8>,
    tok: Seq<u8>,
    w: Seq<i8>,
    at: int,
)
    requires
        at == 0 || at == 64,
        row.len() == 128,
        perm.len() == 128,
        forall|i: int| 0 <= i < 128 ==> #[trigger] perm[i] == row[even_odd_dim(i)],
        is_looked_up(lut, tok, w),
    ensures
        sums::sum(64, sums::shifted(model::products(perm, w), at)) == sums::sum(
            64,
            sums::shifted(model::residual_terms(row, lut, tok), at),
        ),
{
    let f = sums::shifted(model::products(perm, w), at);
    let g = sums::shifted(model::residual_terms(row, lut, tok), at);
    assert forall|i: int, j: int| 0 <= i < 2 && 0 <= j < 32 implies #[trigger] sums::shifted(
        f,
        i * 32,
    )(j) == g(j * 2 + i) by {
        let k = at + i * 32 + j;
        assert(even_odd_dim(k) == at + j * 2 + i);
        assert(perm[k] == row[even_odd_dim(k)]);
        assert(w[k] == lut[model::nibble_at(tok, even_odd_dim(k))]);
    }
    sums::lemma_sum_transpose(2, 32, f, g);
}

/// Row `qi` of a query's `perm4` is its row of codes in even-then-odd order.
pub proof fn lemma_perm_row(q: &QueryI8, qi: int)
    requires
        q.wf(),
        q.dim == 128,
        0 <= qi < q.nq(),
    ensures
        q.perm4@.len() == q.nq() * 128,
        model::chunk(q.perm4@, 128, qi).len() == 128,
        forall|i: int|
            0 <= i < 128 ==> #[trigger] model::chunk(q.perm4@, 128, qi)[i] == q.row(
                qi,
            )[even_odd_dim(i)],
{
    q.lemma_row(qi);
    assert forall|i: int| 0 <= i < 128 implies #[trigger] model::chunk(q.perm4@, 128, qi)[i]
        == q.row(qi)[even_odd_dim(i)] by {
        let at = qi * 128 + i;
        assert(q.perm4@[at] == q.values@[(at / 64) * 64 + 2 * (at % 32) + (at % 64) / 32]);
        assert(at / 64 == qi * 2 + i / 64 && at % 32 == i % 32 && at % 64 == i % 64);
    }
}

} // verus!
