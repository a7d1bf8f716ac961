//! The portable binary kernels: the `2P - T` identity with one branch per bit,
//! and the same sum without branches.

use crate::model;
use crate::query;
use crate::query::QueryI8;
use crate::sums;
use vstd::prelude::*;

verus! {

/// `P` of a row and a token, one branch per bit.
fn selected_sum_branching(row: &[i8], tok: &[u8]) -> (p: i32)
    requires
        row@.len() <= query::MAX_DIM,
        row@.len() == tok@.len() * 8,
        model::symmetric(row@),
    ensures
        p == model::selected_sum(row@, tok@),
{
    let n: usize = tok.len();
    let mut p: i32 = 0;
    let mut k: usize = 0;
    while k < n
        invariant
            k <= n == tok@.len(),
            row@.len() == n * 8,
            row@.len() <= query::MAX_DIM,
            model::symmetric(row@),
            p == sums::sum(k * 8, model::selected_terms(row@, tok@)),
        decreases n - k,
    {
        let byte: u8 = tok[k];
        let mut j: u8 = 0;
        while j < 8
            invariant
                k < n == tok@.len(),
                row@.len() == n * 8,
                row@.len() <= query::MAX_DIM,
                model::symmetric(row@),
                byte == tok@[k as int],
                j <= 8,
                p == sums::sum(k * 8 + j, model::selected_terms(row@, tok@)),
            decreases 8 - j,
        {
            proof {
                model::lemma_row_bounds(row@, tok@, k * 8 + j);
            }
            if (byte >> (7 - j)) & 1 == 1 {
                p = p + row[k * 8 + j as usize] as i32;
            }
            j = j + 1;
        }
        k = k + 1;
    }
    p
}

/// `P` of a row and a token, each code masked by its bit.
fn selected_sum_masked(row: &[i8], tok: &[u8]) -> (p: i32)
    requires
        row@.len() <= query::MAX_DIM,
        row@.len() == tok@.len() * 8,
        model::symmetric(row@),
    ensures
        p == model::selected_sum(row@, tok@),
{
    let n: usize = tok.len();
    let mut p: i32 = 0;
    let mut k: usize = 0;
    while k < n
        invariant
            k <= n == tok@.len(),
            row@.len() == n * 8,
            row@.len() <= query::MAX_DIM,
            model::symmetric(row@),
            p == sums::sum(k * 8, model::selected_terms(row@, tok@)),
        decreases n - k,
    {
        let byte: u8 = tok[k];
        let base: usize = k * 8;
        let mut j: u8 = 0;
        while j < 8
            invariant
                k < n == tok@.len(),
                row@.len() == n * 8,
                row@.len() <= query::MAX_DIM,
                model::symmetric(row@),
                byte == tok@[k as int],
                base == k * 8,
                j <= 8,
                p == sums::sum(k * 8 + j, model::selected_terms(row@, tok@)),
            decreases 8 - j,
        {
            proof {
                model::lemma_row_bounds(row@, tok@, k * 8 + j);
            }
            let b: u8 = (byte >> (7 - j)) & 1;
            let v: i32 = row[base + j as usize] as i32;
            proof {
                let shift = (7 - j) as u8;
                assert((byte >> shift) & 1 == 0 || (byte >> shift) & 1 == 1) by (bit_vector);
                assert(v & 0i32 == 0i32 && v & -1i32 == v) by (bit_vector);
            }
            let mask: i32 = -(b as i32);
            p = p + (v & mask);
            j = j + 1;
        }
        k = k + 1;
    }
    p
}

/// The signed dot product, from `P` and `T`.
fn two_p_minus_t(p: i32, t: i32, Ghost(row): Ghost<Seq<i8>>, Ghost(tok): Ghost<Seq<u8>>) -> (s: i32)
    requires
        row.len() <= query::MAX_DIM,
        model::symmetric(row),
        p == model::selected_sum(row, tok),
        t == model::row_sum(row),
    ensures
        s == model::signed_dot(row, tok),
        s > i32::MIN,
{
    proof {
        model::lemma_two_p_minus_t(row, tok, row.len() as int);
        model::lemma_row_bounds(row, tok, row.len() as int);
        sums::lemma_sum_bound(row.len() as int, 127, unselected_terms(row, tok));
        sums::lemma_sum_add(
            row.len() as int,
            model::selected_terms(row, tok),
            unselected_terms(row, tok),
            model::codes_of(row),
        );
    }
    // As 2P - T, without doubling first.
    p - (t - p)
}

/// The codes at clear bits, zero elsewhere.
spec fn unselected_terms(row: Seq<i8>, tok: Seq<u8>) -> spec_fn(int) -> int {
    |d: int|
        if model::bit_at(tok, d) {
            0
        } else {
            row[d] as int
        }
}

/// Best dot product of each query row with a token of a packed binary
/// document, by the `2P - T` identity with one branch per bit.
pub fn maxsim_scalar(q: &QueryI8, bits: &[u8], dim: usize) -> (best: Vec<i32>)
    requires
        q.wf(),
        dim == q.dim,
    ensures
        q.is_maxsim(bits@, best@),
{
    let pd: usize = dim / 8;
    let nq: usize = q.sums.len();
    let nd: usize = bits.len() / pd;
    let mut all: Vec<i32> = Vec::with_capacity(nq);
    let mut qi: usize = 0;
    proof {
        model::lemma_whole_rows(bits@.len() as int, pd as int);
    }
    while qi < nq
        invariant
            q.wf(),
            dim == q.dim,
            pd == dim / 8,
            nq == q.nq(),
            nd == bits@.len() / pd as nat,
            nd * pd <= bits@.len(),
            qi <= nq,
            all@.len() == qi,
            forall|k: int|
                0 <= k < qi ==> #[trigger] all@[k] == model::best_score(
                    q.row(k),
                    bits@,
                    nd as int,
                ),
        decreases nq - qi,
    {
        proof {
            q.lemma_row(qi as int);
        }
        let row: &[i8] = query::row_slice(q.values.as_slice(), dim, qi, nq);
        let mut best: i32 = i32::MIN;
        let mut d: usize = 0;
        while d < nd
            invariant
                q.wf(),
                dim == q.dim,
                pd == dim / 8,
                nq == q.nq(),
                qi < nq,
                nd * pd <= bits@.len(),
                row@ == q.row(qi as int),
                row@.len() == dim,
                model::symmetric(row@),
                d <= nd,
                best == model::best_score(row@, bits@, d as int),
            decreases nd - d,
        {
            let tok: &[u8] = query::row_slice(bits, pd, d, nd);
            let p: i32 = selected_sum_branching(row, tok);
            let s: i32 = two_p_minus_t(p, q.sums[qi], Ghost(row@), Ghost(tok@));
            if s > best {
                best = s;
            }
            d = d + 1;
        }
        all.push(best);
        qi = qi + 1;
    }
    all
}

/// Best dot product of each query row with a token of a packed binary
/// document, by the `2P - T` identity with masks in place of branches.
pub fn maxsim_autovec(q: &QueryI8, bits: &[u8], dim: usize) -> (best: Vec<i32>)
    requires
        q.wf(),
        dim == q.dim,
    ensures
        q.is_maxsim(bits@, best@),
{
    let pd: usize = dim / 8;
    let nq: usize = q.sums.len();
    let nd: usize = bits.len() / pd;
    let mut all: Vec<i32> = Vec::with_capacity(nq);
    let mut qi: usize = 0;
    proof {
        model::lemma_whole_rows(bits@.len() as int, pd as int);
    }
    while qi < nq
        invariant
            q.wf(),
            dim == q.dim,
            pd == dim / 8,
            nq == q.nq(),
            nd == bits@.len() / pd as nat,
            nd * pd <= bits@.len(),
            qi <= nq,
            all@.len() == qi,
            forall|k: int|
                0 <= k < qi ==> #[trigger] all@[k] == model::best_score(
                    q.row(k),
                    bits@,
                    nd as int,
                ),
        decreases nq - qi,
    {
        proof {
            q.lemma_row(qi as int);
        }
        let row: &[i8] = query::row_slice(q.values.as_slice(), dim, qi, nq);
        let mut best: i32 = i32::MIN;
        let mut d: usize = 0;
        while d < nd
            invariant
                q.wf(),
                dim == q.dim,
                pd == dim / 8,
                nq == q.nq(),
                qi < nq,
                nd * pd <= bits@.len(),
                row@ == q.row(qi as int),
                row@.len() == dim,
                model::symmetric(row@),
                d <= nd,
                best == model::best_score(row@, bits@, d as int),
            decreases nd - d,
        {
            let tok: &[u8] = query::row_slice(bits, pd, d, nd);
            let p: i32 = selected_sum_masked(row, tok);
            let s: i32 = two_p_minus_t(p, q.sums[qi], Ghost(row@), Ghost(tok@));
            if s > best {
                best = s;
            }
            d = d + 1;
        }
        all.push(best);
        qi = qi + 1;
    }
    all
}

} // verus!
