//! The fused NEON kernels for rows of 128 codes: every document token is
//! expanded once and scored against all query rows before the next.

use crate::model;
use crate::neon_lanes;
use crate::query;
use crate::query::QueryI8;
use crate::residual;
use crate::residual::LutI8;
use crate::residual::ResidualTerms;
use crate::sums;
use vstd::prelude::*;

verus! {

/// `m` is the 128 bits of `tok` as bytes of 0 and 1, plane-major: bit `p` of
/// byte `k` is at `p * 16 + k`.
pub open spec fn is_expanded(tok: Seq<u8>, m: Seq<i8>) -> bool {
    &&& m.len() == 128
    &&& forall|i: int|
        0 <= i < 128 ==> #[trigger] m[i] == if model::bit(tok[i % 16], i / 16) {
            1int
        } else {
            0int
        }
}

/// Expands one packed token of 16 bytes to 128 bytes of 0 and 1, plane-major.
fn extract_planes_128(bits: &[u8], at: usize) -> (m: [i8; 128])
    requires
        at + 16 <= bits@.len(),
    ensures
        is_expanded(bits@.subrange(at as int, at + 16), m@),
{
    let v: [u8; 16] = neon_lanes::load_u8(bits, at);
    let mut m: [i8; 128] = [0i8;128];
    let ghost tok = bits@.subrange(at as int, at + 16);
    let mut p: u8 = 0;
    while p < 8
        invariant
            p <= 8,
            tok.len() == 16,
            forall|i: int| 0 <= i < 16 ==> #[trigger] v[i] == tok[i],
            forall|i: int|
                0 <= i < p * 16 ==> #[trigger] m[i] == if model::bit(tok[i % 16], i / 16) {
                    1int
                } else {
                    0int
                },
        decreases 8 - p,
    {
        let shifted: [u8; 16] = neon_lanes::shift_right(v, 7 - p);
        let plane: [u8; 16] = neon_lanes::and_all(shifted, 1);
        let mut k: usize = 0;
        while k < 16
            invariant
                p < 8,
                k <= 16,
                tok.len() == 16,
                forall|i: int| 0 <= i < 16 ==> #[trigger] v[i] == tok[i],
                forall|i: int| 0 <= i < 16 ==> #[trigger] shifted[i] == v[i] >> ((7 - p) as u8),
                forall|i: int| 0 <= i < 16 ==> #[trigger] plane[i] == shifted[i] & 1,
                forall|i: int|
                    0 <= i < p * 16 + k ==> #[trigger] m[i] == if model::bit(tok[i % 16], i / 16) {
                        1int
                    } else {
                        0int
                    },
            decreases 16 - k,
        {
            let b: u8 = plane[k];
            proof {
                let x = shifted[k as int];
                assert(b == x & 1);
                assert(x & 1 == 0 || x & 1 == 1) by (bit_vector);
                assert(model::bit(tok[k as int], p as int) == (b == 1));
            }
            m[p as usize * 16 + k] = b as i8;
            k = k + 1;
        }
        p = p + 1;
    }
    m
}

/// A plane-major row and a plane-major token have the dot product `P`.
pub proof fn lemma_plane_dot(row: Seq<i8>, planes: Seq<i8>, tok: Seq<u8>, m: Seq<i8>)
    requires
        row.len() == 128,
        tok.len() == 16,
        planes.len() == 128,
        forall|i: int| 0 <= i < 128 ==> #[trigger] planes[i] == row[(i % 16) * 8 + i / 16],
        is_expanded(tok, m),
    ensures
        sums::sum(128, model::products(planes, m)) == model::selected_sum(row, tok),
{
    let f = model::products(planes, m);
    let g = model::selected_terms(row, tok);
    assert forall|i: int, j: int| 0 <= i < 8 && 0 <= j < 16 implies #[trigger] sums::shifted(
        f,
        i * 16,
    )(j) == g(j * 8 + i) by {
        let at = i * 16 + j;
        assert(at % 16 == j && at / 16 == i);
        let v = planes[at] as int;
        assert(planes[at] == row[j * 8 + i]);
        assert(m[at] == if model::bit(tok[j], i) {
            1int
        } else {
            0int
        });
        assert(v * 1 == v && v * 0 == 0) by (nonlinear_arith);
        assert((j * 8 + i) / 8 == j && (j * 8 + i) % 8 == i);
    }
    sums::lemma_sum_transpose(8, 16, f, g);
}

/// Row `qi` of the plane-major layout is row `qi` of the codes, plane-major.
pub proof fn lemma_plane_row(q: &QueryI8, qi: int)
    requires
        q.wf(),
        q.dim == 128,
        0 <= qi < q.nq(),
    ensures
        q.planes@.len() == q.nq() * 128,
        model::chunk(q.planes@, 128, qi).len() == 128,
        forall|i: int|
            0 <= i < 128 ==> #[trigger] model::chunk(q.planes@, 128, qi)[i] == q.row(qi)[(i % 16)
                * 8 + i / 16],
{
    q.lemma_row(qi);
    assert forall|i: int| 0 <= i < 128 implies #[trigger] model::chunk(q.planes@, 128, qi)[i]
        == q.row(qi)[(i % 16) * 8 + i / 16] by {
        let at = qi * 128 + i;
        assert(q.planes@[at] == q.values@[(at / 128) * 128 + (at % 16) * 8 + (at % 128) / 16]);
        assert(at / 128 == qi && at % 16 == i % 16 && at % 128 == i);
    }
}

/// Taking four further tokens into a maximum, the last one repeated where
/// there are fewer left.
proof fn lemma_block_max(row: Seq<i8>, bits: Seq<u8>, n: int, nd: int, s: [i32; 4])
    requires
        row.len() == 128,
        0 <= n < nd,
        forall|t: int|
            0 <= t < 4 ==> #[trigger] s[t] == model::signed_dot(
                row,
                model::chunk(
                    bits,
                    16,
                    if n + t < nd {
                        n + t
                    } else {
                        nd - 1
                    },
                ),
            ),
    ensures
        model::max(
            model::best_score(row, bits, n),
            neon_lanes::lane_max(s[0] as int, s[1] as int, s[2] as int, s[3] as int),
        ) == model::best_score(
            row,
            bits,
            if n + 4 <= nd {
                n + 4
            } else {
                nd
            },
        ),
{
    reveal_with_fuel(model::best_score, 5);
    assert(s[0] == model::signed_dot(row, model::chunk(bits, 16, n)));
    if n + 1 < nd {
        assert(s[1] == model::signed_dot(row, model::chunk(bits, 16, n + 1)));
        if n + 2 < nd {
            assert(s[2] == model::signed_dot(row, model::chunk(bits, 16, n + 2)));
            if n + 3 < nd {
                assert(s[3] == model::signed_dot(row, model::chunk(bits, 16, n + 3)));
            }
        }
    }
}

/// The largest of the four lanes that a row keeps.
spec fn kept_max(v: [i32; 4]) -> int {
    neon_lanes::lane_max(v[0] as int, v[1] as int, v[2] as int, v[3] as int)
}

/// The number of tokens seen after a block of four that starts at `db`.
spec fn after_block(db: int, nd: int) -> int {
    if db + 4 <= nd {
        db + 4
    } else {
        nd
    }
}

/// `P` of one plane-major query row and one expanded token, in four lanes.
fn token_lanes(
    planes: &[i8],
    m: &[i8; 128],
    Ghost(row): Ghost<Seq<i8>>,
    Ghost(tok): Ghost<Seq<u8>>,
) -> (r: [i32; 4])
    requires
        row.len() == 128,
        tok.len() == 16,
        planes@.len() == 128,
        forall|i: int| 0 <= i < 128 ==> #[trigger] planes@[i] == row[(i % 16) * 8 + i / 16],
        is_expanded(tok, m@),
    ensures
        neon_lanes::lane_total(r) == model::selected_sum(row, tok),
        neon_lanes::within(r, 0x8_0000),
{
    proof {
        lemma_plane_dot(row, planes@, tok, m@);
    }
    neon_lanes::dot_128(planes, m.as_slice())
}

/// Index of slot `t` of the block that starts at `db`: the last token again
/// where the block runs past the end.
fn slot(db: usize, t: usize, nd: usize) -> (d: usize)
    requires
        db < nd,
        t < 4,
    ensures
        d < nd,
        d == if db + t < nd {
            db + t
        } else {
            nd - 1
        },
{
    if t < nd - db {
        db + t
    } else {
        nd - 1
    }
}

/// The scores of one query row against a block of four expanded tokens.
fn block_scores(
    planes: &[i8],
    sum: i32,
    m0: &[i8; 128],
    m1: &[i8; 128],
    m2: &[i8; 128],
    m3: &[i8; 128],
    Ghost(row): Ghost<Seq<i8>>,
    Ghost(toks): Ghost<Seq<Seq<u8>>>,
) -> (s: [i32; 4])
    requires
        row.len() == 128,
        model::symmetric(row),
        sum == model::row_sum(row),
        planes@.len() == 128,
        forall|i: int| 0 <= i < 128 ==> #[trigger] planes@[i] == row[(i % 16) * 8 + i / 16],
        toks.len() == 4,
        forall|t: int| 0 <= t < 4 ==> (#[trigger] toks[t]).len() == 16,
        is_expanded(toks[0], m0@),
        is_expanded(toks[1], m1@),
        is_expanded(toks[2], m2@),
        is_expanded(toks[3], m3@),
    ensures
        forall|t: int| 0 <= t < 4 ==> #[trigger] s[t] == model::signed_dot(row, toks[t]),
{
    let t0: [i32; 4] = token_lanes(planes, m0, Ghost(row), Ghost(toks[0]));
    let t1: [i32; 4] = token_lanes(planes, m1, Ghost(row), Ghost(toks[1]));
    let t2: [i32; 4] = token_lanes(planes, m2, Ghost(row), Ghost(toks[2]));
    let t3: [i32; 4] = token_lanes(planes, m3, Ghost(row), Ghost(toks[3]));
    let p4: [i32; 4] = neon_lanes::pairwise_add(
        neon_lanes::pairwise_add(t0, t1),
        neon_lanes::pairwise_add(t2, t3),
    );
    proof {
        assert forall|t: int| 0 <= t < 4 implies #[trigger] p4[t] == model::selected_sum(
            row,
            toks[t],
        ) by {}
        assert forall|t: int| 0 <= t < 4 implies -16256 <= #[trigger] p4[t] <= 16256 by {
            model::lemma_row_bounds(row, toks[t], 128);
        }
        model::lemma_row_bounds(row, toks[0], 128);
    }
    let s: [i32; 4] = neon_lanes::double_minus(p4, [sum, sum, sum, sum]);
    proof {
        assert forall|t: int| 0 <= t < 4 implies #[trigger] s[t] == model::signed_dot(
            row,
            toks[t],
        ) by {
            model::lemma_two_p_minus_t(row, toks[t], 128);
            assert(p4[t] == model::selected_sum(row, toks[t]));
        }
    }
    s
}

/// Best dot product of each query row with a token of a packed binary document
/// of 128 dimensions, in blocks of four tokens by `SDOT`.
pub fn maxsim_neon128(q: &QueryI8, bits: &[u8]) -> (best: Vec<i32>)
    requires
        q.wf(),
        q.dim == 128,
    ensures
        q.is_maxsim(bits@, best@),
{
    let nq: usize = q.sums.len();
    let nd: usize = bits.len() / 16;
    // Four running maxima a row, one for each token of a block.
    let mut lanes: Vec<[i32; 4]> = Vec::with_capacity(nq);
    let mut qi: usize = 0;
    while qi < nq
        invariant
            qi <= nq,
            lanes@.len() == qi,
            forall|k: int| 0 <= k < qi ==> kept_max(#[trigger] lanes@[k]) == i32::MIN,
        decreases nq - qi,
    {
        lanes.push([i32::MIN, i32::MIN, i32::MIN, i32::MIN]);
        qi = qi + 1;
    }
    let mut db: usize = 0;
    while db < nd
        invariant
            q.wf(),
            q.dim == 128,
            nq == q.nq(),
            nd == bits@.len() / 16,
            nd == bits.len() / 16,
            db <= nd,
            lanes@.len() == nq,
            forall|k: int|
                0 <= k < nq ==> kept_max(#[trigger] lanes@[k]) == model::best_score(
                    q.row(k),
                    bits@,
                    db as int,
                ),
        decreases nd - db,
    {
        let d0: usize = slot(db, 0, nd);
        let d1: usize = slot(db, 1, nd);
        let d2: usize = slot(db, 2, nd);
        let d3: usize = slot(db, 3, nd);
        let m0: [i8; 128] = extract_planes_128(bits, d0 * 16);
        let m1: [i8; 128] = extract_planes_128(bits, d1 * 16);
        let m2: [i8; 128] = extract_planes_128(bits, d2 * 16);
        let m3: [i8; 128] = extract_planes_128(bits, d3 * 16);
        let ghost toks = seq![
            model::chunk(bits@, 16, d0 as int),
            model::chunk(bits@, 16, d1 as int),
            model::chunk(bits@, 16, d2 as int),
            model::chunk(bits@, 16, d3 as int),
        ];
        let mut qi: usize = 0;
        while qi < nq
            invariant
                q.wf(),
                q.dim == 128,
                nq == q.nq(),
                nd == bits@.len() / 16,
                db < nd,
                qi <= nq,
                d0 == db,
                d1 == if db + 1 < nd {
                    db + 1
                } else {
                    nd - 1
                },
                d2 == if db + 2 < nd {
                    db + 2
                } else {
                    nd - 1
                },
                d3 == if db + 3 < nd {
                    db + 3
                } else {
                    nd - 1
                },
                toks == seq![
                    model::chunk(bits@, 16, d0 as int),
                    model::chunk(bits@, 16, d1 as int),
                    model::chunk(bits@, 16, d2 as int),
                    model::chunk(bits@, 16, d3 as int),
                ],
                is_expanded(toks[0], m0@),
                is_expanded(toks[1], m1@),
                is_expanded(toks[2], m2@),
                is_expanded(toks[3], m3@),
                lanes@.len() == nq,
                forall|k: int|
                    0 <= k < qi ==> kept_max(#[trigger] lanes@[k]) == model::best_score(
                        q.row(k),
                        bits@,
                        after_block(db as int, nd as int),
                    ),
                forall|k: int|
                    qi <= k < nq ==> kept_max(#[trigger] lanes@[k]) == model::best_score(
                        q.row(k),
                        bits@,
                        db as int,
                    ),
            decreases nq - qi,
        {
            proof {
                q.lemma_row(qi as int);
                lemma_plane_row(q, qi as int);
            }
            let planes: &[i8] = query::row_slice(q.planes.as_slice(), 128, qi, nq);
            let s: [i32; 4] = block_scores(
                planes,
                q.sums[qi],
                &m0,
                &m1,
                &m2,
                &m3,
                Ghost(q.row(qi as int)),
                Ghost(toks),
            );
            let before: [i32; 4] = lanes[qi];
            let after: [i32; 4] = neon_lanes::max_lanes(before, s);
            proof {
                let row = q.row(qi as int);
                assert forall|t: int| 0 <= t < 4 implies #[trigger] s[t] == model::signed_dot(
                    row,
                    model::chunk(
                        bits@,
                        16,
                        if db + t < nd {
                            db + t
                        } else {
                            nd - 1
                        },
                    ),
                ) by {
                    assert(s[t] == model::signed_dot(row, toks[t]));
                }
                lemma_block_max(row, bits@, db as int, nd as int, s);
                assert(after[0] == model::max(before[0] as int, s[0] as int));
                assert(after[1] == model::max(before[1] as int, s[1] as int));
                assert(after[2] == model::max(before[2] as int, s[2] as int));
                assert(after[3] == model::max(before[3] as int, s[3] as int));
            }
            lanes.set(qi, after);
            qi = qi + 1;
        }
        db = if nd - db > 4 {
            db + 4
        } else {
            nd
        };
    }
    let mut best: Vec<i32> = Vec::with_capacity(nq);
    let mut qi: usize = 0;
    while qi < nq
        invariant
            q.wf(),
            nq == q.nq(),
            qi <= nq,
            lanes@.len() == nq,
            best@.len() == qi,
            forall|k: int|
                0 <= k < nq ==> kept_max(#[trigger] lanes@[k]) == model::best_score(
                    q.row(k),
                    bits@,
                    nd as int,
                ),
            forall|k: int|
                0 <= k < qi ==> #[trigger] best@[k] == model::best_score(
                    q.row(k),
                    bits@,
                    nd as int,
                ),
        decreases nq - qi,
    {
        best.push(neon_lanes::max_across(lanes[qi]));
        qi = qi + 1;
    }
    best
}

/// Taking two further tokens into a maximum, the last one repeated where there
/// is only one left.
proof fn lemma_pair_max(row: Seq<i8>, bits: Seq<u8>, n: int, nd: int)
    requires
        row.len() == 128,
        0 <= n < nd,
    ensures
        model::max(
            model::best_score(row, bits, n),
            model::max(
                model::signed_dot(row, model::chunk(bits, 16, n)),
                model::signed_dot(
                    row,
                    model::chunk(
                        bits,
                        16,
                        if n + 1 < nd {
                            n + 1
                        } else {
                            nd - 1
                        },
                    ),
                ),
            ),
        ) == model::best_score(row, bits, after_pair(n, nd)),
{
    reveal_with_fuel(model::best_score, 3);
}

/// The number of tokens seen after a pair that starts at `dj`.
spec fn after_pair(dj: int, nd: int) -> int {
    if dj + 2 <= nd {
        dj + 2
    } else {
        nd
    }
}

/// Where byte `i` of pair `p` stands in the pair-major layout.
proof fn lemma_pair_index(p: int, i: int)
    requires
        0 <= p,
        0 <= i < 256,
    ensures
        (p * 256 + i) / 256 == p,
        (p * 256 + i) % 256 == i,
        (p * 256 + i) % 16 == i % 16,
        (p * 256 + i) % 8 == i % 8,
        0 <= (i / 16) * 8 + i % 8 < 128,
        0 <= (i % 16) / 8 <= 1,
{
}

/// Pair `p` of the pair-major layout interleaves its two plane-major rows.
proof fn lemma_pair_row(nq: int, planes: Seq<i8>, pairs: Seq<i8>, p: int)
    requires
        0 < nq,
        planes.len() == nq * 128,
        query::is_pair_major(nq, planes, pairs),
        0 <= p < (nq + 1) / 2,
    ensures
        neon_lanes::is_interleaved(
            model::chunk(pairs, 256, p),
            model::chunk(planes, 128, query::paired_row(nq, p, 0)),
            model::chunk(planes, 128, query::paired_row(nq, p, 1)),
        ),
{
    let a = query::paired_row(nq, p, 0);
    let b = query::paired_row(nq, p, 1);
    let pair = model::chunk(pairs, 256, p);
    let x = model::chunk(planes, 128, a);
    let y = model::chunk(planes, 128, b);
    assert forall|i: int| 0 <= i < 256 implies #[trigger] pair[i] == if (i % 16) / 8 == 0 {
        x[(i / 16) * 8 + i % 8]
    } else {
        y[(i / 16) * 8 + i % 8]
    } by {
        let at = p * 256 + i;
        let off = (i / 16) * 8 + i % 8;
        lemma_pair_index(p, i);
        assert(pair[i] == pairs[at]);
        assert(pairs[at] == planes[query::paired_row(nq, p, (i % 16) / 8) * 128 + off]);
        assert(x[off] == planes[a * 128 + off]);
        assert(y[off] == planes[b * 128 + off]);
    }
}

/// The scores of two query rows against two tokens, from the tile of their
/// dot products.
fn tile_scores(
    q: &QueryI8,
    qa: usize,
    qb: usize,
    p: [i32; 4],
    Ghost(ta): Ghost<Seq<u8>>,
    Ghost(tb): Ghost<Seq<u8>>,
) -> (s: [i32; 4])
    requires
        q.wf(),
        q.dim == 128,
        qa < q.nq(),
        qb < q.nq(),
        p[0] == model::selected_sum(q.row(qa as int), ta),
        p[1] == model::selected_sum(q.row(qa as int), tb),
        p[2] == model::selected_sum(q.row(qb as int), ta),
        p[3] == model::selected_sum(q.row(qb as int), tb),
    ensures
        s[0] == model::signed_dot(q.row(qa as int), ta),
        s[1] == model::signed_dot(q.row(qa as int), tb),
        s[2] == model::signed_dot(q.row(qb as int), ta),
        s[3] == model::signed_dot(q.row(qb as int), tb),
{
    proof {
        let ra = q.row(qa as int);
        let rb = q.row(qb as int);
        q.lemma_row(qa as int);
        q.lemma_row(qb as int);
        model::lemma_row_bounds(ra, ta, 128);
        model::lemma_row_bounds(ra, tb, 128);
        model::lemma_row_bounds(rb, ta, 128);
        model::lemma_row_bounds(rb, tb, 128);
        model::lemma_two_p_minus_t(ra, ta, 128);
        model::lemma_two_p_minus_t(ra, tb, 128);
        model::lemma_two_p_minus_t(rb, ta, 128);
        model::lemma_two_p_minus_t(rb, tb, 128);
    }
    neon_lanes::double_minus(p, [q.sums[qa], q.sums[qa], q.sums[qb], q.sums[qb]])
}

/// Best dot product of each query row with a token of a packed binary document
/// of 128 dimensions, two rows and two tokens at a time by `SMMLA`.
pub fn maxsim_smmla128(q: &QueryI8, bits: &[u8]) -> (best: Vec<i32>)
    requires
        q.wf(),
        q.dim == 128,
    ensures
        q.is_maxsim(bits@, best@),
{
    let nq: usize = q.sums.len();
    let nd: usize = bits.len() / 16;
    let n_pairs: usize = nq / 2 + nq % 2;
    let mut best: Vec<i32> = Vec::with_capacity(nq);
    let mut qi: usize = 0;
    while qi < nq
        invariant
            qi <= nq,
            best@.len() == qi,
            forall|k: int| 0 <= k < qi ==> #[trigger] best@[k] == i32::MIN,
        decreases nq - qi,
    {
        best.push(i32::MIN);
        qi = qi + 1;
    }
    let mut dj: usize = 0;
    while dj < nd
        invariant
            q.wf(),
            q.dim == 128,
            nq == q.nq(),
            nd == bits@.len() / 16,
            nd == bits.len() / 16,
            n_pairs == (nq + 1) / 2,
            dj <= nd,
            best@.len() == nq,
            forall|k: int|
                0 <= k < nq ==> #[trigger] best@[k] == model::best_score(
                    q.row(k),
                    bits@,
                    dj as int,
                ),
        decreases nd - dj,
    {
        let da: usize = dj;
        let db: usize = if dj + 1 < nd {
            dj + 1
        } else {
            nd - 1
        };
        let plane_a: [i8; 128] = extract_planes_128(bits, da * 16);
        let plane_b: [i8; 128] = extract_planes_128(bits, db * 16);
        let docbuf: [i8; 256] = neon_lanes::interleave(&plane_a, &plane_b);
        let ghost ta = model::chunk(bits@, 16, da as int);
        let ghost tb = model::chunk(bits@, 16, db as int);
        let mut pidx: usize = 0;
        while pidx < n_pairs
            invariant
                q.wf(),
                q.dim == 128,
                nq == q.nq(),
                nd == bits@.len() / 16,
                n_pairs == (nq + 1) / 2,
                pidx <= n_pairs,
                dj < nd,
                da == dj,
                db == if dj + 1 < nd {
                    dj + 1
                } else {
                    nd - 1
                },
                ta == model::chunk(bits@, 16, da as int),
                tb == model::chunk(bits@, 16, db as int),
                is_expanded(ta, plane_a@),
                is_expanded(tb, plane_b@),
                neon_lanes::is_interleaved(docbuf@, plane_a@, plane_b@),
                best@.len() == nq,
                forall|k: int|
                    0 <= k < nq && k < 2 * pidx ==> #[trigger] best@[k] == model::best_score(
                        q.row(k),
                        bits@,
                        after_pair(dj as int, nd as int),
                    ),
                forall|k: int|
                    2 * pidx <= k < nq ==> #[trigger] best@[k] == model::best_score(
                        q.row(k),
                        bits@,
                        dj as int,
                    ),
            decreases n_pairs - pidx,
        {
            let qa: usize = 2 * pidx;
            let qb: usize = if qa + 1 < nq {
                qa + 1
            } else {
                nq - 1
            };
            let ghost ra = model::chunk(q.planes@, 128, qa as int);
            let ghost rb = model::chunk(q.planes@, 128, qb as int);
            proof {
                lemma_pair_row(nq as int, q.planes@, q.planes_smmla@, pidx as int);
                lemma_plane_row(q, qa as int);
                lemma_plane_row(q, qb as int);
                q.lemma_row(qa as int);
                q.lemma_row(qb as int);
                lemma_plane_dot(q.row(qa as int), ra, ta, plane_a@);
                lemma_plane_dot(q.row(qa as int), ra, tb, plane_b@);
                lemma_plane_dot(q.row(qb as int), rb, ta, plane_a@);
                lemma_plane_dot(q.row(qb as int), rb, tb, plane_b@);
                lemma_pair_max(q.row(qa as int), bits@, dj as int, nd as int);
                lemma_pair_max(q.row(qb as int), bits@, dj as int, nd as int);
            }
            let qp: &[i8] = query::row_slice(q.planes_smmla.as_slice(), 256, pidx, n_pairs);
            let p: [i32; 4] = neon_lanes::tile_128(
                qp,
                docbuf.as_slice(),
                Ghost(ra),
                Ghost(rb),
                Ghost(plane_a@),
                Ghost(plane_b@),
            );
            let s: [i32; 4] = tile_scores(q, qa, qb, p, Ghost(ta), Ghost(tb));
            // Lane 0 is the first row's better score, lane 1 the second's.
            let pm: [i32; 4] = neon_lanes::pairwise_max(s, s);
            best.set(qa, neon_lanes::larger(best[qa], pm[0]));
            if qb != qa {
                best.set(qb, neon_lanes::larger(best[qb], pm[1]));
            } else {
                // Odd tail: the second half repeats the first row.
                best.set(qa, neon_lanes::larger(best[qa], pm[1]));
            }
            pidx = pidx + 1;
        }
        dj = if nd - dj > 2 {
            dj + 2
        } else {
            nd
        };
    }
    best
}

/// The 128 weights that a packed residual token looks up, in the order of a
/// query's `perm4`: of each 64 dimensions, the high nibbles' weights, then the
/// low ones'.
fn lookup_weights_128(lut: &LutI8, tok: &[u8]) -> (w: [i8; 128])
    requires
        tok@.len() == 64,
    ensures
        residual::is_looked_up(lut.values@, tok@, w@),
{
    let mut w: [i8; 128] = [0i8;128];
    let mut c: usize = 0;
    while c < 8
        invariant
            c <= 8,
            tok@.len() == 64,
            forall|i: int|
                0 <= i < 16 * c ==> #[trigger] w[i] == lut.values@[model::nibble_at(
                    tok@,
                    residual::even_odd_dim(i),
                )],
        decreases 8 - c,
    {
        // Vectors 0, 1, 4 and 5 are of high nibbles, the others of low ones.
        let load: usize = (c / 4) * 2 + c % 2;
        let v: [u8; 16] = neon_lanes::load_u8(tok, load * 16);
        let high: bool = (c % 4) / 2 == 0;
        let index: [u8; 16] = if high {
            neon_lanes::shift_right(v, 4)
        } else {
            neon_lanes::and_all(v, 15)
        };
        let x: [i8; 16] = neon_lanes::table_lookup(&lut.values, index);
        let mut k: usize = 0;
        while k < 16
            invariant
                c < 8,
                k <= 16,
                tok@.len() == 64,
                load == (c / 4) * 2 + c % 2,
                high == ((c % 4) / 2 == 0),
                forall|i: int| 0 <= i < 16 ==> #[trigger] v[i] == tok@[load * 16 + i],
                forall|i: int|
                    0 <= i < 16 ==> #[trigger] index[i] == if high {
                        v[i] >> 4u8
                    } else {
                        v[i] & 15u8
                    },
                forall|i: int|
                    0 <= i < 16 ==> #[trigger] x[i] == if index[i] < 16 {
                        lut.values[index[i] as int] as int
                    } else {
                        0
                    },
                forall|i: int|
                    0 <= i < 16 * c + k ==> #[trigger] w[i] == lut.values@[model::nibble_at(
                        tok@,
                        residual::even_odd_dim(i),
                    )],
            decreases 16 - k,
        {
            proof {
                let i = 16 * c + k;
                let d = residual::even_odd_dim(i);
                let b = v[k as int];
                assert(index[k as int] == if high {
                    b >> 4u8
                } else {
                    b & 15u8
                });
                assert(b >> 4u8 < 16u8) by (bit_vector);
                assert(b & 15u8 < 16u8) by (bit_vector);
                assert(d / 2 == load * 16 + k);
                assert(d % 2 == if high {
                    0int
                } else {
                    1int
                });
                assert(x[k as int] == lut.values@[model::nibble_at(tok@, d)]);
            }
            w[16 * c + k] = x[k];
            k = k + 1;
        }
        c = c + 1;
    }
    w
}

/// Terms of a residual document of 128 dimensions: each token's weights are
/// looked up once, sixteen at a time, and multiplied with every query row by
/// `SDOT`.
pub fn maxsim_r4_neon128(
    q: &QueryI8,
    lut: &LutI8,
    codes: &[u8],
    cids: &[u32],
    cdot_t: &[u32],
) -> (terms: ResidualTerms)
    requires
        residual::residual_ready(q, lut, codes@, cids@, cdot_t@),
        q.dim == 128,
    ensures
        terms.is_residual(q, lut.values@, lut.scale, codes@, cids@, cdot_t@),
{
    let nq: usize = q.sums.len();
    let nd: usize = cids.len();
    let mut terms: ResidualTerms = ResidualTerms::start(
        nq,
        lut,
        Ghost(q),
        Ghost(codes@),
        Ghost(cids@),
        Ghost(cdot_t@),
    );
    let mut d: usize = 0;
    while d < nd
        invariant
            residual::residual_ready(q, lut, codes@, cids@, cdot_t@),
            q.dim == 128,
            nq == q.nq(),
            d <= nd == cids@.len(),
            terms.holds(q, lut.values@, lut.scale, codes@, cids@, cdot_t@, d * q.nq()),
        decreases nd - d,
    {
        let tok: &[u8] = query::row_slice(codes, 64, d, nd);
        let w: [i8; 128] = lookup_weights_128(lut, tok);
        let mut qi: usize = 0;
        while qi < nq
            invariant
                residual::residual_ready(q, lut, codes@, cids@, cdot_t@),
                q.dim == 128,
                nq == q.nq(),
                d < nd == cids@.len(),
                tok@ == model::chunk(codes@, 64, d as int),
                residual::is_looked_up(lut.values@, tok@, w@),
                qi <= nq,
                terms.holds(q, lut.values@, lut.scale, codes@, cids@, cdot_t@, d * q.nq() + qi),
            decreases nq - qi,
        {
            proof {
                q.lemma_row(qi as int);
                residual::lemma_perm_row(q, qi as int);
            }
            let perm: &[i8] = query::row_slice(q.perm4.as_slice(), 128, qi, nq);
            let lanes: [i32; 4] = neon_lanes::dot_128(perm, w.as_slice());
            proof {
                residual::lemma_even_odd_dot(
                    q.row(qi as int),
                    perm@,
                    lut.values@,
                    tok@,
                    w@,
                );
            }
            let acc: i32 = neon_lanes::add_across(lanes);
            terms.push(
                qi,
                acc,
                cdot_t,
                cids[d],
                Ghost(d as int),
                Ghost(q),
                Ghost(lut),
                Ghost(codes@),
                Ghost(cids@),
            );
            qi = qi + 1;
        }
        assert((d + 1) * q.nq() == d * q.nq() + q.nq()) by (nonlinear_arith);
        d = d + 1;
    }
    terms
}

} // verus!
