//! Documents as bags of residual tokens, and what joined documents, batches and
//! queries give.

use crate::binary32;
use crate::docs;
use crate::laws;
use crate::model;
use crate::query;
use crate::query::QueryI8;
use crate::residual;
use crate::residual::ResidualTerms;
use vstd::prelude::*;

verus! {

/// Two numbers of one value have one pattern, unless they are zeros of either
/// sign.
proof fn lemma_value_determines(a: u32, b: u32)
    requires
        binary32::scaled(a) == binary32::scaled(b),
    ensures
        a == b || binary32::scaled(a) == 0,
{
    let ma = (a % 0x8000_0000) as u32;
    let mb = (b % 0x8000_0000) as u32;
    binary32::lemma_sign_ignored(a, ma);
    binary32::lemma_sign_ignored(b, mb);
    binary32::lemma_abs_nonnegative(a);
    binary32::lemma_abs_nonnegative(b);
    if ma < mb {
        binary32::lemma_abs_increases(ma, mb);
    } else if mb < ma {
        binary32::lemma_abs_increases(mb, ma);
    }
}

/// A best score is a number, negative infinity at the least.
proof fn lemma_best_is_number(col: Seq<u32>, r: u32)
    requires
        residual::is_best(col, r),
    ensures
        !binary32::is_nan(r),
        binary32::scaled(r) >= binary32::scaled(binary32::NEG_INFINITY),
{
    assert(!binary32::is_nan(binary32::NEG_INFINITY));
    if r != binary32::NEG_INFINITY {
        let d = choose|d: int| #[trigger] residual::is_first_best(col, r, d);
        assert(binary32::is_greater(r, binary32::NEG_INFINITY));
    }
}

proof fn lemma_best_of_fewer_scores(a: Seq<u32>, b: Seq<u32>, ra: u32, rb: u32)
    requires
        residual::is_best(a, ra),
        residual::is_best(b, rb),
        forall|d: int| 0 <= d < a.len() ==> b.contains(#[trigger] a[d]),
    ensures
        binary32::scaled(ra) <= binary32::scaled(rb),
{
    lemma_best_is_number(a, ra);
    lemma_best_is_number(b, rb);
    if ra != binary32::NEG_INFINITY {
        let d = choose|d: int| #[trigger] residual::is_first_best(a, ra, d);
        assert(b.contains(a[d]));
        let e = choose|e: int| 0 <= e < b.len() && b[e] == a[d];
        assert(!binary32::is_greater(b[e], rb));
    }
}

/// The best of scores is the same number for any other list of the same
/// scores, in whatever order and however often; its pattern can differ only
/// between the two zeros.
pub proof fn law_best_of_same_scores(a: Seq<u32>, b: Seq<u32>, ra: u32, rb: u32)
    requires
        residual::is_best(a, ra),
        residual::is_best(b, rb),
        forall|d: int| 0 <= d < a.len() ==> b.contains(#[trigger] a[d]),
        forall|d: int| 0 <= d < b.len() ==> a.contains(#[trigger] b[d]),
    ensures
        binary32::scaled(ra) == binary32::scaled(rb),
        ra == rb || binary32::scaled(ra) == 0,
{
    lemma_best_of_fewer_scores(a, b, ra, rb);
    lemma_best_of_fewer_scores(b, a, rb, ra);
    lemma_value_determines(ra, rb);
}

/// `scores` holds a score of each pair of terms, by one rule for each row.
pub open spec fn are_scores(
    terms: ResidualTerms,
    rule: spec_fn(int, i32, u32) -> u32,
    scores: Seq<u32>,
) -> bool {
    &&& scores.len() == terms.dots@.len()
    &&& forall|i: int|
        0 <= i < scores.len() ==> #[trigger] scores[i] == rule(
            i % (terms.nq as int),
            terms.dots@[i],
            terms.centroid@[i],
        )
}

/// One of the tokens of a residual document has the indices `tok` and the
/// centroid `cid`.
pub open spec fn has_residual_token(
    codes: Seq<u8>,
    cids: Seq<u32>,
    pd: int,
    tok: Seq<u8>,
    cid: u32,
) -> bool {
    exists|e: int|
        0 <= e < cids.len() && #[trigger] model::chunk(codes, pd, e) == tok && cids[e] == cid
}

/// Every token of one residual document is a token of the other.
pub open spec fn tokens_within(
    codes_a: Seq<u8>,
    cids_a: Seq<u32>,
    codes_b: Seq<u8>,
    cids_b: Seq<u32>,
    pd: int,
) -> bool {
    forall|d: int|
        0 <= d < cids_a.len() ==> has_residual_token(
            codes_b,
            cids_b,
            pd,
            #[trigger] model::chunk(codes_a, pd, d),
            cids_a[d],
        )
}

/// Where the scores of a column of `count` tokens and `nq` rows lie.
proof fn lemma_score_place(count: int, nq: int, d: int, qi: int)
    requires
        0 <= d < count,
        0 <= qi < nq,
    ensures
        0 <= d * nq + qi < count * nq,
        (d * nq + qi) / nq == d,
        (d * nq + qi) % nq == qi,
        (count * nq) / nq == count,
{
    model::lemma_chunk_fits(count, nq, d);
    assert(nq * d == d * nq && nq * count == count * nq) by (nonlinear_arith);
    vstd::arithmetic::div_mod::lemma_fundamental_div_mod_converse(d * nq + qi, nq, d, qi);
    vstd::arithmetic::div_mod::lemma_fundamental_div_mod_converse(count * nq, nq, count, 0);
}

/// The score of token `d` against row `qi`, from the token alone.
proof fn lemma_score_of_token(
    q: &QueryI8,
    weights: Seq<i8>,
    lut_scale: u32,
    codes: Seq<u8>,
    cids: Seq<u32>,
    cdot_t: Seq<u32>,
    terms: ResidualTerms,
    rule: spec_fn(int, i32, u32) -> u32,
    scores: Seq<u32>,
    d: int,
    qi: int,
)
    requires
        terms.is_residual(q, weights, lut_scale, codes, cids, cdot_t),
        are_scores(terms, rule, scores),
        0 <= d < cids.len(),
        0 <= qi < q.nq(),
    ensures
        residual::column(scores, q.nq(), qi).len() == cids.len(),
        residual::column(scores, q.nq(), qi)[d] == rule(
            qi,
            model::residual_dot(
                q.row(qi),
                weights,
                model::chunk(codes, q.dim as int / 2, d),
            ) as i32,
            cdot_t[cids[d] * q.nq() + qi],
        ),
{
    let i = d * q.nq() + qi;
    lemma_score_place(cids.len() as int, q.nq(), d, qi);
    assert(scores[i] == rule(qi, terms.dots@[i], terms.centroid@[i]));
}

proof fn lemma_scores_within(
    q: &QueryI8,
    weights: Seq<i8>,
    lut_scale: u32,
    cdot_t: Seq<u32>,
    codes_a: Seq<u8>,
    cids_a: Seq<u32>,
    a: ResidualTerms,
    scores_a: Seq<u32>,
    codes_b: Seq<u8>,
    cids_b: Seq<u32>,
    b: ResidualTerms,
    scores_b: Seq<u32>,
    rule: spec_fn(int, i32, u32) -> u32,
    qi: int,
)
    requires
        a.is_residual(q, weights, lut_scale, codes_a, cids_a, cdot_t),
        b.is_residual(q, weights, lut_scale, codes_b, cids_b, cdot_t),
        are_scores(a, rule, scores_a),
        are_scores(b, rule, scores_b),
        tokens_within(codes_a, cids_a, codes_b, cids_b, q.dim as int / 2),
        0 <= qi < q.nq(),
    ensures
        forall|d: int|
            0 <= d < residual::column(scores_a, q.nq(), qi).len() ==> residual::column(
                scores_b,
                q.nq(),
                qi,
            ).contains(#[trigger] residual::column(scores_a, q.nq(), qi)[d]),
{
    let pd = q.dim as int / 2;
    let col_a = residual::column(scores_a, q.nq(), qi);
    let col_b = residual::column(scores_b, q.nq(), qi);
    let nq = q.nq();
    let count = cids_a.len() as int;
    assert(count * nq == nq * count) by (nonlinear_arith);
    vstd::arithmetic::div_mod::lemma_fundamental_div_mod_converse(count * nq, nq, count, 0);
    assert forall|d: int| 0 <= d < col_a.len() implies col_b.contains(#[trigger] col_a[d]) by {
        lemma_score_of_token(
            q,
            weights,
            lut_scale,
            codes_a,
            cids_a,
            cdot_t,
            a,
            rule,
            scores_a,
            d,
            qi,
        );
        assert(has_residual_token(codes_b, cids_b, pd, model::chunk(codes_a, pd, d), cids_a[d]));
        let e = choose|e: int|
            0 <= e < cids_b.len() && #[trigger] model::chunk(codes_b, pd, e) == model::chunk(
                codes_a,
                pd,
                d,
            ) && cids_b[e] == cids_a[d];
        lemma_score_of_token(
            q,
            weights,
            lut_scale,
            codes_b,
            cids_b,
            cdot_t,
            b,
            rule,
            scores_b,
            e,
            qi,
        );
        assert(col_b[e] == col_a[d]);
    }
}

/// A residual document is a bag of tokens: two documents that hold the same
/// tokens, in whatever order and however often, have the same best score of
/// each row, whatever rule makes a score of a dot product and a centroid term.
/// The patterns can differ only between the two zeros.
pub proof fn law_residual_bag(
    q: &QueryI8,
    weights: Seq<i8>,
    lut_scale: u32,
    cdot_t: Seq<u32>,
    codes_a: Seq<u8>,
    cids_a: Seq<u32>,
    a: ResidualTerms,
    scores_a: Seq<u32>,
    codes_b: Seq<u8>,
    cids_b: Seq<u32>,
    b: ResidualTerms,
    scores_b: Seq<u32>,
    rule: spec_fn(int, i32, u32) -> u32,
    qi: int,
    ra: u32,
    rb: u32,
)
    requires
        a.is_residual(q, weights, lut_scale, codes_a, cids_a, cdot_t),
        b.is_residual(q, weights, lut_scale, codes_b, cids_b, cdot_t),
        are_scores(a, rule, scores_a),
        are_scores(b, rule, scores_b),
        tokens_within(codes_a, cids_a, codes_b, cids_b, q.dim as int / 2),
        tokens_within(codes_b, cids_b, codes_a, cids_a, q.dim as int / 2),
        0 <= qi < q.nq(),
        residual::is_best(residual::column(scores_a, q.nq(), qi), ra),
        residual::is_best(residual::column(scores_b, q.nq(), qi), rb),
    ensures
        binary32::scaled(ra) == binary32::scaled(rb),
        ra == rb || binary32::scaled(ra) == 0,
{
    lemma_scores_within(
        q,
        weights,
        lut_scale,
        cdot_t,
        codes_a,
        cids_a,
        a,
        scores_a,
        codes_b,
        cids_b,
        b,
        scores_b,
        rule,
        qi,
    );
    lemma_scores_within(
        q,
        weights,
        lut_scale,
        cdot_t,
        codes_b,
        cids_b,
        b,
        scores_b,
        codes_a,
        cids_a,
        a,
        scores_a,
        rule,
        qi,
    );
    law_best_of_same_scores(
        residual::column(scores_a, q.nq(), qi),
        residual::column(scores_b, q.nq(), qi),
        ra,
        rb,
    );
}

/// The column of joined scores is the two columns joined.
proof fn lemma_joined_column(s: Seq<u32>, t: Seq<u32>, nq: int, qi: int)
    requires
        0 <= qi < nq,
        s.len() % nq as nat == 0,
        t.len() % nq as nat == 0,
    ensures
        residual::column(s + t, nq, qi) == residual::column(s, nq, qi) + residual::column(
            t,
            nq,
            qi,
        ),
{
    let a = s.len() as int / nq;
    let b = t.len() as int / nq;
    vstd::arithmetic::div_mod::lemma_fundamental_div_mod(s.len() as int, nq);
    vstd::arithmetic::div_mod::lemma_fundamental_div_mod(t.len() as int, nq);
    model::lemma_whole_rows(s.len() as int, nq);
    model::lemma_whole_rows(t.len() as int, nq);
    assert(nq * a == a * nq && nq * b == b * nq && (a + b) * nq == a * nq + b * nq && nq * (a + b)
        == nq * a + nq * b) by (nonlinear_arith);
    vstd::arithmetic::div_mod::lemma_fundamental_div_mod_converse(
        (s + t).len() as int,
        nq,
        a + b,
        0,
    );
    let joined = residual::column(s + t, nq, qi);
    let parts = residual::column(s, nq, qi) + residual::column(t, nq, qi);
    assert forall|d: int| 0 <= d < a + b implies #[trigger] joined[d] == parts[d] by {
        if d < a {
            lemma_score_place(a, nq, d, qi);
        } else {
            lemma_score_place(b, nq, d - a, qi);
            assert(d * nq == a * nq + (d - a) * nq) by (nonlinear_arith);
        }
    }
    assert(joined =~= parts);
}

proof fn lemma_best_of_joined_scores(a: Seq<u32>, b: Seq<u32>, ra: u32, rb: u32)
    requires
        residual::is_best(a, ra),
        residual::is_best(b, rb),
    ensures
        residual::is_best(
            a + b,
            if binary32::is_greater(rb, ra) {
                rb
            } else {
                ra
            },
        ),
{
    lemma_best_is_number(a, ra);
    lemma_best_is_number(b, rb);
    let r = if binary32::is_greater(rb, ra) {
        rb
    } else {
        ra
    };
    let all = a + b;
    let n = a.len() as int;
    assert forall|d: int| 0 <= d < all.len() implies !binary32::is_greater(
        #[trigger] all[d],
        r,
    ) by {
        if d < n {
            assert(all[d] == a[d]);
        } else {
            assert(all[d] == b[d - n]);
        }
    }
    if binary32::is_greater(rb, ra) {
        let j = choose|d: int| #[trigger] residual::is_first_best(b, rb, d);
        assert(all[n + j] == rb);
        assert forall|e: int| 0 <= e < n + j && !binary32::is_nan(#[trigger] all[e]) implies
            binary32::is_greater(rb, all[e]) by {
            if e < n {
                assert(all[e] == a[e]);
            } else {
                assert(all[e] == b[e - n]);
            }
        }
        assert(residual::is_first_best(all, r, n + j));
    } else if ra != binary32::NEG_INFINITY {
        let i = choose|d: int| #[trigger] residual::is_first_best(a, ra, d);
        assert forall|e: int| 0 <= e < i && !binary32::is_nan(#[trigger] all[e]) implies
            binary32::is_greater(ra, all[e]) by {
            assert(all[e] == a[e]);
        }
        assert(residual::is_first_best(all, r, i));
    }
}

/// The best score of a row over two residual documents' tokens is the better
/// of the two, the first where neither is.
pub proof fn law_residual_best_of_joined(
    s: Seq<u32>,
    t: Seq<u32>,
    nq: int,
    qi: int,
    rs: u32,
    rt: u32,
    r: u32,
)
    requires
        0 <= qi < nq,
        s.len() % nq as nat == 0,
        t.len() % nq as nat == 0,
        residual::is_best(residual::column(s, nq, qi), rs),
        residual::is_best(residual::column(t, nq, qi), rt),
        residual::is_best(residual::column(s + t, nq, qi), r),
    ensures
        r == if binary32::is_greater(rt, rs) {
            rt
        } else {
            rs
        },
{
    let a = residual::column(s, nq, qi);
    let b = residual::column(t, nq, qi);
    lemma_joined_column(s, t, nq, qi);
    lemma_best_of_joined_scores(a, b, rs, rt);
    laws::law_best_score_is_unique(
        a + b,
        r,
        if binary32::is_greater(rt, rs) {
            rt
        } else {
            rs
        },
    );
}

/// The order of two parts of a residual document does not matter to the best
/// score of a row, but for the sign of a zero.
pub proof fn law_residual_order_of_parts(
    s: Seq<u32>,
    t: Seq<u32>,
    nq: int,
    qi: int,
    a: u32,
    b: u32,
)
    requires
        0 <= qi < nq,
        s.len() % nq as nat == 0,
        t.len() % nq as nat == 0,
        residual::is_best(residual::column(s + t, nq, qi), a),
        residual::is_best(residual::column(t + s, nq, qi), b),
    ensures
        binary32::scaled(a) == binary32::scaled(b),
        a == b || binary32::scaled(a) == 0,
{
    let x = residual::column(s, nq, qi);
    let y = residual::column(t, nq, qi);
    lemma_joined_column(s, t, nq, qi);
    lemma_joined_column(t, s, nq, qi);
    assert forall|d: int| 0 <= d < (x + y).len() implies (y + x).contains(
        #[trigger] (x + y)[d],
    ) by {
        lemma_swapped_holds(x, y, d);
    }
    assert forall|d: int| 0 <= d < (y + x).len() implies (x + y).contains(
        #[trigger] (y + x)[d],
    ) by {
        lemma_swapped_holds(y, x, d);
    }
    law_best_of_same_scores(x + y, y + x, a, b);
}

proof fn lemma_swapped_holds(x: Seq<u32>, y: Seq<u32>, d: int)
    requires
        0 <= d < (x + y).len(),
    ensures
        (y + x).contains((x + y)[d]),
{
    if d < x.len() {
        assert((y + x)[y.len() + d] == x[d]);
    } else {
        assert((y + x)[d - x.len()] == y[d - x.len()]);
    }
}

/// Scoring a residual token again changes no best score.
pub proof fn law_residual_repeated_token(s: Seq<u32>, nq: int, d: int, qi: int, a: u32, b: u32)
    requires
        0 <= qi < nq,
        s.len() % nq as nat == 0,
        0 <= d < s.len() / nq as nat,
        residual::is_best(residual::column(s, nq, qi), a),
        residual::is_best(residual::column(s + model::chunk(s, nq, d), nq, qi), b),
    ensures
        b == a,
{
    let tok = model::chunk(s, nq, d);
    let col = residual::column(s, nq, qi);
    model::lemma_whole_rows(s.len() as int, nq);
    model::lemma_chunk_fits(s.len() as int / nq, nq, d);
    vstd::arithmetic::div_mod::lemma_fundamental_div_mod_converse(nq, nq, 1, 0);
    lemma_joined_column(s, tok, nq, qi);
    assert(0 * nq == 0) by (nonlinear_arith);
    assert(col + residual::column(tok, nq, qi) =~= col.push(col[d]));
    residual::lemma_best_step(col, a, col[d], a);
    laws::law_best_score_is_unique(col.push(col[d]), a, b);
}

/// Row `i` of joined arrays is a row of the first or, after those, of the
/// second.
proof fn lemma_joined_chunk<T>(a: Seq<T>, b: Seq<T>, n: int, na: int, nb: int, i: int)
    requires
        0 <= n,
        0 <= na,
        0 <= nb,
        a.len() == na * n,
        b.len() == nb * n,
        0 <= i < na + nb,
    ensures
        model::chunk(a + b, n, i) == if i < na {
            model::chunk(a, n, i)
        } else {
            model::chunk(b, n, i - na)
        },
{
    if i < na {
        model::lemma_chunk_fits(na, n, i);
        assert(model::chunk(a + b, n, i) =~= model::chunk(a, n, i));
    } else {
        model::lemma_chunk_fits(nb, n, i - na);
        assert(i * n == na * n + (i - na) * n) by (nonlinear_arith);
        assert(model::chunk(a + b, n, i) =~= model::chunk(b, n, i - na));
    }
}

/// Which token and row entry `i` of joined terms is of.
proof fn lemma_joined_place(na: int, nb: int, nq: int, i: int)
    requires
        0 <= na,
        0 <= nb,
        0 < nq,
        0 <= i < (na + nb) * nq,
    ensures
        (na + nb) * nq == na * nq + nb * nq,
        0 <= i / nq < na + nb,
        i < na * nq ==> i / nq < na,
        i >= na * nq ==> i / nq >= na && (i - na * nq) / nq == i / nq - na && (i - na * nq) % nq
            == i % nq,
{
    let d = i / nq;
    let r = i % nq;
    vstd::arithmetic::div_mod::lemma_fundamental_div_mod(i, nq);
    vstd::arithmetic::div_mod::lemma_mod_bound(i, nq);
    vstd::arithmetic::div_mod::lemma_div_pos_is_pos(i, nq);
    assert(nq * d == d * nq) by (nonlinear_arith);
    assert((na + nb) * nq == na * nq + nb * nq) by (nonlinear_arith);
    assert(d < na + nb) by (nonlinear_arith)
        requires
            d * nq <= i < (na + nb) * nq,
            0 < nq,
    ;
    if i < na * nq {
        assert(d < na) by (nonlinear_arith)
            requires
                d * nq <= i < na * nq,
                0 < nq,
        ;
    } else {
        assert(d >= na) by (nonlinear_arith)
            requires
                d * nq + nq > i >= na * nq,
                0 < nq,
        ;
        assert(i - na * nq == nq * (d - na) + r) by (nonlinear_arith)
            requires
                i == d * nq + r,
        ;
        vstd::arithmetic::div_mod::lemma_fundamental_div_mod_converse(
            i - na * nq,
            nq,
            d - na,
            r,
        );
    }
}

/// The terms of a residual document joined of two are the terms of the two,
/// joined.
pub proof fn law_residual_terms_joined(
    q: &QueryI8,
    weights: Seq<i8>,
    lut_scale: u32,
    cdot_t: Seq<u32>,
    codes_a: Seq<u8>,
    cids_a: Seq<u32>,
    a: ResidualTerms,
    codes_b: Seq<u8>,
    cids_b: Seq<u32>,
    b: ResidualTerms,
    joined: ResidualTerms,
)
    requires
        q.wf(),
        codes_a.len() == cids_a.len() * (q.dim as int / 2),
        codes_b.len() == cids_b.len() * (q.dim as int / 2),
        a.is_residual(q, weights, lut_scale, codes_a, cids_a, cdot_t),
        b.is_residual(q, weights, lut_scale, codes_b, cids_b, cdot_t),
        joined.is_residual(q, weights, lut_scale, codes_a + codes_b, cids_a + cids_b, cdot_t),
    ensures
        joined.dots@ == a.dots@ + b.dots@,
        joined.centroid@ == a.centroid@ + b.centroid@,
{
    let nq = q.nq();
    let pd = q.dim as int / 2;
    let na = cids_a.len() as int;
    let nb = cids_b.len() as int;
    let cids = cids_a + cids_b;
    assert((na + nb) * nq == na * nq + nb * nq) by (nonlinear_arith);
    assert forall|i: int| 0 <= i < (na + nb) * nq implies #[trigger] joined.dots@[i] == (a.dots@
        + b.dots@)[i] by {
        lemma_joined_place(na, nb, nq, i);
        lemma_joined_chunk(codes_a, codes_b, pd, na, nb, i / nq);
        if i < na * nq {
            assert(joined.dots@[i] == a.dots@[i]);
        } else {
            assert(joined.dots@[i] == b.dots@[i - na * nq]);
        }
    }
    assert forall|i: int| 0 <= i < (na + nb) * nq implies #[trigger] joined.centroid@[i] == (
    a.centroid@ + b.centroid@)[i] by {
        lemma_joined_place(na, nb, nq, i);
        if i < na * nq {
            assert(cids[i / nq] == cids_a[i / nq]);
            assert(joined.centroid@[i] == a.centroid@[i]);
        } else {
            assert(cids[i / nq] == cids_b[i / nq - na]);
            assert(joined.centroid@[i] == b.centroid@[i - na * nq]);
        }
    }
    assert(joined.dots@ =~= a.dots@ + b.dots@);
    assert(joined.centroid@ =~= a.centroid@ + b.centroid@);
}

/// Where the documents of a joined batch begin.
proof fn lemma_joined_first_row(la: Seq<i64>, lb: Seq<i64>, i: int)
    requires
        0 <= i <= la.len() + lb.len(),
    ensures
        docs::first_row(la + lb, i) == if i <= la.len() {
            docs::first_row(la, i)
        } else {
            docs::total_rows(la) + docs::first_row(lb, i - la.len())
        },
        i == la.len() ==> docs::first_row(lb, i - la.len()) == 0,
    decreases i,
{
    if i > 0 {
        lemma_joined_first_row(la, lb, i - 1);
        if i <= la.len() {
            assert((la + lb)[i - 1] == la[i - 1]);
        } else {
            assert((la + lb)[i - 1] == lb[i - 1 - la.len()]);
        }
    }
}

/// A batch joined of two has the documents of the first, then those of the
/// second.
pub proof fn law_joined_batch_parts<T>(
    a: Seq<T>,
    la: Seq<i64>,
    b: Seq<T>,
    lb: Seq<i64>,
    n: int,
    i: int,
)
    requires
        !docs::has_empty_doc(la),
        !docs::has_empty_doc(lb),
        0 <= n,
        a.len() == docs::total_rows(la) * n,
        b.len() == docs::total_rows(lb) * n,
        0 <= i < la.len() + lb.len(),
    ensures
        docs::doc_part(a + b, n, la + lb, i) == if i < la.len() {
            docs::doc_part(a, n, la, i)
        } else {
            docs::doc_part(b, n, lb, i - la.len())
        },
{
    lemma_joined_first_row(la, lb, i);
    lemma_joined_first_row(la, lb, i + 1);
    if i < la.len() {
        docs::lemma_doc_part(la, i, n);
        docs::lemma_doc_rows(la, i);
        let count = la[i] as int;
        assert(0 <= count * n) by (nonlinear_arith)
            requires
                0 < count,
                0 <= n,
        ;
        assert(docs::doc_part(a + b, n, la + lb, i) =~= docs::doc_part(a, n, la, i));
    } else {
        let k = i - la.len();
        let t = docs::total_rows(la);
        let x = docs::first_row(lb, k);
        let y = docs::first_row(lb, k + 1);
        let count = lb[k] as int;
        docs::lemma_doc_part(lb, k, n);
        docs::lemma_doc_rows(lb, k);
        assert(0 <= count * n) by (nonlinear_arith)
            requires
                0 < count,
                0 <= n,
        ;
        assert((t + x) * n == t * n + x * n && (t + y) * n == t * n + y * n) by (nonlinear_arith);
        assert(docs::first_row(la + lb, i) == t + x);
        assert(docs::first_row(la + lb, i + 1) == t + y);
        assert(docs::doc_part(a + b, n, la + lb, i) =~= docs::doc_part(b, n, lb, k));
    }
}

/// The lengths of two batches that are in order are in order when joined.
proof fn lemma_joined_rows(la: Seq<i64>, lb: Seq<i64>, n: int)
    requires
        !docs::has_empty_doc(la),
        !docs::has_empty_doc(lb),
    ensures
        !docs::has_empty_doc(la + lb),
        docs::total_rows(la + lb) == docs::total_rows(la) + docs::total_rows(lb),
        docs::total_rows(la + lb) * n == docs::total_rows(la) * n + docs::total_rows(lb) * n,
{
    let all = la + lb;
    let x = docs::total_rows(la);
    let y = docs::total_rows(lb);
    assert forall|i: int| 0 <= i < all.len() implies #[trigger] all[i] > 0 by {
        if i < la.len() {
            assert(all[i] == la[i]);
            assert(la[i] > 0);
        } else {
            assert(all[i] == lb[i - la.len()]);
            assert(lb[i - la.len()] > 0);
        }
    }
    lemma_joined_first_row(la, lb, all.len() as int);
    assert((x + y) * n == x * n + y * n) by (nonlinear_arith);
}

/// A binary batch joined of two that are accepted is accepted, and its result
/// is the two results joined.
pub proof fn law_joined_binary_batch(
    q: &QueryI8,
    a: Seq<u8>,
    la: Seq<i64>,
    out_a: Seq<Vec<i32>>,
    b: Seq<u8>,
    lb: Seq<i64>,
    out_b: Seq<Vec<i32>>,
    out: Seq<Vec<i32>>,
)
    requires
        q.wf(),
        docs::binary_rows_fault(la, q.dim as int / 8, a.len() as int) is None,
        docs::binary_rows_fault(lb, q.dim as int / 8, b.len() as int) is None,
        docs::is_binary_batch(q, a, la, out_a),
        docs::is_binary_batch(q, b, lb, out_b),
        docs::is_binary_batch(q, a + b, la + lb, out),
    ensures
        docs::binary_rows_fault(la + lb, q.dim as int / 8, (a + b).len() as int) is None,
        out.len() == out_a.len() + out_b.len(),
        forall|i: int| 0 <= i < out.len() ==> #[trigger] out[i]@ == (out_a + out_b)[i]@,
{
    let pd = q.dim as int / 8;
    lemma_joined_rows(la, lb, pd);
    assert forall|i: int| 0 <= i < out.len() implies #[trigger] out[i]@ == (out_a
        + out_b)[i]@ by {
        law_joined_batch_parts(a, la, b, lb, pd, i);
        let part = docs::doc_part(a + b, pd, la + lb, i);
        if i < la.len() {
            assert(q.is_maxsim(docs::doc_part(a, pd, la, i), out_a[i]@));
            laws::law_binary_kernels_agree(q, part, out[i]@, out_a[i]@);
        } else {
            let k = i - la.len();
            assert(q.is_maxsim(docs::doc_part(b, pd, lb, k), out_b[k]@));
            laws::law_binary_kernels_agree(q, part, out[i]@, out_b[k]@);
        }
    }
}

/// Terms of the same scores.
pub open spec fn same_terms(a: ResidualTerms, b: ResidualTerms) -> bool {
    &&& a.nq == b.nq
    &&& a.lut_scale == b.lut_scale
    &&& a.dots@ == b.dots@
    &&& a.centroid@ == b.centroid@
}

/// A residual batch joined of two that are accepted is accepted, and its result
/// is the two results joined.
pub proof fn law_joined_residual_batch(
    q: &QueryI8,
    weights: Seq<i8>,
    lut_scale: u32,
    cdot_t: Seq<u32>,
    n_centroids: int,
    codes_a: Seq<u8>,
    cids_a: Seq<u32>,
    la: Seq<i64>,
    out_a: Seq<ResidualTerms>,
    codes_b: Seq<u8>,
    cids_b: Seq<u32>,
    lb: Seq<i64>,
    out_b: Seq<ResidualTerms>,
    out: Seq<ResidualTerms>,
)
    requires
        q.wf(),
        docs::residual_rows_fault(
            la,
            q.dim as int / 2,
            codes_a.len() as int,
            cids_a,
            n_centroids,
            weights,
        ) is None,
        docs::residual_rows_fault(
            lb,
            q.dim as int / 2,
            codes_b.len() as int,
            cids_b,
            n_centroids,
            weights,
        ) is None,
        docs::is_residual_batch(q, weights, lut_scale, codes_a, cids_a, cdot_t, la, out_a),
        docs::is_residual_batch(q, weights, lut_scale, codes_b, cids_b, cdot_t, lb, out_b),
        docs::is_residual_batch(
            q,
            weights,
            lut_scale,
            codes_a + codes_b,
            cids_a + cids_b,
            cdot_t,
            la + lb,
            out,
        ),
    ensures
        docs::residual_rows_fault(
            la + lb,
            q.dim as int / 2,
            (codes_a + codes_b).len() as int,
            cids_a + cids_b,
            n_centroids,
            weights,
        ) is None,
        out.len() == out_a.len() + out_b.len(),
        forall|i: int| 0 <= i < out.len() ==> same_terms(#[trigger] out[i], (out_a + out_b)[i]),
{
    let pd = q.dim as int / 2;
    let codes = codes_a + codes_b;
    let cids = cids_a + cids_b;
    lemma_joined_rows(la, lb, pd);
    assert forall|d: int| 0 <= d < cids.len() implies #[trigger] cids[d] < n_centroids by {
        if d < cids_a.len() {
            assert(cids[d] == cids_a[d]);
            assert(cids_a[d] < n_centroids);
        } else {
            assert(cids[d] == cids_b[d - cids_a.len()]);
            assert(cids_b[d - cids_a.len()] < n_centroids);
        }
    }
    assert forall|i: int| 0 <= i < out.len() implies same_terms(
        #[trigger] out[i],
        (out_a + out_b)[i],
    ) by {
        law_joined_batch_parts(codes_a, la, codes_b, lb, pd, i);
        law_joined_batch_parts(cids_a, la, cids_b, lb, 1, i);
        let doc_codes = docs::doc_part(codes, pd, la + lb, i);
        let doc_cids = docs::doc_part(cids, 1, la + lb, i);
        assert(out[i].is_residual(q, weights, lut_scale, doc_codes, doc_cids, cdot_t));
        let other = (out_a + out_b)[i];
        if i < la.len() {
            assert(other == out_a[i]);
        } else {
            assert(other == out_b[i - la.len()]);
        }
        assert(other.is_residual(q, weights, lut_scale, doc_codes, doc_cids, cdot_t));
        laws::law_residual_kernels_agree(
            q,
            weights,
            lut_scale,
            doc_codes,
            doc_cids,
            cdot_t,
            out[i],
            other,
        );
    }
}

/// A query joined of two holds the codes and scales of the first, then those of
/// the second.
pub open spec fn is_joined(a: &QueryI8, b: &QueryI8, q: &QueryI8) -> bool {
    &&& a.dim == q.dim
    &&& b.dim == q.dim
    &&& q.values@ == a.values@ + b.values@
    &&& q.scales@ == a.scales@ + b.scales@
}

/// Quantizing the rows of two queries together joins the two quantized queries.
pub proof fn law_quantized_rows_join(
    a: &QueryI8,
    magnitudes_a: Seq<u32>,
    scales_a: Seq<u32>,
    quotients_a: Seq<u32>,
    b: &QueryI8,
    magnitudes_b: Seq<u32>,
    scales_b: Seq<u32>,
    quotients_b: Seq<u32>,
    q: &QueryI8,
    dim: int,
)
    requires
        a.wf(),
        b.wf(),
        q.wf(),
        scales_a.len() == magnitudes_a.len(),
        scales_b.len() == magnitudes_b.len(),
        a.is_quantized(magnitudes_a, scales_a, quotients_a, dim),
        b.is_quantized(magnitudes_b, scales_b, quotients_b, dim),
        q.is_quantized(
            magnitudes_a + magnitudes_b,
            scales_a + scales_b,
            quotients_a + quotients_b,
            dim,
        ),
    ensures
        is_joined(a, b, q),
{
    let na = a.nq();
    let nb = b.nq();
    let magnitudes = magnitudes_a + magnitudes_b;
    let quotients = quotients_a + quotients_b;
    assert((na + nb) * dim == na * dim + nb * dim) by (nonlinear_arith);
    assert forall|i: int| 0 <= i < q.values@.len() implies #[trigger] q.values@[i] == (a.values@
        + b.values@)[i] by {
        lemma_joined_place(na, nb, dim, i);
        assert(q.values@[i] == query::quantized(magnitudes, quotients, dim, i));
        if i < na * dim {
            assert(a.values@[i] == query::quantized(magnitudes_a, quotients_a, dim, i));
            assert(magnitudes[i / dim] == magnitudes_a[i / dim]);
        } else {
            let k = i - na * dim;
            assert(b.values@[k] == query::quantized(magnitudes_b, quotients_b, dim, k));
            assert(magnitudes[i / dim] == magnitudes_b[k / dim]);
        }
    }
    assert(q.values@ =~= a.values@ + b.values@);
    assert forall|i: int| 0 <= i < q.nq() implies #[trigger] q.scales@[i] == (a.scales@
        + b.scales@)[i] by {
        if i < na {
            assert(magnitudes[i] == magnitudes_a[i]);
        } else {
            assert(magnitudes[i] == magnitudes_b[i - na]);
        }
    }
    assert(q.scales@ =~= a.scales@ + b.scales@);
}

/// A joined query has the rows of the first, then those of the second.
proof fn lemma_joined_row(a: &QueryI8, b: &QueryI8, q: &QueryI8, qi: int)
    requires
        a.wf(),
        b.wf(),
        q.wf(),
        is_joined(a, b, q),
    ensures
        q.nq() == a.nq() + b.nq(),
        0 <= qi < q.nq() ==> q.row(qi) == if qi < a.nq() {
            a.row(qi)
        } else {
            b.row(qi - a.nq())
        },
{
    if 0 <= qi < q.nq() {
        lemma_joined_chunk(a.values@, b.values@, q.dim as int, a.nq(), b.nq(), qi);
    }
}

/// A place `k` rows of `n` further on has the same remainder.
proof fn lemma_shift(n: int, k: int, i: int)
    requires
        0 < n,
    ensures
        (k * n + i) / n == k + i / n,
        (k * n + i) % n == i % n,
{
    vstd::arithmetic::div_mod::lemma_mod_multiples_vanish(k, i, n);
    vstd::arithmetic::div_mod::lemma_hoist_over_denominator(i, k, n as nat);
    assert(n * k == k * n) by (nonlinear_arith);
}

/// Places of the plane-major order, `na` rows further on.
proof fn lemma_plane_shift(na: int, i: int)
    ensures
        (na * 128 + i) / 128 == na + i / 128,
        (na * 128 + i) % 16 == i % 16,
        (na * 128 + i) % 128 == i % 128,
{
    lemma_shift(128, na, i);
    lemma_shift(16, 8 * na, i);
}

/// Places of the even-then-odd order, `na` rows further on.
proof fn lemma_even_odd_shift(na: int, i: int)
    ensures
        (na * 128 + i) / 64 == 2 * na + i / 64,
        (na * 128 + i) % 32 == i % 32,
        (na * 128 + i) % 64 == i % 64,
{
    lemma_shift(64, 2 * na, i);
    lemma_shift(32, 4 * na, i);
}

/// Places of the pair-major order, `pairs` pairs further on.
proof fn lemma_pair_shift(pairs: int, i: int)
    ensures
        (pairs * 256 + i) / 256 == pairs + i / 256,
        (pairs * 256 + i) % 256 == i % 256,
        (pairs * 256 + i) % 16 == i % 16,
        (pairs * 256 + i) % 8 == i % 8,
{
    lemma_shift(256, pairs, i);
    lemma_shift(16, 16 * pairs, i);
    lemma_shift(8, 32 * pairs, i);
}

proof fn lemma_joined_planes(
    na: int,
    values_a: Seq<i8>,
    planes_a: Seq<i8>,
    values_b: Seq<i8>,
    planes_b: Seq<i8>,
    planes: Seq<i8>,
)
    requires
        values_a.len() == na * 128,
        query::is_plane_major(values_a, planes_a),
        query::is_plane_major(values_b, planes_b),
        query::is_plane_major(values_a + values_b, planes),
        values_b.len() % 128 == 0,
    ensures
        planes == planes_a + planes_b,
{
    let values = values_a + values_b;
    assert forall|i: int| 0 <= i < planes.len() implies #[trigger] planes[i] == (planes_a
        + planes_b)[i] by {
        if i < na * 128 {
            query::lemma_plane_source(i, na * 128);
            let at = (i / 128) * 128 + (i % 16) * 8 + (i % 128) / 16;
            assert(planes[i] == values[at]);
            assert(planes_a[i] == values_a[at]);
        } else {
            let k = i - na * 128;
            lemma_plane_shift(na, k);
            query::lemma_plane_source(k, values_b.len() as int);
            let at = (k / 128) * 128 + (k % 16) * 8 + (k % 128) / 16;
            assert(planes[i] == values[na * 128 + at]);
            assert(planes_b[k] == values_b[at]);
        }
    }
    assert(planes =~= planes_a + planes_b);
}

proof fn lemma_joined_even_odd(
    na: int,
    values_a: Seq<i8>,
    perm_a: Seq<i8>,
    values_b: Seq<i8>,
    perm_b: Seq<i8>,
    perm: Seq<i8>,
)
    requires
        values_a.len() == na * 128,
        query::is_even_odd(values_a, perm_a),
        query::is_even_odd(values_b, perm_b),
        query::is_even_odd(values_a + values_b, perm),
        values_b.len() % 128 == 0,
    ensures
        perm == perm_a + perm_b,
{
    let values = values_a + values_b;
    assert forall|i: int| 0 <= i < perm.len() implies #[trigger] perm[i] == (perm_a
        + perm_b)[i] by {
        if i < na * 128 {
            query::lemma_even_odd_source(i, na * 128);
            let at = (i / 64) * 64 + 2 * (i % 32) + (i % 64) / 32;
            assert(perm[i] == values[at]);
            assert(perm_a[i] == values_a[at]);
        } else {
            let k = i - na * 128;
            lemma_even_odd_shift(na, k);
            query::lemma_even_odd_source(k, values_b.len() as int);
            let at = (k / 64) * 64 + 2 * (k % 32) + (k % 64) / 32;
            assert(perm[i] == values[na * 128 + at]);
            assert(perm_b[k] == values_b[at]);
        }
    }
    assert(perm =~= perm_a + perm_b);
}

proof fn lemma_joined_pairs(
    na: int,
    planes_a: Seq<i8>,
    pairs_a: Seq<i8>,
    nb: int,
    planes_b: Seq<i8>,
    pairs_b: Seq<i8>,
    pairs: Seq<i8>,
)
    requires
        0 < na,
        na % 2 == 0,
        0 < nb,
        planes_a.len() == na * 128,
        planes_b.len() == nb * 128,
        query::is_pair_major(na, planes_a, pairs_a),
        query::is_pair_major(nb, planes_b, pairs_b),
        query::is_pair_major(na + nb, planes_a + planes_b, pairs),
    ensures
        pairs == pairs_a + pairs_b,
{
    let planes = planes_a + planes_b;
    let half = na / 2;
    assert(pairs_a.len() == half * 256);
    assert(pairs.len() == half * 256 + pairs_b.len());
    assert forall|i: int| 0 <= i < pairs.len() implies #[trigger] pairs[i] == (pairs_a
        + pairs_b)[i] by {
        query::lemma_pair_source(i, na + nb);
        if i < half * 256 {
            query::lemma_pair_source(i, na);
            let row = query::paired_row(na, i / 256, (i % 16) / 8);
            let at = ((i % 256) / 16) * 8 + i % 8;
            assert(query::paired_row(na + nb, i / 256, (i % 16) / 8) == row);
            assert(pairs[i] == planes[row * 128 + at]);
            assert(pairs_a[i] == planes_a[row * 128 + at]);
        } else {
            let k = i - half * 256;
            lemma_pair_shift(half, k);
            query::lemma_pair_source(k, nb);
            let row = query::paired_row(nb, k / 256, (k % 16) / 8);
            let at = ((k % 256) / 16) * 8 + k % 8;
            assert(query::paired_row(na + nb, i / 256, (i % 16) / 8) == na + row);
            assert(pairs[i] == planes[(na + row) * 128 + at]);
            assert(pairs_b[k] == planes_b[row * 128 + at]);
        }
    }
    assert(pairs =~= pairs_a + pairs_b);
}

/// In a joined query every field is the two fields joined; the pairs of rows
/// are where the first query has no row left over, or where there are none.
pub proof fn law_joined_query(a: &QueryI8, b: &QueryI8, q: &QueryI8)
    requires
        a.wf(),
        b.wf(),
        q.wf(),
        is_joined(a, b, q),
    ensures
        q.nq() == a.nq() + b.nq(),
        q.sums@ == a.sums@ + b.sums@,
        q.biased@ == a.biased@ + b.biased@,
        q.planes@ == a.planes@ + b.planes@,
        q.perm4@ == a.perm4@ + b.perm4@,
        q.absq4@ == a.absq4@ + b.absq4@,
        a.nq() % 2 == 0 || q.dim != 128 ==> q.planes_smmla@ == a.planes_smmla@ + b.planes_smmla@,
{
    lemma_joined_row(a, b, q, 0);
    assert forall|qi: int| 0 <= qi < q.nq() implies #[trigger] q.sums@[qi] == (a.sums@
        + b.sums@)[qi] by {
        lemma_joined_row(a, b, q, qi);
        if qi < a.nq() {
            assert(q.sums@[qi] == a.sums@[qi]);
        } else {
            assert(q.sums@[qi] == b.sums@[qi - a.nq()]);
        }
    }
    assert(q.sums@ =~= a.sums@ + b.sums@);
    assert(q.biased@ =~= a.biased@ + b.biased@);
    if q.dim == 128 {
        lemma_joined_planes(a.nq(), a.values@, a.planes@, b.values@, b.planes@, q.planes@);
        lemma_joined_even_odd(a.nq(), a.values@, a.perm4@, b.values@, b.perm4@, q.perm4@);
        assert(q.absq4@ =~= a.absq4@ + b.absq4@);
        if a.nq() % 2 == 0 {
            lemma_joined_pairs(
                a.nq(),
                a.planes@,
                a.planes_smmla@,
                b.nq(),
                b.planes@,
                b.planes_smmla@,
                q.planes_smmla@,
            );
        }
    } else {
        assert(q.planes@ =~= a.planes@ + b.planes@);
        assert(q.planes_smmla@ =~= a.planes_smmla@ + b.planes_smmla@);
        assert(q.perm4@ =~= a.perm4@ + b.perm4@);
        assert(q.absq4@ =~= a.absq4@ + b.absq4@);
    }
}

/// A joined query scores a document as the two queries do, one after the other.
pub proof fn law_joined_query_scores(
    a: &QueryI8,
    b: &QueryI8,
    q: &QueryI8,
    bits: Seq<u8>,
    best_a: Seq<i32>,
    best_b: Seq<i32>,
    best: Seq<i32>,
)
    requires
        a.wf(),
        b.wf(),
        q.wf(),
        is_joined(a, b, q),
        a.is_maxsim(bits, best_a),
        b.is_maxsim(bits, best_b),
        q.is_maxsim(bits, best),
    ensures
        best == best_a + best_b,
{
    lemma_joined_row(a, b, q, 0);
    assert forall|qi: int| 0 <= qi < q.nq() implies #[trigger] best[qi] == (best_a
        + best_b)[qi] by {
        lemma_joined_row(a, b, q, qi);
        if qi < a.nq() {
            assert(best[qi] == best_a[qi]);
        } else {
            assert(best[qi] == best_b[qi - a.nq()]);
        }
    }
    assert(best =~= best_a + best_b);
}

} // verus!
