//! The 128-bit vector operations of the NEON kernels, lane by lane.

use crate::model;
use crate::sums;
use vstd::prelude::*;

verus! {

/// No lane of an accumulator is near the ends of its range.
pub open spec fn within(v: [i32; 4], m: int) -> bool {
    forall|l: int| 0 <= l < 4 ==> -m <= #[trigger] v[l] <= m
}

/// The sum of the four lanes.
pub open spec fn lane_total(v: [i32; 4]) -> int {
    v[0] + v[1] + v[2] + v[3]
}

/// The largest of four lanes.
pub open spec fn lane_max(a: int, b: int, c: int, d: int) -> int {
    model::max(model::max(a, b), model::max(c, d))
}

/// Sixteen bytes from `at` on.
pub fn load_u8(s: &[u8], at: usize) -> (v: [u8; 16])
    requires
        at + 16 <= s@.len(),
    ensures
        forall|i: int| 0 <= i < 16 ==> #[trigger] v[i] == s@[at + i],
{
    let mut v: [u8; 16] = [0u8;16];
    let mut i: usize = 0;
    while i < 16
        invariant
            i <= 16,
            at + 16 <= s.len(),
            forall|k: int| 0 <= k < i ==> #[trigger] v[k] == s@[at + k],
        decreases 16 - i,
    {
        v[i] = s[at + i];
        i = i + 1;
    }
    v
}

/// Sixteen signed bytes from `at` on.
pub fn load_i8(s: &[i8], at: usize) -> (v: [i8; 16])
    requires
        at + 16 <= s@.len(),
    ensures
        forall|i: int| 0 <= i < 16 ==> #[trigger] v[i] == s@[at + i],
{
    let mut v: [i8; 16] = [0i8;16];
    let mut i: usize = 0;
    while i < 16
        invariant
            i <= 16,
            at + 16 <= s.len(),
            forall|k: int| 0 <= k < i ==> #[trigger] v[k] == s@[at + k],
        decreases 16 - i,
    {
        v[i] = s[at + i];
        i = i + 1;
    }
    v
}

/// Each byte shifted right by `n` bits.
pub fn shift_right(v: [u8; 16], n: u8) -> (r: [u8; 16])
    requires
        n < 8,
    ensures
        forall|i: int| 0 <= i < 16 ==> #[trigger] r[i] == v[i] >> n,
{
    let mut r: [u8; 16] = [0u8;16];
    let mut i: usize = 0;
    while i < 16
        invariant
            i <= 16,
            n < 8,
            forall|k: int| 0 <= k < i ==> #[trigger] r[k] == v[k] >> n,
        decreases 16 - i,
    {
        r[i] = v[i] >> n;
        i = i + 1;
    }
    r
}

/// Each byte masked by `m`.
pub fn and_all(v: [u8; 16], m: u8) -> (r: [u8; 16])
    ensures
        forall|i: int| 0 <= i < 16 ==> #[trigger] r[i] == v[i] & m,
{
    let mut r: [u8; 16] = [0u8;16];
    let mut i: usize = 0;
    while i < 16
        invariant
            i <= 16,
            forall|k: int| 0 <= k < i ==> #[trigger] r[k] == v[k] & m,
        decreases 16 - i,
    {
        r[i] = v[i] & m;
        i = i + 1;
    }
    r
}

/// Sixteen look-ups in a sixteen-entry table at once; an index past the table
/// gives zero.
pub fn table_lookup(table: &[i8; 16], index: [u8; 16]) -> (r: [i8; 16])
    ensures
        forall|i: int|
            0 <= i < 16 ==> #[trigger] r[i] == if index[i] < 16 {
                table[index[i] as int] as int
            } else {
                0
            },
{
    let mut r: [i8; 16] = [0i8;16];
    let mut i: usize = 0;
    while i < 16
        invariant
            i <= 16,
            forall|k: int|
                0 <= k < i ==> #[trigger] r[k] == if index[k] < 16 {
                    table[index[k] as int] as int
                } else {
                    0
                },
            forall|k: int| i <= k < 16 ==> #[trigger] r[k] == 0,
        decreases 16 - i,
    {
        if index[i] < 16 {
            r[i] = table[index[i] as usize];
        }
        i = i + 1;
    }
    r
}

/// The product of two signed bytes.
fn byte_product(a: i8, b: i8) -> (p: i32)
    ensures
        p == a * b,
        -16384 <= p <= 16384,
{
    proof {
        assert(-16384 <= a * b <= 16384) by (nonlinear_arith)
            requires
                -128 <= a <= 127,
                -128 <= b <= 127,
        ;
    }
    a as i32 * b as i32
}

/// `SDOT`: each of four lanes accumulates four products of signed bytes.
pub fn sdot(acc: [i32; 4], a: [i8; 16], b: [i8; 16]) -> (r: [i32; 4])
    requires
        within(acc, 0x4000_0000),
    ensures
        forall|l: int|
            0 <= l < 4 ==> #[trigger] r[l] == acc[l] + a[4 * l] * b[4 * l] + a[4 * l + 1] * b[4 * l
                + 1] + a[4 * l + 2] * b[4 * l + 2] + a[4 * l + 3] * b[4 * l + 3],
        forall|l: int| 0 <= l < 4 ==> acc[l] - 65536 <= #[trigger] r[l] <= acc[l] + 65536,
{
    let mut r: [i32; 4] = acc;
    let mut l: usize = 0;
    while l < 4
        invariant
            l <= 4,
            within(acc, 0x4000_0000),
            forall|k: int|
                0 <= k < l ==> #[trigger] r[k] == acc[k] + a[4 * k] * b[4 * k] + a[4 * k + 1] * b[4
                    * k + 1] + a[4 * k + 2] * b[4 * k + 2] + a[4 * k + 3] * b[4 * k + 3],
            forall|k: int| 0 <= k < l ==> acc[k] - 65536 <= #[trigger] r[k] <= acc[k] + 65536,
            forall|k: int| l <= k < 4 ==> #[trigger] r[k] == acc[k],
        decreases 4 - l,
    {
        let p0: i32 = byte_product(a[4 * l], b[4 * l]);
        let p1: i32 = byte_product(a[4 * l + 1], b[4 * l + 1]);
        let p2: i32 = byte_product(a[4 * l + 2], b[4 * l + 2]);
        let p3: i32 = byte_product(a[4 * l + 3], b[4 * l + 3]);
        let x: i32 = acc[l];
        r[l] = x + p0 + p1 + p2 + p3;
        l = l + 1;
    }
    r
}

/// `SDOT` adds to the lane total the sum of all sixteen products.
pub proof fn lemma_sdot_total(
    acc: [i32; 4],
    a: [i8; 16],
    b: [i8; 16],
    r: [i32; 4],
    f: spec_fn(int) -> int,
    at: int,
)
    requires
        forall|l: int|
            0 <= l < 4 ==> #[trigger] r[l] == acc[l] + a[4 * l] * b[4 * l] + a[4 * l + 1] * b[4 * l
                + 1] + a[4 * l + 2] * b[4 * l + 2] + a[4 * l + 3] * b[4 * l + 3],
        forall|i: int| 0 <= i < 16 ==> f(at + i) == #[trigger] a[i] * b[i],
        0 <= at,
    ensures
        lane_total(r) + sums::sum(at, f) == lane_total(acc) + sums::sum(at + 16, f),
{
    assert(sums::sum(at + 16, f) == sums::sum(at, f) + f(at) + f(at + 1) + f(at + 2) + f(at + 3)
        + f(at + 4) + f(at + 5) + f(at + 6) + f(at + 7) + f(at + 8) + f(at + 9) + f(at + 10) + f(
        at + 11,
    ) + f(at + 12) + f(at + 13) + f(at + 14) + f(at + 15)) by {
        reveal_with_fuel(sums::sum, 17);
    }
    assert(r[0] == acc[0] + a[0] * b[0] + a[1] * b[1] + a[2] * b[2] + a[3] * b[3]);
    assert(r[1] == acc[1] + a[4] * b[4] + a[5] * b[5] + a[6] * b[6] + a[7] * b[7]);
    assert(r[2] == acc[2] + a[8] * b[8] + a[9] * b[9] + a[10] * b[10] + a[11] * b[11]);
    assert(r[3] == acc[3] + a[12] * b[12] + a[13] * b[13] + a[14] * b[14] + a[15] * b[15]);
}

/// Lane-wise sum.
pub fn add_lanes(a: [i32; 4], b: [i32; 4]) -> (r: [i32; 4])
    requires
        within(a, 0x3fff_ffff),
        within(b, 0x3fff_ffff),
    ensures
        r@ == seq![
            (a[0] + b[0]) as i32,
            (a[1] + b[1]) as i32,
            (a[2] + b[2]) as i32,
            (a[3] + b[3]) as i32,
        ],
        lane_total(r) == lane_total(a) + lane_total(b),
{
    [a[0] + b[0], a[1] + b[1], a[2] + b[2], a[3] + b[3]]
}

/// Sums of adjacent lanes: two of `a`, then two of `b`.
pub fn pairwise_add(a: [i32; 4], b: [i32; 4]) -> (r: [i32; 4])
    requires
        within(a, 0x3fff_ffff),
        within(b, 0x3fff_ffff),
    ensures
        r[0] == a[0] + a[1],
        r[1] == a[2] + a[3],
        r[2] == b[0] + b[1],
        r[3] == b[2] + b[3],
{
    [a[0] + a[1], a[2] + a[3], b[0] + b[1], b[2] + b[3]]
}

/// The sum of the lanes.
pub fn add_across(v: [i32; 4]) -> (t: i32)
    requires
        within(v, 0x1fff_ffff),
    ensures
        t == lane_total(v),
{
    v[0] + v[1] + v[2] + v[3]
}

/// The larger of each pair of lanes.
pub fn max_lanes(a: [i32; 4], b: [i32; 4]) -> (r: [i32; 4])
    ensures
        forall|l: int| 0 <= l < 4 ==> #[trigger] r[l] == model::max(a[l] as int, b[l] as int),
{
    [larger(a[0], b[0]), larger(a[1], b[1]), larger(a[2], b[2]), larger(a[3], b[3])]
}

/// Maxima of adjacent lanes: two of `a`, then two of `b`.
pub fn pairwise_max(a: [i32; 4], b: [i32; 4]) -> (r: [i32; 4])
    ensures
        r[0] == model::max(a[0] as int, a[1] as int),
        r[1] == model::max(a[2] as int, a[3] as int),
        r[2] == model::max(b[0] as int, b[1] as int),
        r[3] == model::max(b[2] as int, b[3] as int),
{
    [larger(a[0], a[1]), larger(a[2], a[3]), larger(b[0], b[1]), larger(b[2], b[3])]
}

/// The largest lane.
pub fn max_across(v: [i32; 4]) -> (m: i32)
    ensures
        m == lane_max(v[0] as int, v[1] as int, v[2] as int, v[3] as int),
{
    larger(larger(v[0], v[1]), larger(v[2], v[3]))
}

/// The larger of two integers.
pub fn larger(a: i32, b: i32) -> (m: i32)
    ensures
        m == model::max(a as int, b as int),
{
    if a >= b {
        a
    } else {
        b
    }
}

/// `2p - t` in each lane.
pub fn double_minus(p: [i32; 4], t: [i32; 4]) -> (r: [i32; 4])
    requires
        within(p, 0x0fff_ffff),
        within(t, 0x0fff_ffff),
    ensures
        forall|l: int| 0 <= l < 4 ==> #[trigger] r[l] == 2 * p[l] - t[l],
{
    [2 * p[0] - t[0], 2 * p[1] - t[1], 2 * p[2] - t[2], 2 * p[3] - t[3]]
}

/// The dot product of two runs of 128 signed bytes, spread over four lanes:
/// eight `SDOT`s on two chains.
pub fn dot_128(x: &[i8], y: &[i8]) -> (r: [i32; 4])
    requires
        x@.len() == 128,
        y@.len() == 128,
    ensures
        lane_total(r) == sums::sum(128, model::products(x@, y@)),
        within(r, 0x8_0000),
{
    let mut a: [i32; 4] = [0i32;4];
    let mut b: [i32; 4] = [0i32;4];
    let mut c: usize = 0;
    let ghost f = model::products(x@, y@);
    while c < 4
        invariant
            c <= 4,
            x@.len() == 128,
            y@.len() == 128,
            f == model::products(x@, y@),
            lane_total(a) + lane_total(b) == sums::sum(32 * c, f),
            within(a, 65536 * c),
            within(b, 65536 * c),
        decreases 4 - c,
    {
        let xa: [i8; 16] = load_i8(x, 32 * c);
        let ya: [i8; 16] = load_i8(y, 32 * c);
        let xb: [i8; 16] = load_i8(x, 32 * c + 16);
        let yb: [i8; 16] = load_i8(y, 32 * c + 16);
        let a2: [i32; 4] = sdot(a, xa, ya);
        let b2: [i32; 4] = sdot(b, xb, yb);
        proof {
            assert forall|i: int| 0 <= i < 16 implies f(32 * c + i) == #[trigger] xa[i]
                * ya[i] by {}
            assert forall|i: int| 0 <= i < 16 implies f(32 * c + 16 + i) == #[trigger] xb[i]
                * yb[i] by {}
            lemma_sdot_total(a, xa, ya, a2, f, 32 * c);
            lemma_sdot_total(b, xb, yb, b2, f, 32 * c + 16);
        }
        a = a2;
        b = b2;
        c = c + 1;
    }
    add_lanes(a, b)
}

/// Products of eight bytes of `a` from `i` on with eight bytes of `b` from `j`
/// on.
pub open spec fn eight_products(a: Seq<i8>, i: int, b: Seq<i8>, j: int) -> spec_fn(int) -> int {
    |t: int| a[i + t] * b[j + t]
}

/// The dot product of eight bytes of `a` from `i` on and eight of `b` from `j`
/// on.
fn dot_8(a: &[i8; 16], i: usize, b: &[i8; 16], j: usize) -> (r: i32)
    requires
        i <= 8,
        j <= 8,
    ensures
        r == sums::sum(8, eight_products(a@, i as int, b@, j as int)),
        -131072 <= r <= 131072,
{
    let mut r: i32 = 0;
    let mut t: usize = 0;
    while t < 8
        invariant
            t <= 8,
            i <= 8,
            j <= 8,
            r == sums::sum(t as int, eight_products(a@, i as int, b@, j as int)),
            -16384 * t <= r <= 16384 * t,
        decreases 8 - t,
    {
        let p: i32 = byte_product(a[i + t], b[j + t]);
        r = r + p;
        t = t + 1;
    }
    r
}

/// `SMMLA`: reads each operand as two rows of eight signed bytes and
/// accumulates the dot product of each row of `a` with each row of `b`.
pub fn smmla(acc: [i32; 4], a: &[i8; 16], b: &[i8; 16]) -> (r: [i32; 4])
    requires
        within(acc, 0x4000_0000),
    ensures
        r[0] == acc[0] + sums::sum(8, eight_products(a@, 0, b@, 0)),
        r[1] == acc[1] + sums::sum(8, eight_products(a@, 0, b@, 8)),
        r[2] == acc[2] + sums::sum(8, eight_products(a@, 8, b@, 0)),
        r[3] == acc[3] + sums::sum(8, eight_products(a@, 8, b@, 8)),
        forall|l: int| 0 <= l < 4 ==> acc[l] - 131072 <= #[trigger] r[l] <= acc[l] + 131072,
{
    [
        acc[0] + dot_8(a, 0, b, 0),
        acc[1] + dot_8(a, 0, b, 8),
        acc[2] + dot_8(a, 8, b, 0),
        acc[3] + dot_8(a, 8, b, 8),
    ]
}

/// `pair` holds two runs of 128 bytes, eight of one and eight of the other in
/// turn.
pub open spec fn is_interleaved(pair: Seq<i8>, x: Seq<i8>, y: Seq<i8>) -> bool {
    &&& pair.len() == 256
    &&& x.len() == 128
    &&& y.len() == 128
    &&& forall|i: int|
        0 <= i < 256 ==> #[trigger] pair[i] == if (i % 16) / 8 == 0 {
            x[(i / 16) * 8 + i % 8]
        } else {
            y[(i / 16) * 8 + i % 8]
        }
}

/// Zips two runs of 128 bytes in groups of eight.
pub fn interleave(x: &[i8; 128], y: &[i8; 128]) -> (pair: [i8; 256])
    ensures
        is_interleaved(pair@, x@, y@),
{
    let mut pair: [i8; 256] = [0i8;256];
    let mut i: usize = 0;
    while i < 256
        invariant
            i <= 256,
            forall|k: int|
                0 <= k < i ==> #[trigger] pair[k] == if (k % 16) / 8 == 0 {
                    x[(k / 16) * 8 + k % 8]
                } else {
                    y[(k / 16) * 8 + k % 8]
                },
        decreases 256 - i,
    {
        let at: usize = (i / 16) * 8 + i % 8;
        if (i % 16) / 8 == 0 {
            pair[i] = x[at];
        } else {
            pair[i] = y[at];
        }
        i = i + 1;
    }
    pair
}

/// Eight products of sixteen-byte operands cut from two interleaved pairs are
/// eight terms of a dot product of the runs they hold.
proof fn lemma_eight(
    a: Seq<i8>,
    i: int,
    b: Seq<i8>,
    j: int,
    x: Seq<i8>,
    y: Seq<i8>,
    c: int,
)
    requires
        0 <= c < 16,
        forall|t: int| 0 <= t < 8 ==> #[trigger] a[i + t] == x[8 * c + t],
        forall|t: int| 0 <= t < 8 ==> #[trigger] b[j + t] == y[8 * c + t],
    ensures
        sums::sum(8 * c + 8, model::products(x, y)) == sums::sum(8 * c, model::products(x, y)) + sums::sum(
            8,
            eight_products(a, i, b, j),
        ),
{
    sums::lemma_sum_split(8 * c, 8, model::products(x, y));
    assert forall|t: int| 0 <= t < 8 implies #[trigger] sums::shifted(model::products(x, y), 8 * c)(t)
        == eight_products(a, i, b, j)(t) by {
        assert(a[i + t] == x[8 * c + t]);
        assert(b[j + t] == y[8 * c + t]);
    }
    sums::lemma_sum_eq(8, sums::shifted(model::products(x, y), 8 * c), eight_products(a, i, b, j));
}

/// The four dot products of two interleaved query rows with two interleaved
/// tokens: first row with each token, then second row with each.
pub open spec fn is_tile(
    r: [i32; 4],
    qa: Seq<i8>,
    qb: Seq<i8>,
    da: Seq<i8>,
    db: Seq<i8>,
    n: int,
) -> bool {
    &&& r[0] == sums::sum(n, model::products(qa, da))
    &&& r[1] == sums::sum(n, model::products(qa, db))
    &&& r[2] == sums::sum(n, model::products(qb, da))
    &&& r[3] == sums::sum(n, model::products(qb, db))
}

/// One `SMMLA` step: chunk `c` of both operands.
#[verifier::rlimit(30)]
fn tile_step(
    acc: [i32; 4],
    qp: &[i8],
    dp: &[i8],
    c: usize,
    Ghost(qa): Ghost<Seq<i8>>,
    Ghost(qb): Ghost<Seq<i8>>,
    Ghost(da): Ghost<Seq<i8>>,
    Ghost(db): Ghost<Seq<i8>>,
) -> (r: [i32; 4])
    requires
        c < 16,
        is_interleaved(qp@, qa, qb),
        is_interleaved(dp@, da, db),
        within(acc, 0x4000_0000),
    ensures
        r[0] - acc[0] == sums::sum(8 * c + 8, model::products(qa, da)) - sums::sum(
            8 * c as int,
            model::products(qa, da),
        ),
        r[1] - acc[1] == sums::sum(8 * c + 8, model::products(qa, db)) - sums::sum(
            8 * c as int,
            model::products(qa, db),
        ),
        r[2] - acc[2] == sums::sum(8 * c + 8, model::products(qb, da)) - sums::sum(
            8 * c as int,
            model::products(qb, da),
        ),
        r[3] - acc[3] == sums::sum(8 * c + 8, model::products(qb, db)) - sums::sum(
            8 * c as int,
            model::products(qb, db),
        ),
        forall|l: int| 0 <= l < 4 ==> acc[l] - 131072 <= #[trigger] r[l] <= acc[l] + 131072,
{
    let a: [i8; 16] = load_i8(qp, c * 16);
    let b: [i8; 16] = load_i8(dp, c * 16);
    proof {
        assert forall|t: int| 0 <= t < 8 implies #[trigger] a@[0 + t] == qa[8 * c + t] by {
            assert(a[t] == qp@[c * 16 + t]);
        }
        assert forall|t: int| 0 <= t < 8 implies #[trigger] a@[8 + t] == qb[8 * c + t] by {
            assert(a[8 + t] == qp@[c * 16 + (8 + t)]);
        }
        assert forall|t: int| 0 <= t < 8 implies #[trigger] b@[0 + t] == da[8 * c + t] by {
            assert(b[t] == dp@[c * 16 + t]);
        }
        assert forall|t: int| 0 <= t < 8 implies #[trigger] b@[8 + t] == db[8 * c + t] by {
            assert(b[8 + t] == dp@[c * 16 + (8 + t)]);
        }
        lemma_eight(a@, 0, b@, 0, qa, da, c as int);
        lemma_eight(a@, 0, b@, 8, qa, db, c as int);
        lemma_eight(a@, 8, b@, 0, qb, da, c as int);
        lemma_eight(a@, 8, b@, 8, qb, db, c as int);
    }
    smmla(acc, &a, &b)
}

/// The two-by-two tile of dot products of two interleaved query rows with two
/// interleaved tokens: sixteen `SMMLA`s on four chains.
pub fn tile_128(
    qp: &[i8],
    dp: &[i8],
    Ghost(qa): Ghost<Seq<i8>>,
    Ghost(qb): Ghost<Seq<i8>>,
    Ghost(da): Ghost<Seq<i8>>,
    Ghost(db): Ghost<Seq<i8>>,
) -> (r: [i32; 4])
    requires
        is_interleaved(qp@, qa, qb),
        is_interleaved(dp@, da, db),
    ensures
        is_tile(r, qa, qb, da, db, 128),
        within(r, 0x20_0000),
{
    let mut a: [i32; 4] = [0i32;4];
    let mut b: [i32; 4] = [0i32;4];
    let mut c: [i32; 4] = [0i32;4];
    let mut d: [i32; 4] = [0i32;4];
    let mut i: usize = 0;
    while i < 4
        invariant
            i <= 4,
            is_interleaved(qp@, qa, qb),
            is_interleaved(dp@, da, db),
            within(a, 131072 * i),
            within(b, 131072 * i),
            within(c, 131072 * i),
            within(d, 131072 * i),
            a[0] + b[0] + c[0] + d[0] == sums::sum(32 * i as int, model::products(qa, da)),
            a[1] + b[1] + c[1] + d[1] == sums::sum(32 * i as int, model::products(qa, db)),
            a[2] + b[2] + c[2] + d[2] == sums::sum(32 * i as int, model::products(qb, da)),
            a[3] + b[3] + c[3] + d[3] == sums::sum(32 * i as int, model::products(qb, db)),
        decreases 4 - i,
    {
        a = tile_step(a, qp, dp, 4 * i, Ghost(qa), Ghost(qb), Ghost(da), Ghost(db));
        b = tile_step(b, qp, dp, 4 * i + 1, Ghost(qa), Ghost(qb), Ghost(da), Ghost(db));
        c = tile_step(c, qp, dp, 4 * i + 2, Ghost(qa), Ghost(qb), Ghost(da), Ghost(db));
        d = tile_step(d, qp, dp, 4 * i + 3, Ghost(qa), Ghost(qb), Ghost(da), Ghost(db));
        i = i + 1;
    }
    add_lanes(add_lanes(a, b), add_lanes(c, d))
}

} // verus!
