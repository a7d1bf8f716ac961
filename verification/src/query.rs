//! The quantized query: integer codes, their row constants, and the layouts
//! that the fused kernels read.

use crate::binary32;
use crate::model;
use crate::sums;
use vstd::prelude::*;

verus! {

/// The largest dimension whose row sums fit in an `i32` whatever the codes.
pub const MAX_DIM: usize = 16_909_320;

/// A query of `nq` rows of `dim` integer codes.
///
/// `planes`, `planes_smmla`, `perm4` and `absq4` are filled for `dim == 128`
/// and empty otherwise.
pub struct QueryI8 {
    pub dim: usize,
    /// `[nq * dim]` codes, row-major, within `-127 ..= 127`.
    pub values: Vec<i8>,
    /// `[nq]` dequantization scale of each row, as a binary32 pattern.
    pub scales: Vec<u32>,
    /// `[nq]` sum of each row's codes.
    pub sums: Vec<i32>,
    /// Plane-major codes: `planes[qi*128 + p*16 + k] = values[qi*128 + k*8 + p]`,
    /// the order in which a token's bit planes are expanded.
    pub planes: Vec<i8>,
    /// Rows re-packed in pairs: for pair `i` (rows `2i` and `2i + 1`), sixteen
    /// times eight plane bytes of the first followed by eight of the second.
    /// The last pair of an odd number of rows repeats the last row.
    pub planes_smmla: Vec<i8>,
    /// Codes plus 128, row-major.
    pub biased: Vec<u8>,
    /// Even dimensions, then odd ones, of each group of 64: the order in which
    /// the weights of a token's high and low nibbles are looked up.
    pub perm4: Vec<i8>,
    /// Absolute values of `perm4`.
    pub absq4: Vec<u8>,
}

/// `planes` holds `values`, rows of 128, in plane-major order.
pub open spec fn is_plane_major(values: Seq<i8>, planes: Seq<i8>) -> bool {
    &&& planes.len() == values.len()
    &&& forall|i: int|
        0 <= i < planes.len() ==> #[trigger] planes[i] == values[(i / 128) * 128 + (i % 16) * 8 + (
        i % 128) / 16]
}

/// The row that half `h` of pair `p` holds, of `nq` rows.
pub open spec fn paired_row(nq: int, p: int, h: int) -> int {
    if 2 * p + h < nq {
        2 * p + h
    } else {
        nq - 1
    }
}

/// `pairs` holds the `nq` rows of `planes` in interleaved pairs.
pub open spec fn is_pair_major(nq: int, planes: Seq<i8>, pairs: Seq<i8>) -> bool {
    &&& pairs.len() == ((nq + 1) / 2) * 256
    &&& forall|i: int|
        0 <= i < pairs.len() ==> #[trigger] pairs[i] == planes[paired_row(
            nq,
            i / 256,
            (i % 16) / 8,
        ) * 128 + ((i % 256) / 16) * 8 + i % 8]
}

/// `biased` holds each code plus 128.
pub open spec fn is_biased(values: Seq<i8>, biased: Seq<u8>) -> bool {
    &&& biased.len() == values.len()
    &&& forall|i: int| 0 <= i < biased.len() ==> #[trigger] biased[i] == values[i] + 128
}

/// `perm` holds each 64 codes as 32 even dimensions, then 32 odd ones.
pub open spec fn is_even_odd(values: Seq<i8>, perm: Seq<i8>) -> bool {
    &&& perm.len() == values.len()
    &&& forall|i: int|
        0 <= i < perm.len() ==> #[trigger] perm[i] == values[(i / 64) * 64 + 2 * (i % 32) + (i % 64)
            / 32]
}

/// `abs` holds the absolute values of `codes`.
pub open spec fn is_abs(codes: Seq<i8>, abs: Seq<u8>) -> bool {
    &&& abs.len() == codes.len()
    &&& forall|i: int|
        0 <= i < abs.len() ==> #[trigger] abs[i] == if codes[i] < 0 {
            -codes[i]
        } else {
            codes[i] as int
        }
}

impl QueryI8 {
    /// The number of rows.
    pub open spec fn nq(&self) -> int {
        self.sums@.len() as int
    }

    /// The codes of row `qi`.
    pub open spec fn row(&self, qi: int) -> Seq<i8> {
        model::chunk(self.values@, self.dim as int, qi)
    }

    /// The layouts for `dim == 128` hold the codes of `values`.
    pub open spec fn layouts_wf(&self) -> bool {
        &&& is_plane_major(self.values@, self.planes@)
        &&& is_pair_major(self.nq(), self.planes@, self.planes_smmla@)
        &&& is_even_odd(self.values@, self.perm4@)
        &&& is_abs(self.perm4@, self.absq4@)
    }

    /// At least one row, rows of whole bytes of sign bits, symmetric codes,
    /// and constants and layouts that agree with the codes.
    pub open spec fn wf(&self) -> bool {
        &&& 0 < self.dim <= MAX_DIM
        &&& self.dim % 8 == 0
        &&& 0 < self.nq()
        &&& self.values@.len() == self.nq() * self.dim
        &&& self.scales@.len() == self.nq()
        &&& model::symmetric(self.values@)
        &&& forall|qi: int|
            0 <= qi < self.nq() ==> #[trigger] self.sums@[qi] == model::row_sum(self.row(qi))
        &&& is_biased(self.values@, self.biased@)
        &&& if self.dim == 128 {
            self.layouts_wf()
        } else {
            &&& self.planes@.len() == 0
            &&& self.planes_smmla@.len() == 0
            &&& self.perm4@.len() == 0
            &&& self.absq4@.len() == 0
        }
    }

    /// The codes and scales are those of `magnitudes.len()` rows of `dim`
    /// quotients.
    pub open spec fn is_quantized(
        &self,
        magnitudes: Seq<u32>,
        scales: Seq<u32>,
        quotients: Seq<u32>,
        dim: int,
    ) -> bool {
        &&& self.dim == dim
        &&& self.nq() == magnitudes.len()
        &&& self.values@.len() == quotients.len()
        &&& self.scales@.len() == magnitudes.len()
        &&& forall|i: int|
            0 <= i < self.values@.len() ==> #[trigger] self.values@[i] == quantized(
                magnitudes,
                quotients,
                dim,
                i,
            )
        &&& forall|i: int|
            0 <= i < self.nq() ==> #[trigger] self.scales@[i] == if binary32::is_positive(
                magnitudes[i],
            ) {
                scales[i]
            } else {
                0
            }
    }

    /// `best` holds, for each row, its largest dot product with the signs of a
    /// whole token of `bits`.
    pub open spec fn is_maxsim(&self, bits: Seq<u8>, best: Seq<i32>) -> bool {
        &&& best.len() == self.nq()
        &&& forall|qi: int|
            0 <= qi < self.nq() ==> #[trigger] best[qi] == model::best_score(
                self.row(qi),
                bits,
                bits.len() as int / (self.dim as int / 8),
            )
    }

    /// A row is `dim` symmetric codes of `values`.
    pub proof fn lemma_row(&self, qi: int)
        requires
            self.wf(),
            0 <= qi < self.nq(),
        ensures
            0 <= qi * self.dim,
            qi * self.dim + self.dim <= self.values@.len(),
            self.row(qi).len() == self.dim,
            model::symmetric(self.row(qi)),
            forall|d: int|
                0 <= d < self.dim ==> #[trigger] self.row(qi)[d] == self.values@[qi * self.dim + d],
    {
        model::lemma_chunk_fits(self.nq(), self.dim as int, qi);
    }
}

/// `m` is the largest absolute value among the numbers of `row`, zero where it
/// holds none.
pub open spec fn is_row_magnitude(row: Seq<u32>, m: u32) -> bool {
    &&& !binary32::is_nan(m)
    &&& !binary32::negative(m)
    &&& forall|d: int|
        0 <= d < row.len() && !binary32::is_nan(#[trigger] row[d]) ==> binary32::scaled_abs(row[d])
            <= binary32::scaled(m)
    &&& m == 0 || exists|d: int|
        0 <= d < row.len() && !binary32::is_nan(#[trigger] row[d]) && m == row[d] % 0x8000_0000
}

/// The largest absolute value of a row of binary32 patterns.
fn row_magnitude(row: &[u32]) -> (m: u32)
    ensures
        is_row_magnitude(row@, m),
{
    let mut m: u32 = 0;
    let n: usize = row.len();
    let mut d: usize = 0;
    while d < n
        invariant
            d <= n == row@.len(),
            is_row_magnitude(row@.take(d as int), m),
        decreases n - d,
    {
        let x: u32 = row[d];
        let ghost before = m;
        proof {
            assert(row@.take(d + 1)[d as int] == x);
        }
        if binary32::is_number(x) {
            let a: u32 = binary32::magnitude(x);
            if a > m {
                proof {
                    binary32::lemma_abs_increases(m, a);
                }
                m = a;
            } else if a < m {
                proof {
                    binary32::lemma_abs_increases(a, m);
                }
            }
        }
        proof {
            let old_row = row@.take(d as int);
            let new_row = row@.take(d + 1);
            assert forall|k: int|
                0 <= k < new_row.len() && !binary32::is_nan(#[trigger] new_row[k]) implies
                binary32::scaled_abs(new_row[k]) <= binary32::scaled(m) by {
                if k < d {
                    assert(old_row[k] == new_row[k]);
                }
            }
            if m == before && m != 0 && exists|k: int|
                0 <= k < old_row.len() && !binary32::is_nan(#[trigger] old_row[k]) && m
                    == old_row[k] % 0x8000_0000 {
                let k = choose|k: int|
                    0 <= k < old_row.len() && !binary32::is_nan(#[trigger] old_row[k]) && m
                        == old_row[k] % 0x8000_0000;
                assert(new_row[k] == old_row[k]);
            }
        }
        d = d + 1;
    }
    assert(row@.take(n as int) =~= row@);
    m
}

/// The largest absolute value of each row of a flat query of binary32
/// patterns.
pub fn row_magnitudes(q: &[u32], dim: usize) -> (magnitudes: Vec<u32>)
    requires
        dim > 0,
        q@.len() % dim as nat == 0,
    ensures
        magnitudes@.len() == q@.len() / dim as nat,
        forall|i: int|
            0 <= i < magnitudes@.len() ==> is_row_magnitude(
                model::chunk(q@, dim as int, i),
                #[trigger] magnitudes@[i],
            ),
{
    let nq: usize = q.len() / dim;
    let mut magnitudes: Vec<u32> = Vec::with_capacity(nq);
    let mut i: usize = 0;
    proof {
        model::lemma_whole_rows(q@.len() as int, dim as int);
    }
    while i < nq
        invariant
            i <= nq,
            nq * dim <= q@.len(),
            magnitudes@.len() == i,
            forall|k: int|
                0 <= k < i ==> is_row_magnitude(
                    model::chunk(q@, dim as int, k),
                    #[trigger] magnitudes@[k],
                ),
        decreases nq - i,
    {
        let row: &[u32] = row_slice(q, dim, i, nq);
        magnitudes.push(row_magnitude(row));
        i = i + 1;
    }
    magnitudes
}

/// Row `i` of `count` rows of length `n`.
pub(crate) fn row_slice<T>(s: &[T], n: usize, i: usize, count: usize) -> (row: &[T])
    requires
        i < count,
        count * n <= s@.len(),
    ensures
        row@ == model::chunk(s@, n as int, i as int),
        row@.len() == n,
{
    proof {
        model::lemma_chunk_fits(count as int, n as int, i as int);
        assert(s@.len() == s.len());
    }
    vstd::slice::slice_subrange(s, i * n, i * n + n)
}

/// The codes of a query: the rounded quotient, zero in a row of zeros.
pub open spec fn quantized(magnitudes: Seq<u32>, quotients: Seq<u32>, dim: int, i: int) -> int {
    if binary32::is_positive(magnitudes[i / dim]) {
        binary32::code_of(quotients[i])
    } else {
        0
    }
}

fn quantize_codes(magnitudes: &[u32], quotients: &[u32], dim: usize) -> (values: Vec<i8>)
    requires
        dim > 0,
        quotients@.len() == magnitudes@.len() * dim,
    ensures
        values@.len() == quotients@.len(),
        model::symmetric(values@),
        forall|i: int|
            0 <= i < values@.len() ==> #[trigger] values@[i] == quantized(
                magnitudes@,
                quotients@,
                dim as int,
                i,
            ),
{
    let n: usize = quotients.len();
    let mut values: Vec<i8> = Vec::with_capacity(n);
    let mut i: usize = 0;
    while i < n
        invariant
            i <= n == quotients@.len(),
            dim > 0,
            quotients@.len() == magnitudes@.len() * dim,
            values@.len() == i,
            model::symmetric(values@),
            forall|k: int|
                0 <= k < i ==> #[trigger] values@[k] == quantized(
                    magnitudes@,
                    quotients@,
                    dim as int,
                    k,
                ),
        decreases n - i,
    {
        proof {
            assert(magnitudes@.len() * dim == dim * magnitudes@.len()) by (nonlinear_arith);
            vstd::arithmetic::div_mod::lemma_multiply_divide_lt(
                i as int,
                dim as int,
                magnitudes@.len() as int,
            );
            vstd::arithmetic::div_mod::lemma_div_pos_is_pos(i as int, dim as int);
        }
        if binary32::positive(magnitudes[i / dim]) {
            values.push(binary32::round_code(quotients[i]));
        } else {
            values.push(0);
        }
        i = i + 1;
    }
    values
}

fn kept_scales(magnitudes: &[u32], scales: &[u32]) -> (kept: Vec<u32>)
    requires
        magnitudes@.len() == scales@.len(),
    ensures
        kept@.len() == scales@.len(),
        forall|i: int|
            0 <= i < kept@.len() ==> #[trigger] kept@[i] == if binary32::is_positive(
                magnitudes@[i],
            ) {
                scales@[i]
            } else {
                0
            },
{
    let n: usize = scales.len();
    let mut kept: Vec<u32> = Vec::with_capacity(n);
    let mut i: usize = 0;
    while i < n
        invariant
            i <= n == scales@.len(),
            magnitudes@.len() == scales@.len(),
            kept@.len() == i,
            forall|k: int|
                0 <= k < i ==> #[trigger] kept@[k] == if binary32::is_positive(magnitudes@[k]) {
                    scales@[k]
                } else {
                    0
                },
        decreases n - i,
    {
        if binary32::positive(magnitudes[i]) {
            kept.push(scales[i]);
        } else {
            kept.push(0);
        }
        i = i + 1;
    }
    kept
}

fn row_total(row: &[i8]) -> (t: i32)
    requires
        row@.len() <= MAX_DIM,
        model::symmetric(row@),
    ensures
        t == model::row_sum(row@),
{
    let n: usize = row.len();
    let mut t: i32 = 0;
    let mut d: usize = 0;
    while d < n
        invariant
            d <= n == row@.len(),
            n <= MAX_DIM,
            model::symmetric(row@),
            t == sums::sum(d as int, model::codes_of(row@)),
        decreases n - d,
    {
        proof {
            model::lemma_row_bounds(row@, Seq::empty(), d as int);
        }
        t = t + row[d] as i32;
        d = d + 1;
    }
    t
}

fn row_totals(values: &[i8], dim: usize, nq: usize) -> (totals: Vec<i32>)
    requires
        0 < dim <= MAX_DIM,
        values@.len() == nq * dim,
        model::symmetric(values@),
    ensures
        totals@.len() == nq,
        forall|qi: int|
            0 <= qi < nq ==> #[trigger] totals@[qi] == model::row_sum(
                model::chunk(values@, dim as int, qi),
            ),
{
    let mut totals: Vec<i32> = Vec::with_capacity(nq);
    let mut qi: usize = 0;
    while qi < nq
        invariant
            qi <= nq,
            0 < dim <= MAX_DIM,
            values@.len() == nq * dim,
            model::symmetric(values@),
            totals@.len() == qi,
            forall|k: int|
                0 <= k < qi ==> #[trigger] totals@[k] == model::row_sum(
                    model::chunk(values@, dim as int, k),
                ),
        decreases nq - qi,
    {
        let row: &[i8] = row_slice(values, dim, qi, nq);
        proof {
            model::lemma_chunk_fits(nq as int, dim as int, qi as int);
            assert(model::symmetric(row@)) by {
                assert forall|i: int| 0 <= i < row@.len() implies -127 <= #[trigger] row@[i]
                    <= 127 by {
                    assert(row@[i] == values@[qi * dim + i]);
                }
            }
        }
        totals.push(row_total(row));
        qi = qi + 1;
    }
    totals
}

/// The code that place `i` of the plane-major order holds is one of `n`.
pub proof fn lemma_plane_source(i: int, n: int)
    requires
        0 <= i < n,
        n % 128 == 0,
    ensures
        0 <= (i / 128) * 128,
        0 <= (i % 16) * 8 + (i % 128) / 16 < 128,
        (i / 128) * 128 + 128 <= n,
{
}

/// The place of the code that place `i` of the plane-major order holds.
fn plane_source(i: usize, n: usize) -> (at: usize)
    requires
        i < n,
        n % 128 == 0,
    ensures
        at == (i as int / 128) * 128 + (i as int % 16) * 8 + (i as int % 128) / 16,
        at < n,
{
    proof {
        lemma_plane_source(i as int, n as int);
    }
    (i / 128) * 128 + (i % 16) * 8 + (i % 128) / 16
}

fn plane_major(values: &[i8]) -> (planes: Vec<i8>)
    requires
        values@.len() % 128 == 0,
    ensures
        is_plane_major(values@, planes@),
{
    let n: usize = values.len();
    let mut planes: Vec<i8> = Vec::with_capacity(n);
    let mut i: usize = 0;
    while i < n
        invariant
            i <= n == values@.len(),
            n % 128 == 0,
            planes@.len() == i,
            forall|k: int|
                0 <= k < i ==> #[trigger] planes@[k] == values@[(k / 128) * 128 + (k % 16) * 8 + (k
                    % 128) / 16],
        decreases n - i,
    {
        let at: usize = plane_source(i, n);
        planes.push(values[at]);
        i = i + 1;
    }
    planes
}

/// The plane byte that place `i` of the pair-major order holds is one of those
/// of `count` rows.
pub proof fn lemma_pair_source(i: int, count: int)
    requires
        0 < count,
        0 <= i < ((count + 1) / 2) * 256,
    ensures
        0 <= paired_row(count, i / 256, (i % 16) / 8) < count,
        0 <= ((i % 256) / 16) * 8 + i % 8 < 128,
{
}

fn pair_major(planes: &[i8], nq: usize) -> (pairs: Vec<i8>)
    requires
        nq > 0,
        planes@.len() == nq * 128,
        planes@.len() + 128 <= usize::MAX,
    ensures
        is_pair_major(nq as int, planes@, pairs@),
{
    let n: usize = ((nq + 1) / 2) * 256;
    let mut pairs: Vec<i8> = Vec::with_capacity(n);
    let mut i: usize = 0;
    while i < n
        invariant
            nq > 0,
            planes@.len() == nq * 128,
            i <= n == ((nq + 1) / 2) * 256,
            pairs@.len() == i,
            forall|k: int|
                0 <= k < i ==> #[trigger] pairs@[k] == planes@[paired_row(
                    nq as int,
                    k / 256,
                    (k % 16) / 8,
                ) * 128 + ((k % 256) / 16) * 8 + k % 8],
        decreases n - i,
    {
        proof {
            lemma_pair_source(i as int, nq as int);
        }
        let pair: usize = i / 256;
        let half: usize = (i % 16) / 8;
        let row: usize = if 2 * pair + half < nq {
            2 * pair + half
        } else {
            nq - 1
        };
        let at: usize = row * 128 + ((i % 256) / 16) * 8 + i % 8;
        pairs.push(planes[at]);
        i = i + 1;
    }
    pairs
}

fn biased_codes(values: &[i8]) -> (biased: Vec<u8>)
    ensures
        is_biased(values@, biased@),
{
    let n: usize = values.len();
    let mut biased: Vec<u8> = Vec::with_capacity(n);
    let mut i: usize = 0;
    while i < n
        invariant
            i <= n == values@.len(),
            biased@.len() == i,
            forall|k: int| 0 <= k < i ==> #[trigger] biased@[k] == values@[k] + 128,
        decreases n - i,
    {
        let x: i8 = values[i];
        assert(((x as u8) ^ 0x80u8) == x + 128) by (bit_vector);
        biased.push((x as u8) ^ 0x80u8);
        i = i + 1;
    }
    biased
}

/// The code that place `i` of the even-then-odd order holds is one of `n`.
pub proof fn lemma_even_odd_source(i: int, n: int)
    requires
        0 <= i < n,
        n % 64 == 0,
    ensures
        0 <= (i / 64) * 64,
        0 <= 2 * (i % 32) + (i % 64) / 32 < 64,
        (i / 64) * 64 + 64 <= n,
{
}

/// The place of the code that place `i` of the even-then-odd order holds.
fn even_odd_source(i: usize, n: usize) -> (at: usize)
    requires
        i < n,
        n % 128 == 0,
    ensures
        at == (i as int / 64) * 64 + 2 * (i as int % 32) + (i as int % 64) / 32,
        at < n,
{
    proof {
        lemma_even_odd_source(i as int, n as int);
    }
    (i / 64) * 64 + 2 * (i % 32) + (i % 64) / 32
}

fn even_odd(values: &[i8]) -> (perm: Vec<i8>)
    requires
        values@.len() % 128 == 0,
    ensures
        is_even_odd(values@, perm@),
{
    let n: usize = values.len();
    let mut perm: Vec<i8> = Vec::with_capacity(n);
    let mut i: usize = 0;
    while i < n
        invariant
            i <= n == values@.len(),
            n % 128 == 0,
            perm@.len() == i,
            forall|k: int|
                0 <= k < i ==> #[trigger] perm@[k] == values@[(k / 64) * 64 + 2 * (k % 32) + (k
                    % 64) / 32],
        decreases n - i,
    {
        let at: usize = even_odd_source(i, n);
        perm.push(values[at]);
        i = i + 1;
    }
    perm
}

fn absolute_codes(codes: &[i8]) -> (abs: Vec<u8>)
    ensures
        is_abs(codes@, abs@),
{
    let n: usize = codes.len();
    let mut abs: Vec<u8> = Vec::with_capacity(n);
    let mut i: usize = 0;
    while i < n
        invariant
            i <= n == codes@.len(),
            abs@.len() == i,
            forall|k: int|
                0 <= k < i ==> #[trigger] abs@[k] == if codes@[k] < 0 {
                    -codes@[k]
                } else {
                    codes@[k] as int
                },
        decreases n - i,
    {
        let x: i16 = codes[i] as i16;
        if x < 0 {
            abs.push((-x) as u8);
        } else {
            abs.push(x as u8);
        }
        i = i + 1;
    }
    abs
}

/// Quantizes a query to integer codes with one scale per row, and lays the
/// codes out for every kernel.
///
/// `magnitudes` is what [`row_magnitudes`] gives of the query; `scales` is each
/// magnitude divided by 127, and `quotients` each entry divided by its row's
/// scale, all as binary32 patterns. A code is its quotient rounded half to
/// even; a row without a positive magnitude has zero codes and a zero scale.
pub fn quantize_query_i8(
    magnitudes: &[u32],
    scales: &[u32],
    quotients: &[u32],
    dim: usize,
) -> (q: QueryI8)
    requires
        0 < dim <= MAX_DIM,
        dim % 8 == 0,
        magnitudes@.len() > 0,
        scales@.len() == magnitudes@.len(),
        quotients@.len() == magnitudes@.len() * dim,
        dim == 128 ==> quotients@.len() + 128 <= usize::MAX,
    ensures
        q.wf(),
        q.is_quantized(magnitudes@, scales@, quotients@, dim as int),
{
    let nq: usize = magnitudes.len();
    let values: Vec<i8> = quantize_codes(magnitudes, quotients, dim);
    let kept: Vec<u32> = kept_scales(magnitudes, scales);
    let sums: Vec<i32> = row_totals(values.as_slice(), dim, nq);
    let biased: Vec<u8> = biased_codes(values.as_slice());
    let mut planes: Vec<i8> = Vec::new();
    let mut planes_smmla: Vec<i8> = Vec::new();
    let mut perm4: Vec<i8> = Vec::new();
    let mut absq4: Vec<u8> = Vec::new();
    if dim == 128 {
        planes = plane_major(values.as_slice());
        planes_smmla = pair_major(planes.as_slice(), nq);
        perm4 = even_odd(values.as_slice());
        absq4 = absolute_codes(perm4.as_slice());
    }
    QueryI8 { dim, values, scales: kept, sums, planes, planes_smmla, biased, perm4, absq4 }
}

} // verus!
