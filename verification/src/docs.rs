//! Scoring many documents of one query: what is asked of the arrays that hold
//! them, and the cut into documents.

use crate::dispatch;
use crate::dispatch::CpuFeatures;
use crate::model;
use crate::query::QueryI8;
use crate::residual;
use crate::residual::LutI8;
use crate::residual::ResidualTerms;
use crate::sums;
use vstd::prelude::*;

verus! {

/// Why a batch of documents cannot be scored.
#[derive(Clone, Copy, Debug, PartialEq, Eq)]
pub enum DocsError {
    /// The dimension is zero or not a multiple of eight.
    Dim,
    /// The query has no rows.
    EmptyQuery,
    /// A packed row does not have one bit for each dimension.
    PayloadColumns,
    /// A packed row does not have one index for each dimension.
    CodesColumns,
    /// A centroid row does not have one term for each query row.
    CentroidColumns,
    /// The decode table does not have sixteen entries.
    LutEntries,
    /// The query is not laid out row by row.
    QueryLayout,
    /// The packed rows are not laid out one by one.
    PayloadLayout,
    /// The packed indices are not laid out row by row.
    CodesLayout,
    /// The centroid ids are not laid out one by one.
    CidsLayout,
    /// The centroid terms are not laid out row by row.
    CentroidLayout,
    /// The document lengths are not laid out one by one.
    LensLayout,
    /// The decode table is not laid out entry by entry.
    LutLayout,
    /// A document length is not positive.
    EmptyDoc,
    /// There are not as many packed rows as document tokens.
    PayloadRows,
    /// There are not as many rows of indices or centroid ids as document tokens.
    CodesRows,
    /// A centroid id has no row of terms.
    CentroidId,
    /// A table entry is -128.
    LutRange,
}

impl DocsError {
    /// The text of the message.
    pub open spec fn text(&self) -> Seq<char> {
        match self {
            DocsError::Dim => "dim must be a positive multiple of 8"@,
            DocsError::EmptyQuery => "query must have at least one token"@,
            DocsError::PayloadColumns => "payload column count must equal dim/8"@,
            DocsError::CodesColumns => "codes column count must equal dim/2 (nbits = 4)"@,
            DocsError::CentroidColumns =>
                "cdot_t must be [n_centroids, nq] (the transposed centroid matrix)"@,
            DocsError::LutEntries => "lut_values must have 16 entries"@,
            DocsError::QueryLayout => "query must be C-contiguous"@,
            DocsError::PayloadLayout => "payload must be C-contiguous"@,
            DocsError::CodesLayout => "codes must be C-contiguous"@,
            DocsError::CidsLayout => "cids must be C-contiguous"@,
            DocsError::CentroidLayout => "cdot_t must be C-contiguous"@,
            DocsError::LensLayout => "lens must be C-contiguous"@,
            DocsError::LutLayout => "lut_values must be C-contiguous"@,
            DocsError::EmptyDoc => "every doc length must be positive"@,
            DocsError::PayloadRows => "payload rows must equal sum(lens)"@,
            DocsError::CodesRows => "codes/cids rows must equal sum(lens)"@,
            DocsError::CentroidId => "centroid id out of range for cdot_t"@,
            DocsError::LutRange => "lut values must be in [-127, 127] (quantize_lut clips)"@,
        }
    }

    /// The message to show.
    pub fn message(&self) -> (m: &'static str)
        ensures
            m@ == self.text(),
    {
        match self {
            DocsError::Dim => "dim must be a positive multiple of 8",
            DocsError::EmptyQuery => "query must have at least one token",
            DocsError::PayloadColumns => "payload column count must equal dim/8",
            DocsError::CodesColumns => "codes column count must equal dim/2 (nbits = 4)",
            DocsError::CentroidColumns =>
                "cdot_t must be [n_centroids, nq] (the transposed centroid matrix)",
            DocsError::LutEntries => "lut_values must have 16 entries",
            DocsError::QueryLayout => "query must be C-contiguous",
            DocsError::PayloadLayout => "payload must be C-contiguous",
            DocsError::CodesLayout => "codes must be C-contiguous",
            DocsError::CidsLayout => "cids must be C-contiguous",
            DocsError::CentroidLayout => "cdot_t must be C-contiguous",
            DocsError::LensLayout => "lens must be C-contiguous",
            DocsError::LutLayout => "lut_values must be C-contiguous",
            DocsError::EmptyDoc => "every doc length must be positive",
            DocsError::PayloadRows => "payload rows must equal sum(lens)",
            DocsError::CodesRows => "codes/cids rows must equal sum(lens)",
            DocsError::CentroidId => "centroid id out of range for cdot_t",
            DocsError::LutRange => "lut values must be in [-127, 127] (quantize_lut clips)",
        }
    }
}

/// The shapes of the arrays of a binary batch, and whether each is laid out in
/// row-major order without gaps.
pub struct BinaryShapes {
    pub nq: usize,
    pub dim: usize,
    pub payload_columns: usize,
    pub query_contiguous: bool,
    pub payload_contiguous: bool,
    pub lens_contiguous: bool,
}

impl BinaryShapes {
    /// What is wrong with the shapes, if anything: the first fault in order.
    pub open spec fn fault(&self) -> Option<DocsError> {
        if self.dim == 0 || self.dim % 8 != 0 {
            Some(DocsError::Dim)
        } else if self.nq == 0 {
            Some(DocsError::EmptyQuery)
        } else if self.payload_columns != self.dim / 8 {
            Some(DocsError::PayloadColumns)
        } else if !self.query_contiguous {
            Some(DocsError::QueryLayout)
        } else if !self.payload_contiguous {
            Some(DocsError::PayloadLayout)
        } else if !self.lens_contiguous {
            Some(DocsError::LensLayout)
        } else {
            None
        }
    }

    /// Accepts the shapes, or says what is wrong with them.
    pub fn check(&self) -> (r: Result<(), DocsError>)
        ensures
            r is Ok <==> self.fault() is None,
            r is Err ==> self.fault() == Some(r->Err_0),
    {
        if self.dim == 0 || self.dim % 8 != 0 {
            return Err(DocsError::Dim);
        }
        if self.nq == 0 {
            return Err(DocsError::EmptyQuery);
        }
        if self.payload_columns != self.dim / 8 {
            return Err(DocsError::PayloadColumns);
        }
        if !self.query_contiguous {
            return Err(DocsError::QueryLayout);
        }
        if !self.payload_contiguous {
            return Err(DocsError::PayloadLayout);
        }
        if !self.lens_contiguous {
            return Err(DocsError::LensLayout);
        }
        Ok(())
    }
}

/// The shapes of the arrays of a residual batch, and whether each is laid out
/// in row-major order without gaps.
pub struct ResidualShapes {
    pub nq: usize,
    pub dim: usize,
    pub codes_columns: usize,
    pub cdot_columns: usize,
    pub lut_entries: usize,
    pub query_contiguous: bool,
    pub codes_contiguous: bool,
    pub cids_contiguous: bool,
    pub cdot_contiguous: bool,
    pub lens_contiguous: bool,
    pub lut_contiguous: bool,
}

impl ResidualShapes {
    /// What is wrong with the shapes, if anything: the first fault in order.
    pub open spec fn fault(&self) -> Option<DocsError> {
        if self.dim == 0 || self.dim % 8 != 0 {
            Some(DocsError::Dim)
        } else if self.nq == 0 {
            Some(DocsError::EmptyQuery)
        } else if self.codes_columns != self.dim / 2 {
            Some(DocsError::CodesColumns)
        } else if self.cdot_columns != self.nq {
            Some(DocsError::CentroidColumns)
        } else if self.lut_entries != 16 {
            Some(DocsError::LutEntries)
        } else if !self.query_contiguous {
            Some(DocsError::QueryLayout)
        } else if !self.codes_contiguous {
            Some(DocsError::CodesLayout)
        } else if !self.cids_contiguous {
            Some(DocsError::CidsLayout)
        } else if !self.cdot_contiguous {
            Some(DocsError::CentroidLayout)
        } else if !self.lens_contiguous {
            Some(DocsError::LensLayout)
        } else if !self.lut_contiguous {
            Some(DocsError::LutLayout)
        } else {
            None
        }
    }

    /// Accepts the shapes, or says what is wrong with them.
    pub fn check(&self) -> (r: Result<(), DocsError>)
        ensures
            r is Ok <==> self.fault() is None,
            r is Err ==> self.fault() == Some(r->Err_0),
    {
        if self.dim == 0 || self.dim % 8 != 0 {
            return Err(DocsError::Dim);
        }
        if self.nq == 0 {
            return Err(DocsError::EmptyQuery);
        }
        if self.codes_columns != self.dim / 2 {
            return Err(DocsError::CodesColumns);
        }
        if self.cdot_columns != self.nq {
            return Err(DocsError::CentroidColumns);
        }
        if self.lut_entries != 16 {
            return Err(DocsError::LutEntries);
        }
        if !self.query_contiguous {
            return Err(DocsError::QueryLayout);
        }
        if !self.codes_contiguous {
            return Err(DocsError::CodesLayout);
        }
        if !self.cids_contiguous {
            return Err(DocsError::CidsLayout);
        }
        if !self.cdot_contiguous {
            return Err(DocsError::CentroidLayout);
        }
        if !self.lens_contiguous {
            return Err(DocsError::LensLayout);
        }
        if !self.lut_contiguous {
            return Err(DocsError::LutLayout);
        }
        Ok(())
    }
}

/// Document lengths, as terms of a sum.
pub open spec fn lens_of(lens: Seq<i64>) -> spec_fn(int) -> int {
    |i: int| lens[i] as int
}

/// The first row of document `i`: the rows of the documents before it.
pub open spec fn first_row(lens: Seq<i64>, i: int) -> int {
    sums::sum(i, lens_of(lens))
}

/// The rows of all documents.
pub open spec fn total_rows(lens: Seq<i64>) -> int {
    first_row(lens, lens.len() as int)
}

/// The part of a flat array, of rows of length `n`, that is document `i`'s.
pub open spec fn doc_part<T>(s: Seq<T>, n: int, lens: Seq<i64>, i: int) -> Seq<T> {
    s.subrange(first_row(lens, i) * n, first_row(lens, i + 1) * n)
}

/// Some document has no tokens.
pub open spec fn has_empty_doc(lens: Seq<i64>) -> bool {
    exists|i: int| 0 <= i < lens.len() && #[trigger] lens[i] <= 0
}

/// What is wrong with the rows of a binary batch, if anything.
pub open spec fn binary_rows_fault(lens: Seq<i64>, pd: int, len: int) -> Option<DocsError> {
    if has_empty_doc(lens) {
        Some(DocsError::EmptyDoc)
    } else if total_rows(lens) * pd != len {
        Some(DocsError::PayloadRows)
    } else {
        None
    }
}

/// What is wrong with the rows of a residual batch, if anything.
pub open spec fn residual_rows_fault(
    lens: Seq<i64>,
    pd: int,
    codes_len: int,
    cids: Seq<u32>,
    n_centroids: int,
    weights: Seq<i8>,
) -> Option<DocsError> {
    if has_empty_doc(lens) {
        Some(DocsError::EmptyDoc)
    } else if total_rows(lens) * pd != codes_len || total_rows(lens) != cids.len() {
        Some(DocsError::CodesRows)
    } else if exists|d: int| 0 <= d < cids.len() && #[trigger] cids[d] >= n_centroids {
        Some(DocsError::CentroidId)
    } else if exists|k: int| 0 <= k < weights.len() && #[trigger] weights[k] == -128 {
        Some(DocsError::LutRange)
    } else {
        None
    }
}

/// `out` holds the best scores of each document of a binary batch.
pub open spec fn is_binary_batch(
    q: &QueryI8,
    payload: Seq<u8>,
    lens: Seq<i64>,
    out: Seq<Vec<i32>>,
) -> bool {
    &&& out.len() == lens.len()
    &&& forall|i: int|
        0 <= i < lens.len() ==> q.is_maxsim(
            doc_part(payload, q.dim as int / 8, lens, i),
            #[trigger] out[i]@,
        )
}

/// `out` holds the terms of each document of a residual batch.
pub open spec fn is_residual_batch(
    q: &QueryI8,
    weights: Seq<i8>,
    lut_scale: u32,
    codes: Seq<u8>,
    cids: Seq<u32>,
    cdot_t: Seq<u32>,
    lens: Seq<i64>,
    out: Seq<ResidualTerms>,
) -> bool {
    &&& out.len() == lens.len()
    &&& forall|i: int|
        0 <= i < lens.len() ==> (#[trigger] out[i]).is_residual(
            q,
            weights,
            lut_scale,
            doc_part(codes, q.dim as int / 2, lens, i),
            doc_part(cids, 1, lens, i),
            cdot_t,
        )
}

/// The rows of all documents, unless one has none.
fn count_rows(lens: &[i64]) -> (total: Option<u128>)
    ensures
        total is None <==> has_empty_doc(lens@),
        total is Some ==> total->0 == total_rows(lens@),
{
    let n: usize = lens.len();
    let mut total: u128 = 0;
    let mut i: usize = 0;
    while i < n
        invariant
            i <= n == lens@.len(),
            total == first_row(lens@, i as int),
            total <= i * 0x7fff_ffff_ffff_ffff,
            forall|k: int| 0 <= k < i ==> #[trigger] lens@[k] > 0,
        decreases n - i,
    {
        let x: i64 = lens[i];
        if x <= 0 {
            assert(lens@[i as int] <= 0);
            return None;
        }
        assert(total + x <= u128::MAX) by {
            assert(i * 0x7fff_ffff_ffff_ffff <= 0xffff_ffff_ffff_ffff * 0x7fff_ffff_ffff_ffff)
                by (nonlinear_arith)
                requires
                    0 <= i <= 0xffff_ffff_ffff_ffff,
            ;
        }
        total = total + x as u128;
        i = i + 1;
    }
    Some(total)
}

/// Whether `total` rows of length `n` fill an array of `len` items.
fn rows_fill(total: u128, n: usize, len: usize) -> (r: bool)
    requires
        n > 0,
    ensures
        r == (total * n == len),
{
    proof {
        let q = len as int / n as int;
        vstd::arithmetic::div_mod::lemma_fundamental_div_mod(len as int, n as int);
        assert(n * q == q * n) by (nonlinear_arith);
        if total * n == len {
            assert(n * total == total * n) by (nonlinear_arith);
            vstd::arithmetic::div_mod::lemma_fundamental_div_mod_converse(
                len as int,
                n as int,
                total as int,
                0,
            );
        }
    }
    len % n == 0 && total == (len / n) as u128
}

/// The rows before document `i` and its own lie within the rows of all.
pub proof fn lemma_doc_rows(lens: Seq<i64>, i: int)
    requires
        !has_empty_doc(lens),
        0 <= i < lens.len(),
    ensures
        0 <= first_row(lens, i),
        first_row(lens, i + 1) == first_row(lens, i) + lens[i],
        0 < lens[i],
        first_row(lens, i + 1) <= total_rows(lens),
    decreases lens.len() - i,
{
    lemma_first_row_nonnegative(lens, i);
    assert(lens[i] > 0);
    if i + 1 < lens.len() {
        lemma_doc_rows(lens, i + 1);
    }
}

proof fn lemma_first_row_nonnegative(lens: Seq<i64>, i: int)
    requires
        !has_empty_doc(lens),
        0 <= i <= lens.len(),
    ensures
        0 <= first_row(lens, i),
    decreases i,
{
    if i > 0 {
        lemma_first_row_nonnegative(lens, i - 1);
        assert(lens[i - 1] > 0);
    }
}

/// Document `i`'s part of an array of `total` rows of length `n`.
pub proof fn lemma_doc_part(lens: Seq<i64>, i: int, n: int)
    requires
        !has_empty_doc(lens),
        0 <= i < lens.len(),
        0 <= n,
    ensures
        0 <= first_row(lens, i) * n,
        first_row(lens, i) * n + lens[i] * n == first_row(lens, i + 1) * n,
        first_row(lens, i + 1) * n <= total_rows(lens) * n,
{
    lemma_doc_rows(lens, i);
    let a = first_row(lens, i);
    let b = lens[i] as int;
    let t = total_rows(lens);
    assert(0 <= a * n) by (nonlinear_arith)
        requires
            0 <= a,
            0 <= n,
    ;
    assert((a + b) * n == a * n + b * n) by (nonlinear_arith);
    assert((a + b) * n <= t * n) by (nonlinear_arith)
        requires
            a + b <= t,
            0 <= n,
    ;
}

/// Document `i`'s part of an array of rows of length `n`.
fn doc_slice<'a, T>(
    s: &'a [T],
    n: usize,
    off: usize,
    count: usize,
    Ghost(lens): Ghost<Seq<i64>>,
    Ghost(i): Ghost<int>,
) -> (part: &'a [T])
    requires
        !has_empty_doc(lens),
        0 <= i < lens.len(),
        off == first_row(lens, i),
        count == lens[i],
        s@.len() == total_rows(lens) * n,
    ensures
        part@ == doc_part(s@, n as int, lens, i),
        part@.len() == count * n,
{
    proof {
        lemma_doc_part(lens, i, n as int);
        lemma_doc_rows(lens, i);
        assert(s@.len() == s.len());
        assert((off + count) * n == first_row(lens, i + 1) * n);
    }
    vstd::slice::slice_subrange(s, off * n, off * n + count * n)
}

/// For each document of a binary batch, the best dot product of each query row
/// with one of its tokens.
pub fn maxsim_docs(
    q: &QueryI8,
    payload: &[u8],
    lens: &[i64],
    cpu: CpuFeatures,
) -> (r: Result<Vec<Vec<i32>>, DocsError>)
    requires
        q.wf(),
    ensures
        r is Ok <==> binary_rows_fault(lens@, q.dim as int / 8, payload@.len() as int) is None,
        r is Err ==> binary_rows_fault(lens@, q.dim as int / 8, payload@.len() as int) == Some(
            r->Err_0,
        ),
        r is Ok ==> is_binary_batch(q, payload@, lens@, r->Ok_0@),
{
    let dim: usize = q.dim;
    let pd: usize = dim / 8;
    let total: u128 = match count_rows(lens) {
        Some(total) => total,
        None => {
            return Err(DocsError::EmptyDoc);
        },
    };
    if !rows_fill(total, pd, payload.len()) {
        return Err(DocsError::PayloadRows);
    }
    let n_docs: usize = lens.len();
    let mut out: Vec<Vec<i32>> = Vec::with_capacity(n_docs);
    let mut off: usize = 0;
    let mut i: usize = 0;
    proof {
        lemma_rows_fit(total_rows(lens@), pd as int, payload@.len() as int);
        assert(payload@.len() == payload.len());
    }
    while i < n_docs
        invariant
            q.wf(),
            dim == q.dim,
            pd == dim / 8,
            i <= n_docs == lens@.len(),
            !has_empty_doc(lens@),
            payload@.len() == total_rows(lens@) * pd,
            total_rows(lens@) <= usize::MAX,
            off == first_row(lens@, i as int),
            out@.len() == i,
            forall|k: int|
                0 <= k < i ==> q.is_maxsim(
                    doc_part(payload@, pd as int, lens@, k),
                    #[trigger] out@[k]@,
                ),
        decreases n_docs - i,
    {
        proof {
            lemma_doc_rows(lens@, i as int);
        }
        let n: usize = lens[i] as usize;
        let bits: &[u8] = doc_slice(payload, pd, off, n, Ghost(lens@), Ghost(i as int));
        out.push(dispatch::maxsim(q, bits, dim, cpu));
        off = off + n;
        i = i + 1;
    }
    Ok(out)
}

/// Rows of positive length are no more than what they fill.
proof fn lemma_rows_fit(total: int, n: int, len: int)
    requires
        total * n == len,
        0 <= len,
        0 < n,
    ensures
        total <= len,
{
    assert(total <= len) by (nonlinear_arith)
        requires
            total * n == len,
            0 <= len,
            0 < n,
    ;
}

/// Whether some centroid id is past the last of `n` centroids.
fn any_past(cids: &[u32], n: usize) -> (r: bool)
    ensures
        r == exists|d: int| 0 <= d < cids@.len() && #[trigger] cids@[d] >= n,
{
    let len: usize = cids.len();
    let mut d: usize = 0;
    while d < len
        invariant
            d <= len == cids@.len(),
            forall|k: int| 0 <= k < d ==> #[trigger] cids@[k] < n,
        decreases len - d,
    {
        if cids[d] as usize >= n {
            assert(cids@[d as int] >= n);
            return true;
        }
        d = d + 1;
    }
    false
}

/// The decode table of sixteen entries, unless one of them is -128.
fn decode_table(values: &[i8], scale: u32) -> (lut: Option<LutI8>)
    requires
        values@.len() == 16,
    ensures
        lut is None <==> exists|k: int| 0 <= k < values@.len() && #[trigger] values@[k] == -128,
        lut is Some ==> (lut->0).wf() && (lut->0).values@ == values@ && (lut->0).scale == scale,
{
    let mut table: [i8; 16] = [0i8;16];
    let mut k: usize = 0;
    while k < 16
        invariant
            k <= 16,
            values@.len() == 16,
            forall|j: int| 0 <= j < k ==> #[trigger] table@[j] == values@[j],
            forall|j: int| 0 <= j < k ==> -127 <= #[trigger] values@[j],
        decreases 16 - k,
    {
        if values[k] == -128 {
            assert(values@[k as int] == -128);
            return None;
        }
        table[k] = values[k];
        k = k + 1;
    }
    assert(table@ =~= values@);
    Some(LutI8 { values: table, scale })
}

/// For each document of a residual batch, the terms of the score of each of its
/// tokens against each query row.
///
/// `cdot_t` holds `n_centroids` rows of `nq` centroid terms; `lut_values` the
/// sixteen entries of the decode table, whose scale comes back with the terms.
pub fn maxsim_docs_r4(
    q: &QueryI8,
    codes: &[u8],
    cids: &[u32],
    cdot_t: &[u32],
    n_centroids: usize,
    lens: &[i64],
    lut_values: &[i8],
    lut_scale: u32,
    cpu: CpuFeatures,
) -> (r: Result<Vec<ResidualTerms>, DocsError>)
    requires
        q.wf(),
        q.dim <= residual::MAX_RESIDUAL_DIM,
        cdot_t@.len() == n_centroids * q.nq(),
        lut_values@.len() == 16,
        cids@.len() * q.nq() <= usize::MAX,
    ensures
        r is Ok <==> residual_rows_fault(
            lens@,
            q.dim as int / 2,
            codes@.len() as int,
            cids@,
            n_centroids as int,
            lut_values@,
        ) is None,
        r is Err ==> residual_rows_fault(
            lens@,
            q.dim as int / 2,
            codes@.len() as int,
            cids@,
            n_centroids as int,
            lut_values@,
        ) == Some(r->Err_0),
        r is Ok ==> is_residual_batch(
            q,
            lut_values@,
            lut_scale,
            codes@,
            cids@,
            cdot_t@,
            lens@,
            r->Ok_0@,
        ),
{
    let pd: usize = q.dim / 2;
    let total: u128 = match count_rows(lens) {
        Some(total) => total,
        None => {
            return Err(DocsError::EmptyDoc);
        },
    };
    if !rows_fill(total, pd, codes.len()) || total != cids.len() as u128 {
        return Err(DocsError::CodesRows);
    }
    if any_past(cids, n_centroids) {
        return Err(DocsError::CentroidId);
    }
    let lut: LutI8 = match decode_table(lut_values, lut_scale) {
        Some(lut) => lut,
        None => {
            return Err(DocsError::LutRange);
        },
    };
    let n_docs: usize = lens.len();
    let mut out: Vec<ResidualTerms> = Vec::with_capacity(n_docs);
    let mut off: usize = 0;
    let mut i: usize = 0;
    while i < n_docs
        invariant
            q.wf(),
            q.dim <= residual::MAX_RESIDUAL_DIM,
            pd == q.dim / 2,
            lut.wf(),
            lut.values@ == lut_values@,
            lut.scale == lut_scale,
            cdot_t@.len() == n_centroids * q.nq(),
            cids@.len() * q.nq() <= usize::MAX,
            i <= n_docs == lens@.len(),
            !has_empty_doc(lens@),
            codes@.len() == total_rows(lens@) * pd,
            cids@.len() == total_rows(lens@),
            total_rows(lens@) <= usize::MAX,
            forall|d: int| 0 <= d < cids@.len() ==> #[trigger] cids@[d] < n_centroids,
            off == first_row(lens@, i as int),
            out@.len() == i,
            forall|k: int|
                0 <= k < i ==> (#[trigger] out@[k]).is_residual(
                    q,
                    lut_values@,
                    lut_scale,
                    doc_part(codes@, pd as int, lens@, k),
                    doc_part(cids@, 1, lens@, k),
                    cdot_t@,
                ),
        decreases n_docs - i,
    {
        proof {
            lemma_doc_rows(lens@, i as int);
        }
        let n: usize = lens[i] as usize;
        let tok: &[u8] = doc_slice(codes, pd, off, n, Ghost(lens@), Ghost(i as int));
        let ids: &[u32] = doc_slice(cids, 1, off, n, Ghost(lens@), Ghost(i as int));
        proof {
            let nq = q.nq();
            assert forall|d: int| 0 <= d < ids@.len() implies (#[trigger] ids@[d] + 1) * nq
                <= cdot_t@.len() by {
                let c = ids@[d] as int;
                assert(ids@[d] == cids@[first_row(lens@, i as int) + d]);
                assert((c + 1) * nq <= n_centroids * nq) by (nonlinear_arith)
                    requires
                        c + 1 <= n_centroids,
                        0 <= nq,
                ;
            }
            let all = cids@.len() as int;
            assert(n * nq <= all * nq) by (nonlinear_arith)
                requires
                    n <= all,
                    0 <= nq,
            ;
        }
        out.push(dispatch::maxsim_r4(q, &lut, tok, ids, cdot_t, cpu));
        off = off + n;
        i = i + 1;
    }
    Ok(out)
}

} // verus!
