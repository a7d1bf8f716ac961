//! Choosing a kernel by what the processor can run.

use crate::neon;
use crate::query::QueryI8;
use crate::residual;
use crate::residual::LutI8;
use crate::residual::ResidualTerms;
use crate::scalar;
use crate::x86;
use vstd::prelude::*;

verus! {

/// The processor features that a fused kernel needs, as found at run time.
#[derive(Clone, Copy, Debug, PartialEq, Eq)]
pub struct CpuFeatures {
    /// The `SDOT` instruction of aarch64.
    pub dotprod: bool,
    /// The `SMMLA` instruction of aarch64.
    pub i8mm: bool,
    /// The 256-bit integer instructions of x86_64.
    pub avx2: bool,
}

/// The `SDOT` kernel where the processor has it and the query has 128
/// dimensions.
pub fn maxsim_sdot(q: &QueryI8, bits: &[u8], dim: usize, cpu: CpuFeatures) -> (best: Option<
    Vec<i32>,
>)
    requires
        q.wf(),
        dim == q.dim,
    ensures
        best is Some <==> dim == 128 && cpu.dotprod,
        best is Some ==> q.is_maxsim(bits@, best->0@),
{
    proof {
        q.lemma_row(0);
    }
    if dim == 128 && q.planes.len() > 0 && cpu.dotprod {
        Some(neon::maxsim_neon128(q, bits))
    } else {
        None
    }
}

/// The `SMMLA` kernel where the processor has it and the query has 128
/// dimensions.
pub fn maxsim_smmla(q: &QueryI8, bits: &[u8], dim: usize, cpu: CpuFeatures) -> (best: Option<
    Vec<i32>,
>)
    requires
        q.wf(),
        dim == q.dim,
    ensures
        best is Some <==> dim == 128 && cpu.i8mm,
        best is Some ==> q.is_maxsim(bits@, best->0@),
{
    proof {
        q.lemma_row(0);
    }
    if dim == 128 && q.planes_smmla.len() > 0 && cpu.i8mm {
        Some(neon::maxsim_smmla128(q, bits))
    } else {
        None
    }
}

/// The AVX2 kernel where the processor has it and the query has 128
/// dimensions.
pub fn maxsim_avx2(q: &QueryI8, bits: &[u8], dim: usize, cpu: CpuFeatures) -> (best: Option<
    Vec<i32>,
>)
    requires
        q.wf(),
        dim == q.dim,
    ensures
        best is Some <==> dim == 128 && cpu.avx2,
        best is Some ==> q.is_maxsim(bits@, best->0@),
{
    proof {
        q.lemma_row(0);
    }
    if dim == 128 && q.biased.len() > 0 && cpu.avx2 {
        Some(x86::maxsim_avx2_sad128(q, bits))
    } else {
        None
    }
}

/// Best dot product of each query row with a token of a packed binary
/// document, by the best kernel that the processor can run: `SDOT` where it
/// exists, AVX2 where that exists, the portable kernel elsewhere. Every choice
/// gives the same result.
pub fn maxsim(q: &QueryI8, bits: &[u8], dim: usize, cpu: CpuFeatures) -> (best: Vec<i32>)
    requires
        q.wf(),
        dim == q.dim,
    ensures
        q.is_maxsim(bits@, best@),
{
    match maxsim_sdot(q, bits, dim, cpu) {
        Some(best) => best,
        None => match maxsim_avx2(q, bits, dim, cpu) {
            Some(best) => best,
            None => scalar::maxsim_autovec(q, bits, dim),
        },
    }
}

/// The fused residual kernel that the processor can run, where the query has
/// 128 dimensions.
pub fn maxsim_r4_fused(
    q: &QueryI8,
    lut: &LutI8,
    codes: &[u8],
    cids: &[u32],
    cdot_t: &[u32],
    cpu: CpuFeatures,
) -> (terms: Option<ResidualTerms>)
    requires
        residual::residual_ready(q, lut, codes@, cids@, cdot_t@),
    ensures
        terms is Some <==> q.dim == 128 && (cpu.dotprod || cpu.avx2),
        terms is Some ==> (terms->0).is_residual(q, lut.values@, lut.scale, codes@, cids@, cdot_t@),
{
    proof {
        q.lemma_row(0);
    }
    if q.dim == 128 && q.perm4.len() > 0 && cpu.dotprod {
        return Some(neon::maxsim_r4_neon128(q, lut, codes, cids, cdot_t));
    }
    if q.dim == 128 && q.perm4.len() > 0 && cpu.avx2 {
        return Some(x86::maxsim_r4_avx2_128(q, lut, codes, cids, cdot_t));
    }
    None
}

/// Terms of a residual document, by the fused kernel where there is one and
/// the reference elsewhere. Either gives the same result.
pub fn maxsim_r4(
    q: &QueryI8,
    lut: &LutI8,
    codes: &[u8],
    cids: &[u32],
    cdot_t: &[u32],
    cpu: CpuFeatures,
) -> (terms: ResidualTerms)
    requires
        residual::residual_ready(q, lut, codes@, cids@, cdot_t@),
    ensures
        terms.is_residual(q, lut.values@, lut.scale, codes@, cids@, cdot_t@),
{
    match maxsim_r4_fused(q, lut, codes, cids, cdot_t, cpu) {
        Some(terms) => terms,
        None => residual::maxsim_r4_scalar(q, lut, codes, cids, cdot_t),
    }
}

} // verus!
