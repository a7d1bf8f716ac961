//! Kernels for late-interaction retrieval: MaxSim of an int8 query with
//! documents compressed to sign bits or to 4-bit residual codes.
//!
//! A query is `nq` rows of `dim` integer codes, a document a list of packed
//! tokens, and `dim` a multiple of eight. Each query row finds its
//! best-matching token. The same scores come out of every kernel:
//!
//! - [`maxsim_scalar`]: the `2P - T` identity, one branch per bit;
//! - [`maxsim_autovec`]: the same sum with masks in place of branches;
//! - [`neon::maxsim_neon128`], [`neon::maxsim_smmla128`] and
//!   [`x86::maxsim_avx2_sad128`]: fused kernels for 128 dimensions, which
//!   expand each token once and score it against all rows;
//! - [`maxsim_r4_scalar`], [`neon::maxsim_r4_neon128`] and
//!   [`x86::maxsim_r4_avx2_128`]: the residual family.
//!
//! [`maxsim`] and [`maxsim_r4`] choose by what the processor can run.
//!
//! [`plain`] says in plain arithmetic what every result is, and [`calls`] what
//! every call takes and gives; [`laws`] and [`joins`] say what holds between
//! results.
//!
//! The vector instructions are written out lane by lane, in safe code.
//! Floating-point numbers are carried as their 32-bit patterns
//! ([`binary32`]): ordering and rounding them is integer work, while
//! multiplying by scales and adding up the rows is left to the caller.

mod avx2_lanes;
pub mod binary32;
pub mod calls;
pub mod dispatch;
pub mod docs;
pub mod joins;
pub mod laws;
pub mod model;
pub mod neon;
mod neon_lanes;
pub mod plain;
pub mod query;
pub mod residual;
pub mod scalar;
pub mod signs;
pub mod sums;
pub mod x86;

pub use dispatch::maxsim;
pub use dispatch::maxsim_avx2;
pub use dispatch::maxsim_r4;
pub use dispatch::maxsim_r4_fused;
pub use dispatch::maxsim_sdot;
pub use dispatch::maxsim_smmla;
pub use dispatch::CpuFeatures;
pub use docs::maxsim_docs;
pub use docs::maxsim_docs_r4;
pub use docs::BinaryShapes;
pub use docs::DocsError;
pub use docs::ResidualShapes;
pub use query::quantize_query_i8;
pub use query::row_magnitudes;
pub use query::QueryI8;
pub use residual::best_scores;
pub use residual::maxsim_r4_scalar;
pub use residual::LutI8;
pub use residual::ResidualTerms;
pub use scalar::maxsim_autovec;
pub use scalar::maxsim_scalar;
pub use signs::binarize;
pub use signs::signs_pm1;
