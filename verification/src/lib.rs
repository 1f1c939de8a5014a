//! int8 x int8 -> int32 matrix products (GEMM) in the shape of the AArch64 `SDOT` and `SMMLA`
//! instructions.
//!
//! Several implementations of the same computation, each proved to give the entries of the product
//! modulo 2^32, and so to agree with [`gemm_scalar`] on every shape:
//!
//! 1. `gemm_scalar` -- portable triple loop. The reference.
//! 2. `gemm_sdot`, `gemm_sdot_tiled` -- `SDOT`, 4 MACs per i32 lane.
//! 3. `gemm_smmla`, `gemm_smmla_blocked`, `gemm_smmla_8x8`, `gemm_smmla_8x8_u2` -- `SMMLA`, 8 MACs
//!    per i32 lane.
//! 4. `gemm_sdot_mt`, `gemm_smmla_mt` -- either, shared out over columns.
pub mod dispatch;
pub mod fill;
pub mod harness;
pub mod laws;
pub mod math;
pub mod model;
pub mod neon;
pub mod pack;
pub mod partition;
pub mod results;
pub mod roofline;
pub mod scalar;
pub mod sdot;
pub mod sdot_tiled;
pub mod smmla;
pub mod smmla_8x8;

pub use dispatch::{choose_kernel, Kernel, SMMLA_MIN_ROWS};
pub use fill::fill;
pub use harness::{all_matched, matches_reference, run_all, run_mt};
pub use pack::{pack_a_smmla, pack_b_smmla, pack_b_transposed};
pub use partition::column_ranges;
pub use scalar::gemm_scalar;
pub use sdot::{gemm_sdot, gemm_sdot_mt, sdot_colrange};
pub use sdot_tiled::gemm_sdot_tiled;
pub use smmla::{gemm_smmla, gemm_smmla_blocked, gemm_smmla_mt, smmla_colrange, store_tile};
pub use smmla_8x8::{gemm_smmla_8x8, gemm_smmla_8x8_u2};
