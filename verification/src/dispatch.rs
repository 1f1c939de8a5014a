//! Which kernel for which shape.
use vstd::prelude::*;

verus! {

/// Which kernel wins depends on M. `SMMLA` always produces two output rows; at M=1 the second row
/// is padding, so half the multiply-accumulate work is discarded and `SDOT` -- which computes
/// exactly one row -- comes out ahead despite doing half the MACs per instruction.
///
/// That matters because M=1 is the LLM decode step: every token after the prompt is a matrix-vector
/// product. The crossover sits at M=2, the first M where `SMMLA`'s second row carries real data.
pub const SMMLA_MIN_ROWS: usize = 2;

/// The kernels to choose from.
#[derive(Debug, Clone, Copy, PartialEq, Eq, Structural)]
pub enum Kernel {
    Sdot,
    Smmla,
}

/// Pick by shape. See [`SMMLA_MIN_ROWS`].
pub fn choose_kernel(m: usize) -> (kernel: Kernel)
    ensures
        kernel == if m >= SMMLA_MIN_ROWS {
            Kernel::Smmla
        } else {
            Kernel::Sdot
        },
        kernel == Kernel::Smmla <==> m >= 2,
        kernel == Kernel::Sdot <==> m <= 1,
{
    if m >= SMMLA_MIN_ROWS {
        Kernel::Smmla
    } else {
        Kernel::Sdot
    }
}

} // verus!
