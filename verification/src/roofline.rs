//! The loop body of the instruction-issue measurement: sixteen independent accumulator chains over
//! register-resident operands.
//!
//! Enough chains that latency cannot bind, and still inside the 32 NEON registers with room for the
//! operands.
use crate::math;
use crate::math::add_wrapping;
use crate::neon;
use crate::neon::{vdotq_s32, vgetq_lane_s32, vmmlaq_s32, I32x4, I8x16};
use vstd::prelude::*;

verus! {

/// One `SMMLA` on every chain.
pub fn smmla_chains(acc: &mut [I32x4; 16], a: I8x16, b: I8x16)
    ensures
        forall|t: int|
            0 <= t < 16 ==> (#[trigger] final(acc)@[t])@ == neon::smmla(old(acc)@[t]@, a@, b@),
{
    let ghost acc0 = acc@;
    let mut t: usize = 0;
    while t < 16
        invariant
            t <= 16,
            forall|u: int| t <= u < 16 ==> #[trigger] acc@[u] == acc0[u],
            forall|u: int| 0 <= u < t ==> (#[trigger] acc@[u])@ == neon::smmla(acc0[u]@, a@, b@),
        decreases 16 - t,
    {
        acc[t] = vmmlaq_s32(acc[t], a, b);
        t += 1;
    }
}

/// One `SDOT` on every chain.
pub fn sdot_chains(acc: &mut [I32x4; 16], a: I8x16, b: I8x16)
    ensures
        forall|t: int|
            0 <= t < 16 ==> (#[trigger] final(acc)@[t])@ == neon::sdot(old(acc)@[t]@, a@, b@),
{
    let ghost acc0 = acc@;
    let mut t: usize = 0;
    while t < 16
        invariant
            t <= 16,
            forall|u: int| t <= u < 16 ==> #[trigger] acc@[u] == acc0[u],
            forall|u: int| 0 <= u < t ==> (#[trigger] acc@[u])@ == neon::sdot(acc0[u]@, a@, b@),
        decreases 16 - t,
    {
        acc[t] = vdotq_s32(acc[t], a, b);
        t += 1;
    }
}

/// The first lanes of the chains.
pub open spec fn first_lanes(acc: Seq<I32x4>) -> spec_fn(int) -> int {
    |t: int| acc[t]@[0] as int
}

/// The sum of the first lanes, modulo 2^32: a value that needs every chain.
pub fn chain_sink(acc: &[I32x4; 16]) -> (sink: i32)
    ensures
        sink == math::wrap(math::sum(first_lanes(acc@), 16)),
        ({
            let a = acc@;
            (sink - (a[0].lanes@[0] + a[1].lanes@[0] + a[2].lanes@[0] + a[3].lanes@[0]
                + a[4].lanes@[0] + a[5].lanes@[0] + a[6].lanes@[0] + a[7].lanes@[0]
                + a[8].lanes@[0] + a[9].lanes@[0] + a[10].lanes@[0] + a[11].lanes@[0]
                + a[12].lanes@[0] + a[13].lanes@[0] + a[14].lanes@[0] + a[15].lanes@[0]))
                % 0x1_0000_0000 == 0
        }),
{
    let mut sink: i32 = 0;
    let mut t: usize = 0;
    while t < 16
        invariant
            t <= 16,
            sink == math::wrap(math::sum(first_lanes(acc@), t as int)),
        decreases 16 - t,
    {
        proof {
            math::lemma_wrap_add(
                math::sum(first_lanes(acc@), t as int),
                first_lanes(acc@)(t as int),
            );
        }
        sink = add_wrapping(sink, vgetq_lane_s32(acc[t], 0));
        t += 1;
    }
    proof {
        math::lemma_sum_8(first_lanes(acc@), 0);
        math::lemma_sum_8(first_lanes(acc@), 8);
    }
    sink
}

/// The unit in which a footprint is given.
#[derive(Debug, Clone, Copy, PartialEq, Eq, Structural)]
pub enum Unit {
    KiB,
    MiB,
}

/// A footprint of `bytes` in whole units: MiB from one MiB on, KiB below.
pub fn footprint(bytes: usize) -> (r: (usize, Unit))
    ensures
        r == if bytes >= 1_048_576 {
            ((bytes / 1_048_576) as usize, Unit::MiB)
        } else {
            ((bytes / 1024) as usize, Unit::KiB)
        },
{
    if bytes >= 1_048_576 {
        (bytes / 1_048_576, Unit::MiB)
    } else {
        (bytes / 1024, Unit::KiB)
    }
}

} // verus!
