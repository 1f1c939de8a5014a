//! Reproducible input.
use vstd::prelude::*;

verus! {

/// One step of the xorshift generator.
pub open spec fn xorshift(s: u64) -> u64 {
    let s1 = s ^ (s << 13);
    let s2 = s1 ^ (s1 >> 7);
    s2 ^ (s2 << 17)
}

/// The generator's state after `steps` steps. Its first state is odd, whatever the seed.
pub open spec fn state(seed: u64, steps: nat) -> u64
    decreases steps,
{
    if steps == 0 {
        seed | 1
    } else {
        xorshift(state(seed, (steps - 1) as nat))
    }
}

/// Byte `i` of the stream of `seed`: bits 24 to 31 of the state after `i + 1` steps.
pub open spec fn stream_byte(seed: u64, i: int) -> i8 {
    (state(seed, (i + 1) as nat) >> 24) as i8
}

/// The first `len` bytes of the stream of `seed`.
pub open spec fn stream(seed: u64, len: int) -> Seq<i8> {
    Seq::new(len as nat, |i: int| stream_byte(seed, i))
}

/// Deterministic pseudo-random int8 fill (xorshift) so runs are reproducible and results are
/// comparable across machines without shipping a data file.
pub fn fill(buf: &mut [i8], seed: u64)
    ensures
        final(buf)@ == stream(seed, old(buf)@.len() as int),
        final(buf)@.len() == old(buf)@.len(),
        forall|i: int|
            0 <= i < final(buf)@.len() ==> #[trigger] final(buf)@[i] == (state(
                seed,
                (i + 1) as nat,
            ) >> 24) as i8,
{
    let ghost len = buf@.len();
    let mut s = seed | 1;
    let mut i: usize = 0;
    while i < buf.len()
        invariant
            i <= buf.len(),
            buf@.len() == len,
            s == state(seed, i as nat),
            forall|x: int| 0 <= x < i ==> #[trigger] buf@[x] == stream_byte(seed, x),
        decreases buf.len() - i,
    {
        s = s ^ (s << 13);
        s = s ^ (s >> 7);
        s = s ^ (s << 17);
        buf[i] = #[verifier::truncate] ((s >> 24) as i8);
        i += 1;
    }
    assert(buf@ =~= stream(seed, len as int));
}

} // verus!
