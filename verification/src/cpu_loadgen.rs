//! The form behind the CPU load generator, and the arithmetic step its
//! busy loop repeats.  Spawning the worker threads happens outside the
//! library.

use vstd::prelude::*;

verus! {

/// The submitted form: worker count and seconds to keep them busy.
pub struct CpuLoadGenForm {
    pub threads: u64,
    pub duration: u64,
}

/// One iteration of the busy loop: multiply the running value by itself
/// plus 1337, wrapping on overflow, so the loop can spin forever.
pub fn load_step(f_n: u128) -> (r: u128)
    ensures
        r == vstd::wrapping::u128_specs::wrapping_mul(
            f_n,
            vstd::wrapping::u128_specs::wrapping_add(f_n, 1337),
        ),
{
    let n = f_n.wrapping_add(1337);
    f_n.wrapping_mul(n)
}

} // verus!
