//! The type of a two-level cache, carrying its sizes as parameters.
use vstd::prelude::*;
use core::marker::PhantomData;

verus! {

/// A two-level cache over keys `K`, values `V` and policy `P`, with its capacities and
/// tuning constants as const parameters.
pub struct DualCacheFF<K, V, P, const C2: usize, const C1: usize, const C0: usize, const TC: usize,
    const P4: usize, const P5: usize, const P6: usize> {
    marker: PhantomData<(K, V, P)>,
}

impl<K, V, P, const C2: usize, const C1: usize, const C0: usize, const TC: usize,
    const P4: usize, const P5: usize, const P6: usize> DualCacheFF<K, V, P, C2, C1, C0, TC, P4, P5, P6> {
    /// A cache built from a configuration (which it does not keep).
    pub fn new<Config>(config: Config) -> (r: Self) {
        DualCacheFF { marker: PhantomData }
    }
}

} // verus!
