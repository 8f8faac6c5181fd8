use vstd::prelude::*;

pub mod allocator;
pub mod bignum;
pub mod bitmap_sched;
pub mod collections;
pub mod compress;
pub mod debug;
pub mod dualcache;
pub mod math;
pub mod random;
pub mod scriptgo_vm;
pub mod sync;
pub mod vec101;
