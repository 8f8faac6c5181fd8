//! A bump allocator over an address range, and the wrapper type that counts a global
//! allocator's allocations.
use vstd::prelude::*;
use vstd::layout::{size_of, align_of, align_nonzero};

verus! {

/// `x` rounded up to a multiple of `align`.
pub open spec fn align_up(x: int, align: int) -> int {
    if x % align == 0 {
        x
    } else {
        x + (align - x % align)
    }
}

/// A bump allocator (arena) over the addresses `start..end`: each allocation takes the
/// next suitably aligned block; a reset gives the whole range back.
pub struct AppArena {
    start: usize,
    end: usize,
    next: usize,
}

impl AppArena {
    pub closed spec fn start(&self) -> usize {
        self.start
    }

    pub closed spec fn end(&self) -> usize {
        self.end
    }

    /// The first address not yet handed out.
    pub closed spec fn next(&self) -> usize {
        self.next
    }

    #[verifier::type_invariant]
    spec fn in_range(&self) -> bool {
        self.start <= self.next <= self.end
    }

    /// An arena over `size` bytes from `start`.
    pub fn new(start: usize, size: usize) -> (r: Self)
        requires
            start + size <= usize::MAX,
        ensures
            r.start() == start,
            r.end() == start + size,
            r.next() == start,
    {
        AppArena { start, end: start + size, next: start }
    }

    /// Allocates room for a `T`: the address of the next block aligned for `T`, or `None`
    /// when the arena has no room left, in which case nothing changes.
    pub fn allocate<T>(&mut self) -> (r: Option<usize>)
        requires
            align_up(old(self).next() as int, align_of::<T>() as int) + size_of::<T>() <= usize::MAX,
        ensures
            ({
                let a = align_up(old(self).next() as int, align_of::<T>() as int);
                if a + size_of::<T>() > old(self).end() {
                    &&& r is None
                    &&& *final(self) == *old(self)
                } else {
                    &&& r == Some(a as usize)
                    &&& final(self).next() == a + size_of::<T>()
                    &&& final(self).start() == old(self).start()
                    &&& final(self).end() == old(self).end()
                }
            }),
            r matches Some(p) ==> (p as int) % (align_of::<T>() as int) == 0 && old(self).next() <= p && p + size_of::<T>() <= old(self).end(),
    {
        proof {
            use_type_invariant(&*self);
            broadcast use align_nonzero;
        }
        let size = core::mem::size_of::<T>();
        let align = core::mem::align_of::<T>();
        let mut current = self.next;
        let align_offset = current % align;
        if align_offset != 0 {
            current = current + (align - align_offset);
        }
        proof {
            let a = align as int;
            let x = self.next as int;
            if x % a != 0 {
                vstd::arithmetic::div_mod::lemma_fundamental_div_mod(x, a);
                assert(current as int == a * (x / a + 1)) by (nonlinear_arith)
                    requires current as int == x + (a - x % a), x == a * (x / a) + x % a;
                vstd::arithmetic::div_mod::lemma_mod_multiples_basic(x / a + 1, a);
                assert((a * (x / a + 1)) % a == 0) by (nonlinear_arith)
                    requires ((x / a + 1) * a) % a == 0;
            }
        }
        if current + size > self.end {
            return None;
        }
        self.next = current + size;
        Some(current)
    }

    /// Gives the whole range back, discarding every allocation.
    pub fn reset(&mut self)
        ensures
            final(self).next() == old(self).start(),
            final(self).start() == old(self).start(),
            final(self).end() == old(self).end(),
    {
        proof {
            use_type_invariant(&*self);
        }
        self.next = self.start;
    }
}

/// A wrapper around a global allocator whose allocations are to be counted for leak
/// detection.
pub struct TrackingAllocator<A> {
    inner: A,
}

impl<A> TrackingAllocator<A> {
    /// The wrapped allocator.
    pub closed spec fn inner(&self) -> A {
        self.inner
    }

    /// Wraps `inner`.
    pub fn new(inner: A) -> (r: Self)
        ensures
            r.inner() == inner,
    {
        TrackingAllocator { inner }
    }
}

} // verus!
