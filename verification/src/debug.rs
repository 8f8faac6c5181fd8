//! Lifecycle tracking: counts of live tracked resources and of running tasks, to check
//! that everything was released.
use vstd::prelude::*;

verus! {

/// Counts of tracked resources that are still live and of tasks still running.
/// Each count wraps around as a 32-bit atomic counter does.
pub struct LifecycleCounters {
    resources: u32,
    threads: u32,
}

impl LifecycleCounters {
    /// Live tracked resources.
    pub closed spec fn resources(&self) -> u32 {
        self.resources
    }

    /// Running tasks.
    pub closed spec fn threads(&self) -> u32 {
        self.threads
    }

    /// Both counts at zero.
    pub fn new() -> (r: Self)
        ensures
            r.resources() == 0,
            r.threads() == 0,
    {
        LifecycleCounters { resources: 0, threads: 0 }
    }

    /// Counts one allocation.
    pub fn track_alloc(&mut self)
        ensures
            final(self).resources() == old(self).resources().wrapping_add(1),
            final(self).threads() == old(self).threads(),
    {
        self.resources = self.resources.wrapping_add(1);
    }

    /// Counts one deallocation.
    pub fn track_dealloc(&mut self)
        ensures
            final(self).resources() == old(self).resources().wrapping_sub(1),
            final(self).threads() == old(self).threads(),
    {
        self.resources = self.resources.wrapping_sub(1);
    }

    /// Counts a task or thread that started.
    pub fn track_thread_spawn(&mut self)
        ensures
            final(self).threads() == old(self).threads().wrapping_add(1),
            final(self).resources() == old(self).resources(),
    {
        self.threads = self.threads.wrapping_add(1);
    }

    /// Counts a task or thread that ended.
    pub fn track_thread_exit(&mut self)
        ensures
            final(self).threads() == old(self).threads().wrapping_sub(1),
            final(self).resources() == old(self).resources(),
    {
        self.threads = self.threads.wrapping_sub(1);
    }

    /// Whether no tracked resource is live.
    pub fn check_memory_leaks(&self) -> (r: bool)
        ensures
            r == (self.resources() == 0),
    {
        self.resources == 0
    }

    /// Whether no tracked task is running.
    pub fn check_thread_drops(&self) -> (r: bool)
        ensures
            r == (self.threads() == 0),
    {
        self.threads == 0
    }
}

/// A count that goes up by one and back down by one is where it started, whatever its
/// value (the counters wrap around).
pub proof fn lemma_balanced_tracking(n: u32)
    ensures
        n.wrapping_add(1).wrapping_sub(1) == n,
        n.wrapping_sub(1).wrapping_add(1) == n,
{
}

/// A tracked resource: making one counts a resource and a task, releasing it takes
/// both back.
pub struct ScopedResource;

impl ScopedResource {
    pub fn new(counters: &mut LifecycleCounters) -> (r: Self)
        ensures
            final(counters).resources() == old(counters).resources().wrapping_add(1),
            final(counters).threads() == old(counters).threads().wrapping_add(1),
    {
        counters.track_alloc();
        counters.track_thread_spawn();
        ScopedResource
    }

    /// Ends the resource's life.
    pub fn release(self, counters: &mut LifecycleCounters)
        ensures
            final(counters).resources() == old(counters).resources().wrapping_sub(1),
            final(counters).threads() == old(counters).threads().wrapping_sub(1),
    {
        counters.track_dealloc();
        counters.track_thread_exit();
    }
}

} // verus!
