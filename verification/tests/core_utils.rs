use no_std_tool::allocator::{AppArena, TrackingAllocator};
use no_std_tool::bitmap_sched::{count_ones_u64, next_ready_after, BitmapScheduler};
use no_std_tool::collections::bloom::{probes_all_set, total_ones, SimpleBloom};
use no_std_tool::collections::flat_map::{
    counts_after_place, counts_after_remove, insert_step, lookup_step, probe_start, ProbeAction, SlotSeen,
};
use no_std_tool::collections::slot_pool::{pool_free_slot, pool_slot_used};
use no_std_tool::collections::mpsc_queue::{push_start, push_step, PushAction, PushAttempt, PushEvent};
use no_std_tool::debug::{LifecycleCounters, ScopedResource};
use no_std_tool::math::{exp_approx_q16, rsqrt_approx_i32, silu_approx_i8, FIXED_POINT_ONE};
use no_std_tool::random::Xoshiro256StarStar;
use no_std_tool::sync::{
    lock_step, mailbox_is_empty, mailbox_push_outcome, mailbox_take, AtomicMailboxU32, Backoff, CachePadded, LockAction,
    LockEvent, SpinLock, TimeoutError, SPIN_MUTEX_LIMIT,
};

#[test]
fn test_bloom_filter() {
    let bloom = std::sync::Arc::new(SimpleBloom::<1024>::new());
    let entity_id = 42usize;

    assert!(!bloom.contains(&entity_id));
    assert_eq!(bloom.count_set_bits(), 0);
    assert_eq!(bloom.total_bits(), 1024 * 64);

    bloom.insert(&entity_id);
    assert!(bloom.contains(&entity_id));
    assert!(bloom.count_set_bits() > 0 && bloom.count_set_bits() <= 4);

    bloom.clear();
    assert_eq!(bloom.count_set_bits(), 0);
    assert!(!bloom.contains(&entity_id));
}

#[test]
fn bloom_shared_through_arc() {
    let bloom = SimpleBloom::<64>::new_arc();
    let other = bloom.clone();
    for t in 0..4usize {
        other.insert(&(t * 10000));
    }
    for t in 0..4usize {
        assert!(bloom.contains(&(t * 10000)));
    }
    assert!(bloom.count_set_bits() <= 16);
    assert_eq!(SimpleBloom::<8>::new_boxed().total_bits(), 512);
}

#[test]
fn test_thread_tracking() {
    let mut counters = LifecycleCounters::new();
    while !counters.check_thread_drops() {
        counters.track_thread_exit();
    }
    assert!(counters.check_thread_drops());
    counters.track_thread_spawn();
    assert!(!counters.check_thread_drops());
    counters.track_thread_exit();
    assert!(counters.check_thread_drops());
}

#[test]
fn scoped_resource_balances_the_counts() {
    let mut counters = LifecycleCounters::new();
    assert!(counters.check_memory_leaks());
    let r = ScopedResource::new(&mut counters);
    assert!(!counters.check_memory_leaks());
    assert!(!counters.check_thread_drops());
    r.release(&mut counters);
    assert!(counters.check_memory_leaks());
    assert!(counters.check_thread_drops());
    // a deallocation without an allocation wraps around
    counters.track_dealloc();
    assert!(!counters.check_memory_leaks());
    counters.track_alloc();
    assert!(counters.check_memory_leaks());
}

#[test]
fn arena_aligns_and_runs_out() {
    let mut arena = AppArena::new(0x1001, 16);
    // u32: aligned up to 0x1004
    assert_eq!(arena.allocate::<u32>(), Some(0x1004));
    // u64: next free is 0x1008
    assert_eq!(arena.allocate::<u64>(), Some(0x1008));
    // the range ends at 0x1011: another u64 at 0x1010 does not fit
    assert_eq!(arena.allocate::<u64>(), None);
    assert_eq!(arena.allocate::<u8>(), Some(0x1010));
    arena.reset();
    assert_eq!(arena.allocate::<u8>(), Some(0x1001));
    let _wrapped = TrackingAllocator::new(7u32);
}

#[test]
fn bitmap_scheduler_round_robin() {
    let sched = BitmapScheduler::new();
    assert_eq!(sched.get_next_ready(0), None);
    sched.set_ready(3);
    sched.set_ready(10);
    sched.set_ready(63);
    sched.set_ready(64); // ignored
    assert!(sched.is_ready(3));
    assert!(!sched.is_ready(4));
    assert!(!sched.is_ready(64));
    assert_eq!(sched.count_ready(), 3);
    assert_eq!(sched.get_next_ready(3), Some(10));
    assert_eq!(sched.get_next_ready(10), Some(63));
    assert_eq!(sched.get_next_ready(63), Some(3));
    assert_eq!(sched.get_next_ready(100), Some(3));
    sched.clear_ready(10);
    assert_eq!(sched.get_next_ready(3), Some(63));
    assert_eq!(sched.count_ready(), 2);
    assert_eq!(next_ready_after(0b1010, 1), Some(3));
    assert_eq!(next_ready_after(0b1010, 3), Some(1));
    assert_eq!(count_ones_u64(u64::MAX), 64);
}

#[test]
fn xoshiro_exact_outputs() {
    let mut rng = Xoshiro256StarStar::new(0);
    assert_eq!(rng.next_u64(), 7280431682470476346);
    assert_eq!(rng.next_u64(), 1475224058274222611);
    assert_eq!(rng.next_u64(), 6079319363621670396);
    let mut rng = Xoshiro256StarStar::new(42);
    assert_eq!(rng.next_u64(), 5713586535040644834);
    assert_eq!(rng.next_u64(), 2685270015195701048);
    assert!(rng.next_bool());
}

#[test]
fn spin_lock_times_out_while_held() {
    let lock = SpinLock::new();
    assert_eq!(lock.lock(), Ok(()));
    assert_eq!(lock.lock(), Err(TimeoutError));
    lock.unlock();
    assert_eq!(lock.lock(), Ok(()));
}

#[test]
fn backoff_budget_and_mailbox() {
    let mut b = Backoff::new();
    for _ in 0..100 {
        b.snooze();
    }
    assert!(!b.is_completed());
    b.snooze();
    assert!(b.is_completed());

    let m = AtomicMailboxU32::new();
    assert_eq!(m.try_pop(), None);
    assert_eq!(m.try_push(7), Ok(()));
    assert_eq!(m.try_push(8), Err(8));
    assert_eq!(m.try_pop(), Some(7));
    assert_eq!(m.try_pop(), None);

    let p = CachePadded { value: 5u8 };
    assert_eq!(p.value, 5);
}

#[test]
fn test_rsqrt_approx_edge_cases() {
    assert_eq!(rsqrt_approx_i32(0), None);
    assert!(rsqrt_approx_i32(1).unwrap() > 0);
}

#[test]
fn math_approximations_exact_values() {
    assert_eq!(exp_approx_q16(0), Some(FIXED_POINT_ONE));
    assert_eq!(rsqrt_approx_i32(4), Some(32768));
    assert_eq!(rsqrt_approx_i32(1), Some(65536));
    assert!(silu_approx_i8(2).unwrap() > 0);
}

#[test]
fn push_steps_follow_the_ring() {
    let (a, act) = push_start(9);
    assert_eq!(act, PushAction::ReadHead);
    assert_eq!(a, PushAttempt { tail: 9, spins: 0 });
    // a ring of 8 with the consumer at 1 is full at tail 9
    assert_eq!(push_step::<8>(a, PushEvent::Head(1)).1, PushAction::GiveUp);
    // with the consumer at 2 the slot 9 & 7 == 1 is read
    assert_eq!(push_step::<8>(a, PushEvent::Head(2)).1, PushAction::ReadSlot(1));
    assert_eq!(push_step::<8>(a, PushEvent::SlotState(0)).1, PushAction::Claim(9));
    assert_eq!(push_step::<8>(a, PushEvent::SlotState(2)).1, PushAction::ReadTailAgain);
    assert_eq!(push_step::<8>(a, PushEvent::TailAgain(11)), (PushAttempt { tail: 11, spins: 0 }, PushAction::ReadHead));
    assert_eq!(push_step::<8>(a, PushEvent::TailAgain(9)).1, PushAction::ReadHeadAgain);
    assert_eq!(push_step::<8>(a, PushEvent::HeadAgain(4)), (PushAttempt { tail: 9, spins: 1 }, PushAction::SpinThenReadHead));
    let tired = PushAttempt { tail: 9, spins: 10_000 };
    assert_eq!(push_step::<8>(tired, PushEvent::HeadAgain(4)).1, PushAction::GiveUp);
    assert_eq!(push_step::<8>(a, PushEvent::ClaimFailed(12)), (PushAttempt { tail: 12, spins: 0 }, PushAction::ReadHead));
    // the head ahead of the tail wraps to a huge distance: full
    assert_eq!(push_step::<8>(a, PushEvent::Head(10)).1, PushAction::GiveUp);
}

#[test]
fn lock_steps_count_spins_and_give_up_at_the_limit() {
    assert_eq!(lock_step(0, LockEvent::Start), (1, LockAction::TryClaim));
    assert_eq!(lock_step(1, LockEvent::Claimed(true)), (1, LockAction::Acquired));
    assert_eq!(lock_step(1, LockEvent::Claimed(false)), (1, LockAction::ReadFlag));
    assert_eq!(lock_step(1, LockEvent::Held(true)), (2, LockAction::SpinThenReadFlag));
    assert_eq!(lock_step(2, LockEvent::Held(false)), (3, LockAction::TryClaim));
    assert_eq!(lock_step(SPIN_MUTEX_LIMIT, LockEvent::Held(true)), (SPIN_MUTEX_LIMIT, LockAction::GiveUp));
    assert_eq!(lock_step(SPIN_MUTEX_LIMIT, LockEvent::Held(false)), (SPIN_MUTEX_LIMIT, LockAction::GiveUp));
    // a lock held elsewhere times out
    let lock = SpinLock::new();
    assert_eq!(lock.lock(), Ok(()));
    assert_eq!(lock.lock(), Err(TimeoutError));
    lock.unlock();
    assert_eq!(lock.lock(), Ok(()));
}

#[test]
fn mailbox_decisions_on_the_word_read() {
    assert!(mailbox_is_empty(u32::MAX));
    assert!(!mailbox_is_empty(7));
    assert_eq!(mailbox_take(u32::MAX), None);
    assert_eq!(mailbox_take(7), Some(7));
    assert_eq!(mailbox_push_outcome(u32::MAX, true, 5), Ok(()));
    assert_eq!(mailbox_push_outcome(u32::MAX, false, 5), Err(5));
    assert_eq!(mailbox_push_outcome(3, true, 5), Err(5));
    let mb = AtomicMailboxU32::new();
    assert_eq!(mb.try_pop(), None);
    assert_eq!(mb.try_push(9), Ok(()));
    assert_eq!(mb.try_push(10), Err(10));
    assert_eq!(mb.try_pop(), Some(9));
    assert_eq!(mb.try_pop(), None);
}

#[test]
fn bloom_decisions_on_the_words_read() {
    // all ones: every probe hits; all zeros: none does
    assert!(probes_all_set(0x1234_5678_9abc_def0, 1024, &[u64::MAX; 4]));
    assert!(!probes_all_set(0x1234_5678_9abc_def0, 1024, &[0; 4]));
    assert_eq!(total_ones(&[0, 1, 3, u64::MAX]), 67);
    assert_eq!(total_ones(&[]), 0);
    let bloom = SimpleBloom::<16>::new();
    for item in 0..200u32 {
        bloom.insert(&item);
    }
    for item in 0..200u32 {
        assert!(bloom.contains(&item));
    }
    assert!(bloom.count_set_bits() <= 16 * 64);
}

#[test]
fn probe_steps_of_the_hash_table() {
    assert_eq!(probe_start(0x1234_5678_9abc_def3, 7), 3);
    assert_eq!(lookup_step(3, 7, SlotSeen::Empty), ProbeAction::Absent);
    assert_eq!(lookup_step(3, 7, SlotSeen::Deleted), ProbeAction::Next(4));
    assert_eq!(lookup_step(7, 7, SlotSeen::Occupied { key_matches: false }), ProbeAction::Next(0));
    assert_eq!(lookup_step(5, 7, SlotSeen::Occupied { key_matches: true }), ProbeAction::Found(5));
    assert_eq!(insert_step(3, 7, None, SlotSeen::Deleted), (Some(3), ProbeAction::Next(4)));
    assert_eq!(insert_step(4, 7, Some(3), SlotSeen::Deleted), (Some(3), ProbeAction::Next(5)));
    assert_eq!(insert_step(5, 7, Some(3), SlotSeen::Empty), (Some(3), ProbeAction::Place(3)));
    assert_eq!(insert_step(5, 7, None, SlotSeen::Empty), (None, ProbeAction::Place(5)));
    assert_eq!(insert_step(6, 7, Some(3), SlotSeen::Occupied { key_matches: true }), (Some(3), ProbeAction::Found(6)));
    assert_eq!(counts_after_place(2, 1, true), (3, 0));
    assert_eq!(counts_after_place(2, 1, false), (3, 1));
    assert_eq!(counts_after_remove(3, 0), (2, 1));
}

#[test]
fn tracked_vm_counts_as_a_live_resource() {
    let mut counters = LifecycleCounters::new();
    assert!(counters.check_memory_leaks());
    let (vm, tracker) = no_std_tool::scriptgo_vm::vm::ScriptVm::new_tracked(&mut counters);
    assert_eq!(vm.pc, 0);
    assert!(!counters.check_memory_leaks());
    tracker.release(&mut counters);
    assert!(counters.check_memory_leaks());
}

#[test]
fn math_laws_on_samples() {
    // exp does not decrease
    let mut prev = 0;
    let mut x = -700_000;
    while x <= 655_360 {
        let e = exp_approx_q16(x).unwrap();
        assert!(e >= prev);
        prev = e;
        x += 997;
    }
    // 1/sqrt does not increase
    let mut prev = u32::MAX;
    for v in [1u32, 2, 3, 4, 15, 16, 17, 1000, 65536, u32::MAX] {
        let r = rsqrt_approx_i32(v).unwrap();
        assert!(r <= prev);
        prev = r;
    }
    // SiLU lies between 0 and x
    for v in -10i8..=127 {
        let s = silu_approx_i8(v).unwrap();
        if v >= 0 {
            assert!(0 <= s && s <= v);
        } else {
            assert!(v <= s && s <= 0);
        }
    }
}

#[test]
fn pool_slot_search_takes_the_lowest_free_slot() {
    assert_eq!(pool_free_slot(&[0, 0], 100), Some(0));
    assert_eq!(pool_free_slot(&[0b1011, 0], 100), Some(2));
    assert_eq!(pool_free_slot(&[u64::MAX, 0b1], 100), Some(65));
    // the lowest free slot is past the capacity
    assert_eq!(pool_free_slot(&[u64::MAX, 0b1], 65), None);
    assert_eq!(pool_free_slot(&[u64::MAX, u64::MAX], 128), None);
    assert!(pool_slot_used(&[0b100, 0], 100, 2));
    assert!(!pool_slot_used(&[0b100, 0], 100, 3));
    assert!(!pool_slot_used(&[u64::MAX, u64::MAX], 100, 120));
}

#[test]
fn count_ready_counts_each_marked_task_once() {
    let sched = BitmapScheduler::new();
    for id in [0usize, 5, 31, 63, 5] {
        sched.set_ready(id);
    }
    assert_eq!(sched.count_ready(), 4);
    assert_eq!(count_ones_u64((1u64 << 63) | 1), 2);
    assert_eq!(count_ones_u64(0), 0);
}

#[test]
fn rsqrt_is_65536_shifted_by_half_the_top_bit() {
    for x in [1u32, 2, 3, 4, 15, 16, 1000, 1 << 20, u32::MAX] {
        let k = (31 - x.leading_zeros()) / 2;
        assert_eq!(rsqrt_approx_i32(x), Some(65536u32 >> k));
    }
    assert_eq!(rsqrt_approx_i32(u32::MAX), Some(2));
}
