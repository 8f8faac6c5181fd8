//! Synchronization for bare-metal code: a bounded spinlock, a spin backoff helper, a
//! one-slot atomic mailbox and cache-line padding.
use vstd::prelude::*;
use core::sync::atomic::{AtomicBool, AtomicU32, Ordering};

verus! {

/// How many times a spinlock tries before giving up.
pub const SPIN_MUTEX_LIMIT: u32 = 10_000;

/// A spinlock acquisition timed out.
#[derive(Debug, Clone, Copy, PartialEq, Eq, Structural)]
pub struct TimeoutError;

/// Calls `core::hint::spin_loop`, a processor hint inside busy-wait loops; it changes no
/// value, and nothing is claimed of it.
#[verifier::external_body]
fn spin_hint() {
    core::hint::spin_loop();
}

/// What a thread taking a spinlock learnt since its last step.
#[derive(Clone, Copy, Debug, PartialEq, Eq)]
pub enum LockEvent {
    /// Nothing yet: the attempt begins.
    Start,
    /// The answer of the compare-exchange from unlocked to locked: whether it won.
    Claimed(bool),
    /// The lock flag as read while waiting: whether it is still held.
    Held(bool),
}

/// What the thread does next.
#[derive(Clone, Copy, Debug, PartialEq, Eq)]
pub enum LockAction {
    /// Try the compare-exchange from unlocked to locked.
    TryClaim,
    /// Read the lock flag.
    ReadFlag,
    /// Yield the processor once, then read the lock flag.
    SpinThenReadFlag,
    /// The lock is taken.
    Acquired,
    /// The attempts are spent: time out.
    GiveUp,
}

/// At the top of an attempt: give up once `spins` reached the limit, else count one
/// more and try to claim.
pub open spec fn lock_retry(spins: u32) -> (u32, LockAction) {
    if spins >= SPIN_MUTEX_LIMIT {
        (spins, LockAction::GiveUp)
    } else {
        ((spins + 1) as u32, LockAction::TryClaim)
    }
}

/// The next step of `lock` from the spins counted and what was just learnt.
pub open spec fn lock_step_spec(spins: u32, ev: LockEvent) -> (u32, LockAction) {
    match ev {
        LockEvent::Start => lock_retry(spins),
        LockEvent::Claimed(won) => if won {
            (spins, LockAction::Acquired)
        } else {
            (spins, LockAction::ReadFlag)
        },
        LockEvent::Held(held) => if !held {
            lock_retry(spins)
        } else if spins >= SPIN_MUTEX_LIMIT {
            (spins, LockAction::GiveUp)
        } else {
            ((spins + 1) as u32, LockAction::SpinThenReadFlag)
        },
    }
}

/// One decision of a thread taking a spinlock.
pub fn lock_step(spins: u32, ev: LockEvent) -> (r: (u32, LockAction))
    requires
        spins <= SPIN_MUTEX_LIMIT,
    ensures
        r == lock_step_spec(spins, ev),
        r.0 <= SPIN_MUTEX_LIMIT,
{
    match ev {
        LockEvent::Start => {
            if spins >= SPIN_MUTEX_LIMIT {
                (spins, LockAction::GiveUp)
            } else {
                (spins + 1, LockAction::TryClaim)
            }
        },
        LockEvent::Claimed(won) => {
            if won {
                (spins, LockAction::Acquired)
            } else {
                (spins, LockAction::ReadFlag)
            }
        },
        LockEvent::Held(held) => {
            if !held {
                if spins >= SPIN_MUTEX_LIMIT {
                    (spins, LockAction::GiveUp)
                } else {
                    (spins + 1, LockAction::TryClaim)
                }
            } else if spins >= SPIN_MUTEX_LIMIT {
                (spins, LockAction::GiveUp)
            } else {
                (spins + 1, LockAction::SpinThenReadFlag)
            }
        },
    }
}

/// A thread gives up on a spinlock only once it has spent all `SPIN_MUTEX_LIMIT` spins.
pub proof fn lemma_lock_gives_up_at_limit(spins: u32, ev: LockEvent)
    ensures
        lock_step_spec(spins, ev).1 == LockAction::GiveUp ==> spins >= SPIN_MUTEX_LIMIT,
{
}

/// Steps left before `lock` must end, from the spins counted and the pending action.
pub open spec fn lock_measure(spins: u32, action: LockAction) -> int {
    3 * (SPIN_MUTEX_LIMIT - spins) + match action {
        LockAction::TryClaim => 2int,
        LockAction::ReadFlag => 1int,
        LockAction::SpinThenReadFlag => 1int,
        _ => 0int,
    }
}

/// The lock flag of a spin mutex, taken with a bounded number of attempts.
pub struct SpinLock {
    locked: AtomicBool,
}

impl SpinLock {
    /// An unlocked lock.
    pub fn new() -> (r: Self) {
        SpinLock { locked: AtomicBool::new(false) }
    }

    /// Takes the lock, spinning at most `SPIN_MUTEX_LIMIT` times; `Err(TimeoutError)` if it
    /// stayed taken that long. Each decision is `lock_step` on what the flag answered.
    pub fn lock(&self) -> (r: Result<(), TimeoutError>) {
        let (mut spins, mut action) = lock_step(0, LockEvent::Start);
        loop
            invariant
                spins <= SPIN_MUTEX_LIMIT,
            decreases lock_measure(spins, action),
        {
            let ev = match action {
                LockAction::Acquired => return Ok(()),
                LockAction::GiveUp => return Err(TimeoutError),
                LockAction::TryClaim => LockEvent::Claimed(
                    self.locked.compare_exchange_weak(false, true, Ordering::Acquire, Ordering::Relaxed).is_ok(),
                ),
                LockAction::ReadFlag => LockEvent::Held(self.locked.load(Ordering::Relaxed)),
                LockAction::SpinThenReadFlag => {
                    spin_hint();
                    LockEvent::Held(self.locked.load(Ordering::Relaxed))
                },
            };
            let ghost before = lock_measure(spins, action);
            let (s2, a2) = lock_step(spins, ev);
            proof {
                assert(lock_measure(s2, a2) < before);
            }
            spins = s2;
            action = a2;
        }
    }

    /// Releases the lock.
    pub fn unlock(&self) {
        self.locked.store(false, Ordering::Release);
    }
}

/// A spin-then-yield helper for polling loops: it counts spins and says when the budget
/// of 100 is spent.
pub struct Backoff {
    spins: u32,
}

impl Backoff {
    /// The spins counted so far.
    pub closed spec fn spins(&self) -> u32 {
        self.spins
    }

    pub fn new() -> (r: Self)
        ensures
            r.spins() == 0,
    {
        Backoff { spins: 0 }
    }

    /// Emits a spin hint and counts it.
    pub fn snooze(&mut self)
        requires
            old(self).spins() < u32::MAX,
        ensures
            final(self).spins() == old(self).spins() + 1,
    {
        spin_hint();
        self.spins = self.spins + 1;
    }

    /// Whether more than 100 spins were counted.
    pub fn is_completed(&self) -> (r: bool)
        ensures
            r == (self.spins() > 100),
    {
        self.spins > 100
    }
}

impl Default for Backoff {
    fn default() -> (r: Self)
        ensures
            r.spins() == 0,
    {
        Backoff::new()
    }
}

/// The word of an empty mailbox.
pub const MAILBOX_EMPTY: u32 = u32::MAX;

/// Whether a mailbox word read as `word` is empty, so that a push may claim it.
pub fn mailbox_is_empty(word: u32) -> (r: bool)
    ensures
        r == (word == MAILBOX_EMPTY),
{
    word == MAILBOX_EMPTY
}

/// What a pop that swapped `word` out of the mailbox gives: the value, or `None` for the
/// empty word.
pub fn mailbox_take(word: u32) -> (r: Option<u32>)
    ensures
        r == (if word == MAILBOX_EMPTY { None } else { Some(word) }),
{
    if word == MAILBOX_EMPTY {
        None
    } else {
        Some(word)
    }
}

/// What a push of `data` gives from the word read and, when the box read empty, whether
/// the compare-exchange from empty to `data` won.
pub fn mailbox_push_outcome(word: u32, claimed: bool, data: u32) -> (r: Result<(), u32>)
    ensures
        r == (if word == MAILBOX_EMPTY && claimed { Ok::<(), u32>(()) } else { Err(data) }),
{
    if word == MAILBOX_EMPTY && claimed {
        Ok(())
    } else {
        Err(data)
    }
}

/// A one-value mailbox in an atomic 32-bit word; `u32::MAX` marks it empty.
pub struct AtomicMailboxU32 {
    state: AtomicU32,
}

impl AtomicMailboxU32 {
    /// An empty mailbox.
    pub fn new() -> (r: Self) {
        AtomicMailboxU32 { state: AtomicU32::new(u32::MAX) }
    }

    /// Puts `data` in an empty mailbox; hands it back as `Err` when the box is full.
    pub fn try_push(&self, data: u32) -> (r: Result<(), u32>)
        ensures
            r matches Err(d) ==> d == data,
    {
        let current = self.state.load(Ordering::Acquire);
        if !mailbox_is_empty(current) {
            return mailbox_push_outcome(current, false, data);
        }
        let claimed = self.state.compare_exchange(MAILBOX_EMPTY, data, Ordering::Release, Ordering::Relaxed).is_ok();
        mailbox_push_outcome(current, claimed, data)
    }

    /// Takes the value out, leaving the box empty; `None` when it was empty.
    pub fn try_pop(&self) -> (r: Option<u32>)
        ensures
            r matches Some(v) ==> v != u32::MAX,
    {
        let current = self.state.swap(MAILBOX_EMPTY, Ordering::Acquire);
        mailbox_take(current)
    }
}

impl Default for AtomicMailboxU32 {
    fn default() -> (r: Self) {
        AtomicMailboxU32::new()
    }
}

/// A value padded out to a cache line (64 bytes), against false sharing.
#[derive(Default, Debug, Clone, Copy)]
pub struct CachePadded<T> {
    pub value: T,
}

} // verus!
