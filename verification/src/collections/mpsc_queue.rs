use vstd::prelude::*;

verus! {

/// A slot holds nothing.
pub const SLOT_EMPTY: u8 = 0;

/// Spins a producer waits on a busy slot before it gives up.
pub const PUSH_SPIN_LIMIT: u32 = 10_000;

/// Where a producer of a bounded ring of `N` slots stands in one `push`: the tail it
/// tries to claim and the spins spent on a busy slot.
#[derive(Clone, Copy, Debug, PartialEq, Eq)]
pub struct PushAttempt {
    pub tail: usize,
    pub spins: u32,
}

/// What the producer read since its last step.
#[derive(Clone, Copy, Debug, PartialEq, Eq)]
pub enum PushEvent {
    /// The consumer's head.
    Head(usize),
    /// The state of the slot at the tail.
    SlotState(u8),
    /// The shared tail, read again because the slot was busy.
    TailAgain(usize),
    /// The head, read again because the tail had not moved.
    HeadAgain(usize),
    /// Claiming the tail failed: another producer moved it here.
    ClaimFailed(usize),
}

/// What the producer does next.
#[derive(Clone, Copy, Debug, PartialEq, Eq)]
pub enum PushAction {
    ReadHead,
    /// Read the state of this slot.
    ReadSlot(usize),
    ReadTailAgain,
    ReadHeadAgain,
    /// Yield the processor once, then read the head.
    SpinThenReadHead,
    /// Move the shared tail from this value to the next, then write the slot.
    Claim(usize),
    /// Hand the item back: the ring is full, or the slot stayed busy too long.
    GiveUp,
}

/// The ring looks full: the producer is a whole ring ahead of the consumer.
pub open spec fn ring_full(tail: usize, head: usize, capacity: usize) -> bool {
    tail.wrapping_sub(head) >= capacity
}

/// The attempt to push at the shared tail `tail`, before anything else is read.
pub fn push_start(tail: usize) -> (r: (PushAttempt, PushAction))
    ensures
        r.0 == (PushAttempt { tail: tail, spins: 0 }),
        r.1 == PushAction::ReadHead,
{
    (PushAttempt { tail, spins: 0 }, PushAction::ReadHead)
}

/// One decision of a producer on a ring of `N` slots (a power of two): from what it just
/// read, the new attempt and what to do next.
pub fn push_step<const N: usize>(at: PushAttempt, ev: PushEvent) -> (r: (PushAttempt, PushAction))
    requires
        N > 0,
        at.spins <= PUSH_SPIN_LIMIT,
    ensures
        r.0.spins <= PUSH_SPIN_LIMIT,
        match ev {
            PushEvent::Head(head) => r.0 == at && r.1 == if ring_full(at.tail, head, N) {
                PushAction::GiveUp
            } else {
                PushAction::ReadSlot(at.tail & ((N - 1) as usize))
            },
            PushEvent::SlotState(state) => r.0 == at && r.1 == if state != SLOT_EMPTY {
                PushAction::ReadTailAgain
            } else {
                PushAction::Claim(at.tail)
            },
            PushEvent::TailAgain(actual) => if actual == at.tail {
                r.0 == at && r.1 == PushAction::ReadHeadAgain
            } else {
                r.0 == (PushAttempt { tail: actual, spins: at.spins }) && r.1 == PushAction::ReadHead
            },
            PushEvent::HeadAgain(head) => if ring_full(at.tail, head, N) || at.spins >= PUSH_SPIN_LIMIT {
                r.0 == at && r.1 == PushAction::GiveUp
            } else {
                r.0 == (PushAttempt { tail: at.tail, spins: (at.spins + 1) as u32 })
                    && r.1 == PushAction::SpinThenReadHead
            },
            PushEvent::ClaimFailed(actual) => r.0 == (PushAttempt { tail: actual, spins: at.spins })
                && r.1 == PushAction::ReadHead,
        },
{
    match ev {
        PushEvent::Head(head) => {
            if at.tail.wrapping_sub(head) >= N {
                (at, PushAction::GiveUp)
            } else {
                (at, PushAction::ReadSlot(at.tail & (N - 1)))
            }
        },
        PushEvent::SlotState(state) => {
            if state != SLOT_EMPTY {
                (at, PushAction::ReadTailAgain)
            } else {
                (at, PushAction::Claim(at.tail))
            }
        },
        PushEvent::TailAgain(actual) => {
            if actual == at.tail {
                (at, PushAction::ReadHeadAgain)
            } else {
                (PushAttempt { tail: actual, spins: at.spins }, PushAction::ReadHead)
            }
        },
        PushEvent::HeadAgain(head) => {
            if at.tail.wrapping_sub(head) >= N || at.spins >= PUSH_SPIN_LIMIT {
                (at, PushAction::GiveUp)
            } else {
                (PushAttempt { tail: at.tail, spins: at.spins + 1 }, PushAction::SpinThenReadHead)
            }
        },
        PushEvent::ClaimFailed(actual) => (PushAttempt { tail: actual, spins: at.spins }, PushAction::ReadHead),
    }
}

} // verus!
