//! A ready-queue for up to 64 tasks held in one atomic 64-bit bitmap, with round-robin
//! selection of the next ready task.
use vstd::prelude::*;
use vstd::std_specs::bits::{u64_trailing_zeros, axiom_u64_trailing_zeros};
use vstd::arithmetic::power2::pow2;
use vstd::bits::low_bits_mask;
use core::sync::atomic::{AtomicU64, Ordering};

verus! {

/// Task `i` is marked ready in `bitmap`.
pub open spec fn bit_set(bitmap: u64, i: int) -> bool {
    (bitmap >> (i as u64)) & 1u64 == 1u64
}

/// The number of ready tasks in `bitmap`.
pub open spec fn popcount(x: u64) -> nat
    decreases x,
{
    if x == 0 {
        0
    } else {
        (x % 2) as nat + popcount(x / 2)
    }
}

/// Whether task `task_id` (below 64) is marked in `bitmap`.
pub fn bit_is_set(bitmap: u64, task_id: usize) -> (r: bool)
    requires
        task_id < 64,
    ensures
        r == bit_set(bitmap, task_id as int),
{
    let t = task_id as u64;
    let r = (bitmap & (1u64 << t)) != 0;
    assert(r == ((bitmap >> t) & 1u64 == 1u64)) by (bit_vector)
        requires t < 64, r == ((bitmap & (1u64 << t)) != 0);
    r
}

/// The next ready task after `current_task_id` in round-robin order: the lowest marked
/// task above it, or, if there is none, the lowest marked task; `None` if none is marked.
pub fn next_ready_after(bitmap: u64, current_task_id: usize) -> (r: Option<usize>)
    ensures
        (r is None) == (bitmap == 0),
        r matches Some(t) ==> t < 64 && bit_set(bitmap, t as int),
        r matches Some(t) ==> (exists|i: int| current_task_id < i < 64 && #[trigger] bit_set(bitmap, i))
            ==> current_task_id < t && forall|i: int| current_task_id < i < t ==> !#[trigger] bit_set(bitmap, i),
        r matches Some(t) ==> !(exists|i: int| current_task_id < i < 64 && #[trigger] bit_set(bitmap, i))
            ==> forall|i: int| 0 <= i < t ==> !#[trigger] bit_set(bitmap, i),
{
    if bitmap == 0 {
        return None;
    }
    let mask: u64 = if current_task_id >= 63 {
        0
    } else {
        let c1 = (current_task_id as u64) + 1;
        proof {
            vstd::bits::lemma_u64_pow2_no_overflow(c1 as nat);
            vstd::bits::lemma_u64_shl_is_mul(1u64, c1);
            vstd::arithmetic::power2::lemma_pow2_pos(c1 as nat);
        }
        let low: u64 = (1u64 << c1) - 1;
        !low
    };
    let masked = bitmap & mask;
    assert forall|i: int| 0 <= i < 64 implies #[trigger] bit_set(masked, i)
        == (current_task_id < i && bit_set(bitmap, i)) by {
        let iu = i as u64;
        if current_task_id >= 63 {
            assert((masked >> iu) & 1u64 == 0u64) by (bit_vector)
                requires masked == bitmap & 0u64;
        } else {
            let c = current_task_id as u64;
            let c1 = (c + 1) as u64;
            let low: u64 = ((1u64 << c1) - 1) as u64;
            assert(mask == !low);
            assert(((masked >> iu) & 1u64 == 1u64) == (c < iu && (bitmap >> iu) & 1u64 == 1u64)) by (bit_vector)
                requires masked == bitmap & !low, low + 1 == (1u64 << c1), c1 == c + 1, c < 63, iu < 64;
        }
    }
    proof {
        axiom_u64_trailing_zeros(masked);
        axiom_u64_trailing_zeros(bitmap);
    }
    if masked != 0 {
        let t = masked.trailing_zeros();
        proof {
            assert(bit_set(masked, t as int));
            assert forall|i: int| current_task_id < i < t implies !#[trigger] bit_set(bitmap, i) by {
                assert((masked >> (i as u64)) & 1u64 == 0u64);
                assert(!bit_set(masked, i));
            }
        }
        Some(t as usize)
    } else {
        let t = bitmap.trailing_zeros();
        proof {
            assert forall|i: int| current_task_id < i < 64 implies !#[trigger] bit_set(bitmap, i) by {
                let iu = i as u64;
                lemma_bit_set_div(0, i as nat);
                vstd::arithmetic::power2::lemma_pow2_pos(i as nat);
                assert(!bit_set(masked, i));
            }
            assert forall|i: int| 0 <= i < t implies !#[trigger] bit_set(bitmap, i) by {
                assert((bitmap >> (i as u64)) & 1u64 == 0u64);
            }
        }
        Some(t as usize)
    }
}

/// The number of set bits of `x`.
pub fn count_ones_u64(x: u64) -> (r: u32)
    ensures
        r == popcount(x),
        r <= 64,
{
    let mut v = x;
    let mut n: u32 = 0;
    let mut k: u32 = 0;
    proof {
        vstd::arithmetic::power2::lemma2_to64();
        vstd::arithmetic::power2::lemma2_to64_rest();
    }
    while v != 0
        invariant
            popcount(x) == n + popcount(v),
            k <= 64,
            n <= k,
            v < vstd::arithmetic::power2::pow2((64 - k) as nat),
        decreases v,
    {
        proof {
            vstd::arithmetic::power2::lemma2_to64();
            if k == 64 {
                assert(v < 1);
            }
            vstd::arithmetic::power2::lemma_pow2_unfold((64 - k) as nat);
        }
        n = n + (v % 2) as u32;
        v = v / 2;
        k = k + 1;
    }
    n
}

/// The bitmap with only task `task_id` (below 64) marked.
pub fn task_mask(task_id: usize) -> (r: u64)
    requires
        task_id < 64,
    ensures
        r == 1u64 << (task_id as u64),
        forall|i: int| 0 <= i < 64 ==> #[trigger] bit_set(r, i) == (i == task_id),
{
    let t = task_id as u64;
    let r = 1u64 << t;
    assert forall|i: int| 0 <= i < 64 implies #[trigger] bit_set(r, i) == (i == task_id) by {
        let iu = i as u64;
        assert(((r >> iu) & 1u64 == 1u64) == (iu == t)) by (bit_vector)
            requires r == 1u64 << t, t < 64, iu < 64;
    }
    r
}

proof fn lemma_update_bit(bitmap: u64, t: u64, iu: u64)
    requires
        t < 64,
        iu < 64,
    ensures
        (((bitmap | (1u64 << t)) >> iu) & 1u64 == 1u64) == (iu == t || (bitmap >> iu) & 1u64 == 1u64),
        (((bitmap & !(1u64 << t)) >> iu) & 1u64 == 1u64) == (iu != t && (bitmap >> iu) & 1u64 == 1u64),
{
    assert((((bitmap | (1u64 << t)) >> iu) & 1u64 == 1u64) == (iu == t || (bitmap >> iu) & 1u64 == 1u64)
        && (((bitmap & !(1u64 << t)) >> iu) & 1u64 == 1u64) == (iu != t && (bitmap >> iu) & 1u64 == 1u64))
        by (bit_vector)
        requires t < 64, iu < 64;
}

/// Marking task `task_id` ready ORs its mask into the bitmap: that task becomes ready and
/// every other task keeps its state. Unmarking ANDs the complement of the mask: that task
/// becomes not ready, and every other task keeps its state.
pub proof fn lemma_ready_set_update(bitmap: u64, task_id: usize)
    requires
        task_id < 64,
    ensures
        forall|i: int| 0 <= i < 64 ==> #[trigger] bit_set(bitmap | (1u64 << (task_id as u64)), i)
            == (i == task_id || bit_set(bitmap, i)),
        forall|i: int| 0 <= i < 64 ==> #[trigger] bit_set(bitmap & !(1u64 << (task_id as u64)), i)
            == (i != task_id && bit_set(bitmap, i)),
{
    let t = task_id as u64;
    assert forall|i: int| 0 <= i < 64 implies #[trigger] bit_set(bitmap | (1u64 << (task_id as u64)), i)
        == (i == task_id || bit_set(bitmap, i)) by {
        lemma_update_bit(bitmap, t, i as u64);
    }
    assert forall|i: int| 0 <= i < 64 implies #[trigger] bit_set(bitmap & !(1u64 << (task_id as u64)), i)
        == (i != task_id && bit_set(bitmap, i)) by {
        lemma_update_bit(bitmap, t, i as u64);
    }
}

/// How many of the tasks below `n` are marked ready in `bitmap`.
pub open spec fn ready_below(bitmap: u64, n: nat) -> nat
    decreases n,
{
    if n == 0 {
        0
    } else {
        ready_below(bitmap, (n - 1) as nat) + if bit_set(bitmap, n - 1) { 1nat } else { 0nat }
    }
}

/// Task `i`'s bit is bit `i` of the number.
proof fn lemma_bit_set_div(x: u64, i: nat)
    requires
        i < 64,
    ensures
        bit_set(x, i as int) == ((x as nat / pow2(i)) % 2 == 1),
{
    let y = x >> (i as u64);
    vstd::bits::lemma_u64_shr_is_div(x, i as u64);
    vstd::bits::lemma_u64_low_bits_mask_is_mod(y, 1);
    vstd::arithmetic::power2::lemma2_to64();
    assert(low_bits_mask(1) == 1);
}

/// Dropping the lowest bit moves every other task down by one.
proof fn lemma_ready_below_halves(x: u64, n: nat)
    requires
        n < 64,
    ensures
        ready_below(x, n + 1) == (x % 2) as nat + ready_below((x / 2) as u64, n),
    decreases n,
{
    vstd::arithmetic::power2::lemma2_to64();
    if n == 0 {
        lemma_bit_set_div(x, 0);
        assert(x as nat / pow2(0) == x);
        assert(ready_below(x, 0) == 0);
        assert(ready_below(x, 1) == ready_below(x, 0) + if bit_set(x, 0) { 1nat } else { 0nat });
    } else {
        let m = (n - 1) as nat;
        lemma_ready_below_halves(x, m);
        lemma_bit_set_div(x, n);
        lemma_bit_set_div((x / 2) as u64, m);
        vstd::arithmetic::power2::lemma_pow2_unfold(n);
        vstd::arithmetic::power2::lemma_pow2_pos(m);
        vstd::arithmetic::div_mod::lemma_div_denominator(x as int, 2, pow2(m) as int);
        assert(x as nat / pow2(n) == (x as nat / 2) / pow2(m));
    }
}

/// No task below `n` is ready in the empty bitmap.
proof fn lemma_ready_below_zero(n: nat)
    requires
        n <= 64,
    ensures
        ready_below(0, n) == 0,
    decreases n,
{
    if n > 0 {
        lemma_ready_below_zero((n - 1) as nat);
        lemma_bit_set_div(0, (n - 1) as nat);
        vstd::arithmetic::power2::lemma_pow2_pos((n - 1) as nat);
    }
}

/// The number of set bits of a bitmap is the number of tasks it marks ready, so
/// `count_ready` counts the ready tasks.
pub proof fn lemma_popcount_counts_ready(x: u64)
    ensures
        popcount(x) == ready_below(x, 64),
    decreases x,
{
    if x == 0 {
        lemma_ready_below_zero(64);
    } else {
        let h = (x / 2) as u64;
        lemma_popcount_counts_ready(h);
        lemma_ready_below_halves(x, 63);
        lemma_bit_set_div(h, 63);
        vstd::arithmetic::power2::lemma2_to64_rest();
        assert(h as nat / pow2(63) == 0);
        assert(ready_below(h, 64) == ready_below(h, 63) + if bit_set(h, 63) { 1nat } else { 0nat });
    }
}

/// A ready-queue of up to 64 tasks as a 64-bit bitmap, shared between threads.
pub struct BitmapScheduler {
    ready_queue: AtomicU64,
}

impl BitmapScheduler {
    /// No task ready.
    pub fn new() -> (r: Self) {
        BitmapScheduler { ready_queue: AtomicU64::new(0) }
    }

    /// Marks a task ready; ids of 64 and above are ignored.
    pub fn set_ready(&self, task_id: usize) {
        if task_id < 64 {
            self.ready_queue.fetch_or(task_mask(task_id), Ordering::Release);
        }
    }

    /// Marks a task not ready; ids of 64 and above are ignored.
    pub fn clear_ready(&self, task_id: usize) {
        if task_id < 64 {
            self.ready_queue.fetch_and(!task_mask(task_id), Ordering::Release);
        }
    }

    /// Whether a task is marked ready (never for ids of 64 and above).
    pub fn is_ready(&self, task_id: usize) -> (r: bool)
        ensures
            task_id >= 64 ==> !r,
    {
        if task_id < 64 {
            bit_is_set(self.ready_queue.load(Ordering::Acquire), task_id)
        } else {
            false
        }
    }

    /// The next ready task after `current_task_id`, round robin, as `next_ready_after`
    /// finds it in the bitmap read.
    pub fn get_next_ready(&self, current_task_id: usize) -> (r: Option<usize>)
        ensures
            r matches Some(t) ==> t < 64,
    {
        let bitmap = self.ready_queue.load(Ordering::Acquire);
        next_ready_after(bitmap, current_task_id)
    }

    /// The number of tasks marked ready.
    pub fn count_ready(&self) -> (r: u32)
        ensures
            r <= 64,
    {
        count_ones_u64(self.ready_queue.load(Ordering::Relaxed))
    }
}

impl Default for BitmapScheduler {
    fn default() -> (r: Self) {
        BitmapScheduler::new()
    }
}

} // verus!
