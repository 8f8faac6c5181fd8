use vstd::prelude::*;
use crate::bitmap_sched::{bit_set, bit_is_set};

verus! {

/// Slot `t` of a pool is taken: bit `t % 64` of bitmap word `t / 64` is set.
pub open spec fn slot_used(bitmap: Seq<u64>, t: int) -> bool {
    bit_set(bitmap[t / 64], t % 64)
}

/// The slot a pool of `capacity` slots hands out next: its lowest free slot, if that is
/// below the capacity; `None` when every slot below the capacity is taken.
pub fn pool_free_slot(bitmap: &[u64], capacity: usize) -> (r: Option<usize>)
    requires
        capacity <= bitmap.len() * 64,
        bitmap.len() * 64 <= usize::MAX,
    ensures
        r matches Some(s) ==> s < capacity && !slot_used(bitmap@, s as int)
            && forall|t: int| 0 <= t < s ==> #[trigger] slot_used(bitmap@, t),
        r is None ==> forall|t: int| 0 <= t < capacity ==> #[trigger] slot_used(bitmap@, t),
{
    let mut i: usize = 0;
    while i < bitmap.len()
        invariant
            i <= bitmap.len(),
            capacity <= bitmap.len() * 64,
            bitmap.len() * 64 <= usize::MAX,
            forall|t: int| 0 <= t < i * 64 ==> #[trigger] slot_used(bitmap@, t),
        decreases bitmap.len() - i,
    {
        let word = bitmap[i];
        let mut j: usize = 64;
        if word != u64::MAX {
            j = 0;
            while j < 64
                invariant
                    j <= 64,
                    forall|b: int| 0 <= b < j ==> #[trigger] bit_set(word, b),
                ensures
                    j <= 64,
                    forall|b: int| 0 <= b < j ==> #[trigger] bit_set(word, b),
                    j < 64 ==> !bit_set(word, j as int),
                decreases 64 - j,
            {
                if !bit_is_set(word, j) {
                    break;
                }
                j = j + 1;
            }
        } else {
            assert forall|b: int| 0 <= b < 64 implies #[trigger] bit_set(word, b) by {
                let bu = b as u64;
                assert((word >> bu) & 1u64 == 1u64) by (bit_vector)
                    requires word == u64::MAX, bu < 64;
            }
        }
        assert(i * 64 + 64 <= bitmap.len() * 64) by (nonlinear_arith)
            requires i < bitmap.len();
        if j < 64 {
            let slot = i * 64 + j;
            assert(!bit_set(word, j as int));
            assert forall|t: int| 0 <= t < slot implies #[trigger] slot_used(bitmap@, t) by {
                if t >= i * 64 {
                    assert(t / 64 == i);
                    assert(bit_set(word, t % 64));
                }
            }
            assert(slot / 64 == i && slot % 64 == j);
            if slot < capacity {
                return Some(slot);
            }
            assert forall|t: int| 0 <= t < capacity implies #[trigger] slot_used(bitmap@, t) by {}
            return None;
        }
        assert forall|t: int| 0 <= t < (i + 1) * 64 implies #[trigger] slot_used(bitmap@, t) by {
            if t >= i * 64 {
                assert(t / 64 == i);
                assert(bit_set(word, t % 64));
            }
        }
        i = i + 1;
    }
    None
}

/// Whether slot `index` of a pool of `capacity` slots is taken: never for an index at or
/// past the capacity.
pub fn pool_slot_used(bitmap: &[u64], capacity: usize, index: usize) -> (r: bool)
    requires
        capacity <= bitmap.len() * 64,
    ensures
        r == (index < capacity && slot_used(bitmap@, index as int)),
{
    if index >= capacity {
        return false;
    }
    bit_is_set(bitmap[index / 64], index % 64)
}

} // verus!
