use vstd::prelude::*;
use core::sync::atomic::{AtomicU64, Ordering};
use ahash::RandomState;
use crate::bitmap_sched::{count_ones_u64, popcount};

verus! {

#[verifier::external_type_specification]
#[verifier::external_body]
pub struct ExRandomState(ahash::RandomState);

/// Calls `ahash::RandomState::new`, which seeds a hasher state with fresh random keys;
/// nothing is claimed of the keys.
#[verifier::external_body]
fn new_random_state() -> (r: RandomState) {
    RandomState::new()
}

/// Calls `ahash::RandomState::hash_one` on `item`; the digest depends on the state's random
/// keys, so nothing is claimed of it.
#[verifier::external_body]
fn hash_with<T: core::hash::Hash>(state: &RandomState, item: &T) -> (r: u64) {
    state.hash_one(item)
}

/// Bit position `i` (of the four) that a digest selects among `num_bits`: double hashing
/// `h1 + i * h2` over the digest's two 32-bit halves, wrapping in 32 bits.
pub open spec fn probe_index(hash: u64, i: u32, num_bits: nat) -> nat {
    let h1 = (hash % 0x1_0000_0000) as u32;
    let h2 = (hash / 0x1_0000_0000) as u32;
    (h1.wrapping_add(i.wrapping_mul(h2)) as nat) % num_bits
}

/// The word and the bit mask of probe `i` for a digest, in a filter of `num_bits` bits.
pub fn probe(hash: u64, i: u32, num_bits: usize) -> (r: (usize, u64))
    requires
        num_bits > 0,
    ensures
        r.0 == probe_index(hash, i, num_bits as nat) / 64,
        r.1 == 1u64 << ((probe_index(hash, i, num_bits as nat) % 64) as u64),
        probe_index(hash, i, num_bits as nat) < num_bits,
{
    let h1 = hash as u32;
    let h2 = (hash >> 32u64) as u32;
    assert(h1 == (hash % 0x1_0000_0000) as u32 && h2 == (hash / 0x1_0000_0000) as u32) by (bit_vector)
        requires h1 == hash as u32, h2 == (hash >> 32u64) as u32;
    let combined = h1.wrapping_add(i.wrapping_mul(h2)) as usize;
    let bit_idx = combined % num_bits;
    let shift = (bit_idx % 64) as u64;
    (bit_idx / 64, 1u64 << shift)
}

/// The number of set bits of a word.
fn word_ones(w: u64) -> (r: usize)
    ensures
        r == popcount(w),
        r <= 64,
{
    count_ones_u64(w) as usize
}

/// Bit `k` of a filter's words: bit `k % 64` of word `k / 64`.
pub open spec fn word_bit(ws: Seq<u64>, k: nat) -> bool {
    ws[(k / 64) as int] & (1u64 << ((k % 64) as u64)) != 0u64
}

/// Whether a word read for probe `i` of a digest has that probe's bit set.
pub open spec fn probe_hit(word: u64, hash: u64, i: u32, num_bits: nat) -> bool {
    word & (1u64 << ((probe_index(hash, i, num_bits) % 64) as u64)) != 0u64
}

/// All four bits a digest selects are set in the words `ws`.
pub open spec fn probes_set(ws: Seq<u64>, hash: u64, num_bits: nat) -> bool {
    forall|i: u32| i < 4 ==> #[trigger] word_bit(ws, probe_index(hash, i, num_bits))
}

/// The words with the bit of probe `i` of a digest set.
pub open spec fn with_probe(ws: Seq<u64>, hash: u64, i: u32, num_bits: nat) -> Seq<u64> {
    let k = probe_index(hash, i, num_bits);
    ws.update((k / 64) as int, ws[(k / 64) as int] | (1u64 << ((k % 64) as u64)))
}

/// The words after inserting a digest: the bits of its four probes set, in turn.
pub open spec fn bloom_insert_spec(ws: Seq<u64>, hash: u64, num_bits: nat) -> Seq<u64> {
    with_probe(with_probe(with_probe(with_probe(ws, hash, 0, num_bits), hash, 1, num_bits), hash, 2, num_bits), hash, 3, num_bits)
}

proof fn lemma_or_bits(w: u64, s: u64, t: u64)
    requires
        s < 64,
        t < 64,
    ensures
        (w | (1u64 << s)) & (1u64 << s) != 0u64,
        w & (1u64 << t) != 0u64 ==> (w | (1u64 << s)) & (1u64 << t) != 0u64,
{
    assert((w | (1u64 << s)) & (1u64 << s) != 0u64 && (w & (1u64 << t) != 0u64 ==> (w | (1u64 << s)) & (1u64
        << t) != 0u64)) by (bit_vector)
        requires s < 64, t < 64;
}

/// Setting a probe's bit sets it and keeps every bit that was set.
proof fn lemma_with_probe(ws: Seq<u64>, hash: u64, i: u32, num_bits: nat, k: nat)
    requires
        num_bits > 0,
        ws.len() * 64 == num_bits,
        k < num_bits,
    ensures
        with_probe(ws, hash, i, num_bits).len() == ws.len(),
        word_bit(with_probe(ws, hash, i, num_bits), probe_index(hash, i, num_bits)),
        word_bit(ws, k) ==> word_bit(with_probe(ws, hash, i, num_bits), k),
{
    let p = probe_index(hash, i, num_bits);
    let w2 = with_probe(ws, hash, i, num_bits);
    assert(p < num_bits);
    assert(p / 64 < ws.len()) by (nonlinear_arith)
        requires p < num_bits, num_bits == ws.len() * 64;
    assert(k / 64 < ws.len()) by (nonlinear_arith)
        requires k < num_bits, num_bits == ws.len() * 64;
    lemma_or_bits(ws[(p / 64) as int], (p % 64) as u64, (p % 64) as u64);
    lemma_or_bits(ws[(p / 64) as int], (p % 64) as u64, (k % 64) as u64);
}

/// An inserted item is always found: after its insertion, and after any insertion that
/// follows, all four of its bits are set, whatever the digests.
pub proof fn lemma_bloom_no_false_negatives(ws: Seq<u64>, hash: u64, other: u64, num_bits: nat)
    requires
        num_bits > 0,
        ws.len() * 64 == num_bits,
    ensures
        bloom_insert_spec(ws, hash, num_bits).len() == ws.len(),
        probes_set(bloom_insert_spec(ws, hash, num_bits), hash, num_bits),
        probes_set(ws, hash, num_bits) ==> probes_set(bloom_insert_spec(ws, other, num_bits), hash, num_bits),
{
    let w1 = with_probe(ws, hash, 0, num_bits);
    let w2 = with_probe(w1, hash, 1, num_bits);
    let w3 = with_probe(w2, hash, 2, num_bits);
    let w4 = with_probe(w3, hash, 3, num_bits);
    assert forall|i: u32| i < 4 implies #[trigger] word_bit(w4, probe_index(hash, i, num_bits)) by {
        let k = probe_index(hash, i, num_bits);
        lemma_with_probe(ws, hash, 0, num_bits, k);
        lemma_with_probe(w1, hash, 1, num_bits, k);
        lemma_with_probe(w2, hash, 2, num_bits, k);
        lemma_with_probe(w3, hash, 3, num_bits, k);
    }
    let o1 = with_probe(ws, other, 0, num_bits);
    let o2 = with_probe(o1, other, 1, num_bits);
    let o3 = with_probe(o2, other, 2, num_bits);
    if probes_set(ws, hash, num_bits) {
        assert forall|i: u32| i < 4 implies #[trigger] word_bit(bloom_insert_spec(ws, other, num_bits), probe_index(hash, i, num_bits)) by {
            let k = probe_index(hash, i, num_bits);
            assert(word_bit(ws, k));
            lemma_with_probe(ws, other, 0, num_bits, k);
            lemma_with_probe(o1, other, 1, num_bits, k);
            lemma_with_probe(o2, other, 2, num_bits, k);
            lemma_with_probe(o3, other, 3, num_bits, k);
        }
    }
    lemma_with_probe(ws, hash, 0, num_bits, 0);
    lemma_with_probe(w1, hash, 1, num_bits, 0);
    lemma_with_probe(w2, hash, 2, num_bits, 0);
    lemma_with_probe(w3, hash, 3, num_bits, 0);
}

/// Reading probe `i`'s word from the words `ws` and testing its bit tells whether that
/// bit is set in `ws`.
pub proof fn lemma_probe_hit(ws: Seq<u64>, hash: u64, i: u32, num_bits: nat)
    requires
        num_bits > 0,
        ws.len() * 64 == num_bits,
    ensures
        probe_hit(ws[(probe_index(hash, i, num_bits) / 64) as int], hash, i, num_bits)
            == word_bit(ws, probe_index(hash, i, num_bits)),
{
}

/// Whether the four words read for a digest's probes (word `i` for probe `i`) all have
/// their probe's bit set.
pub fn probes_all_set(hash: u64, num_bits: usize, loaded: &[u64]) -> (r: bool)
    requires
        num_bits > 0,
        loaded.len() == 4,
    ensures
        r == forall|i: u32| i < 4 ==> #[trigger] probe_hit(loaded@[i as int], hash, i, num_bits as nat),
{
    let mut i: u32 = 0;
    while i < 4
        invariant
            num_bits > 0,
            loaded.len() == 4,
            i <= 4,
            forall|j: u32| j < i ==> #[trigger] probe_hit(loaded@[j as int], hash, j, num_bits as nat),
        decreases 4 - i,
    {
        let (_, mask) = probe(hash, i, num_bits);
        let w = loaded[i as usize];
        if w & mask == 0 {
            assert(!probe_hit(loaded@[i as int], hash, i, num_bits as nat));
            return false;
        }
        i = i + 1;
    }
    true
}

/// The number of set bits in all of `ws`.
pub open spec fn ones_total(ws: Seq<u64>) -> nat
    decreases ws.len(),
{
    if ws.len() == 0 {
        0
    } else {
        ones_total(ws.drop_last()) + popcount(ws.last())
    }
}

/// The number of set bits in the words read.
pub fn total_ones(ws: &[u64]) -> (r: usize)
    requires
        ws.len() * 64 <= usize::MAX,
    ensures
        r == ones_total(ws@),
        r <= ws.len() * 64,
{
    let mut count: usize = 0;
    let mut k: usize = 0;
    while k < ws.len()
        invariant
            k <= ws.len(),
            ws.len() * 64 <= usize::MAX,
            count == ones_total(ws@.subrange(0, k as int)),
            count <= k * 64,
        decreases ws.len() - k,
    {
        let ones = word_ones(ws[k]);
        proof {
            let t = ws@.subrange(0, k + 1);
            assert(t.drop_last() =~= ws@.subrange(0, k as int));
            assert(t.last() == ws@[k as int]);
        }
        count = count + ones;
        k = k + 1;
    }
    assert(ws@.subrange(0, ws.len() as int) =~= ws@);
    count
}

/// A lock-free Bloom filter of `N` 64-bit words (`N * 64` bits). Each item sets, and is
/// looked up by, four bits chosen by double hashing one AHash digest.
pub struct SimpleBloom<const N: usize> {
    bits: Vec<AtomicU64>,
    hash_builder: RandomState,
}

impl<const N: usize> SimpleBloom<N> {
    /// The number of words.
    pub closed spec fn num_words(&self) -> nat {
        self.bits@.len()
    }

    #[verifier::type_invariant]
    spec fn sized(&self) -> bool {
        &&& self.bits.len() == N
        &&& N * 64 <= usize::MAX
    }

    /// An empty filter with freshly seeded hashing.
    pub fn new() -> (r: Self)
        requires
            N * 64 <= usize::MAX,
        ensures
            r.num_words() == N,
    {
        let mut bits: Vec<AtomicU64> = Vec::new();
        let mut k: usize = 0;
        while k < N
            invariant
                k <= N,
                bits.len() == k,
            decreases N - k,
        {
            bits.push(AtomicU64::new(0));
            k = k + 1;
        }
        SimpleBloom { bits, hash_builder: new_random_state() }
    }

    /// A new filter on the heap.
    pub fn new_boxed() -> (r: Box<Self>)
        requires
            N * 64 <= usize::MAX,
        ensures
            r.num_words() == N,
    {
        Box::new(Self::new())
    }

    /// A new filter shared by reference counting.
    pub fn new_arc() -> (r: std::sync::Arc<Self>)
        requires
            N * 64 <= usize::MAX,
        ensures
            r.num_words() == N,
    {
        std::sync::Arc::new(Self::new())
    }

    /// The number of bits, `N * 64`.
    pub fn total_bits(&self) -> (r: usize)
        ensures
            r == N * 64,
    {
        proof {
            use_type_invariant(self);
        }
        N * 64
    }

    /// Sets the four bits of `item`.
    pub fn insert<T: core::hash::Hash>(&self, item: &T)
        requires
            N > 0,
    {
        proof {
            use_type_invariant(self);
        }
        let hash = hash_with(&self.hash_builder, item);
        let num_bits = self.total_bits();
        let mut i: u32 = 0;
        while i < 4
            invariant
                N > 0,
                num_bits == N * 64,
                self.bits.len() == N,
            decreases 4 - i,
        {
            let (word, mask) = probe(hash, i, num_bits);
            self.bits[word].fetch_or(mask, Ordering::Relaxed);
            i = i + 1;
        }
    }

    /// Whether all four bits of `item` are set: `false` means it was never inserted,
    /// `true` that it possibly was. The four probed words are read, and `probes_all_set`
    /// decides on them.
    pub fn contains<T: core::hash::Hash>(&self, item: &T) -> (r: bool)
        requires
            N > 0,
    {
        proof {
            use_type_invariant(self);
        }
        let hash = hash_with(&self.hash_builder, item);
        let num_bits = self.total_bits();
        let mut loaded: Vec<u64> = Vec::new();
        let mut i: u32 = 0;
        while i < 4
            invariant
                N > 0,
                num_bits == N * 64,
                self.bits.len() == N,
                loaded.len() == i,
                i <= 4,
            decreases 4 - i,
        {
            let (word, _) = probe(hash, i, num_bits);
            loaded.push(self.bits[word].load(Ordering::Relaxed));
            i = i + 1;
        }
        probes_all_set(hash, num_bits, loaded.as_slice())
    }

    /// The number of set bits, as `total_ones` counts them in the words read one by one
    /// (a snapshot under concurrent use).
    pub fn count_set_bits(&self) -> (r: usize)
        ensures
            r <= N * 64,
    {
        proof {
            use_type_invariant(self);
        }
        let mut words: Vec<u64> = Vec::new();
        let mut k: usize = 0;
        while k < self.bits.len()
            invariant
                k <= self.bits.len(),
                self.bits.len() == N,
                words.len() == k,
            decreases self.bits.len() - k,
        {
            words.push(self.bits[k].load(Ordering::Relaxed));
            k = k + 1;
        }
        total_ones(words.as_slice())
    }

    /// Resets every bit to 0, word by word.
    pub fn clear(&self) {
        let mut k: usize = 0;
        while k < self.bits.len()
            invariant
                k <= self.bits.len(),
            decreases self.bits.len() - k,
        {
            self.bits[k].store(0, Ordering::Relaxed);
            k = k + 1;
        }
    }
}

} // verus!
