//! A small pseudo-random generator (Xoshiro256**) seeded through SplitMix64, built on
//! bit operations alone.
use vstd::prelude::*;

verus! {

/// One SplitMix64 output for the state `x` (used to spread a seed).
pub open spec fn splitmix64(x: u64) -> u64 {
    let s = x.wrapping_add(0x9e3779b97f4a7c15u64);
    let z1 = (s ^ (s >> 30u64)).wrapping_mul(0xbf58476d1ce4e5b9u64);
    let z2 = (z1 ^ (z1 >> 27u64)).wrapping_mul(0x94d049bb133111ebu64);
    z2 ^ (z2 >> 31u64)
}

/// `x` rotated left by `k` bits, `0 < k < 64`.
pub open spec fn rotl_spec(x: u64, k: u64) -> u64 {
    (x << k) | (x >> ((64 - k) as u64))
}

/// The output of Xoshiro256** for the state `s`.
pub open spec fn xoshiro_output(s: Seq<u64>) -> u64 {
    rotl_spec(s[1].wrapping_mul(5u64), 7).wrapping_mul(9u64)
}

/// The state after one step of Xoshiro256**.
pub open spec fn xoshiro_step(s: Seq<u64>) -> Seq<u64> {
    let t = s[1] << 17u64;
    let s2 = s[2] ^ s[0];
    let s3 = s[3] ^ s[1];
    let s1 = s[1] ^ s2;
    let s0 = s[0] ^ s3;
    seq![s0, s1, s2 ^ t, rotl_spec(s3, 45)]
}

/// Whether all four words of a state are zero (the one state the generator must avoid).
pub open spec fn all_zero(s: Seq<u64>) -> bool {
    s[0] == 0 && s[1] == 0 && s[2] == 0 && s[3] == 0
}

/// The state a seed gives: SplitMix64 of the seed and the next three numbers, with the
/// first word set to 1 should all four be zero.
pub open spec fn xoshiro_seed(seed: u64) -> Seq<u64> {
    let a = seq![
        splitmix64(seed),
        splitmix64(seed.wrapping_add(1u64)),
        splitmix64(seed.wrapping_add(2u64)),
        splitmix64(seed.wrapping_add(3u64)),
    ];
    if all_zero(a) {
        seq![1u64, 0u64, 0u64, 0u64]
    } else {
        a
    }
}

fn splitmix64_next_seed(state: u64) -> (r: u64)
    ensures
        r == splitmix64(state),
{
    let state = state.wrapping_add(0x9e3779b97f4a7c15);
    let mut z = state;
    z = (z ^ (z >> 30u64)).wrapping_mul(0xbf58476d1ce4e5b9);
    z = (z ^ (z >> 27u64)).wrapping_mul(0x94d049bb133111eb);
    z ^ (z >> 31u64)
}

fn rotl(x: u64, k: u64) -> (r: u64)
    requires
        0 < k < 64,
    ensures
        r == rotl_spec(x, k),
{
    (x << k) | (x >> (64 - k))
}

/// A step never leads to the all-zero state from another one.
pub proof fn lemma_step_nonzero(s: Seq<u64>)
    requires
        s.len() == 4,
        !all_zero(s),
    ensures
        !all_zero(xoshiro_step(s)),
        xoshiro_step(s).len() == 4,
{
    let (a, b, c, d) = (s[0], s[1], s[2], s[3]);
    let n = xoshiro_step(s);
    assert(n[0] == a ^ (d ^ b) && n[1] == b ^ (c ^ a) && n[2] == (c ^ a) ^ (b << 17u64)
        && n[3] == rotl_spec(d ^ b, 45));
    let (n0, n1, n2, n3) = (n[0], n[1], n[2], n[3]);
    assert(n0 == 0 && n1 == 0 && n2 == 0 && n3 == 0 ==> a == 0 && b == 0 && c == 0 && d == 0)
        by (bit_vector)
        requires
            n0 == a ^ (d ^ b),
            n1 == b ^ (c ^ a),
            n2 == (c ^ a) ^ (b << 17u64),
            n3 == (((d ^ b) << 45u64) | ((d ^ b) >> 19u64)),
    ;
}

/// The Xoshiro256** generator. Its state is never all zeros.
pub struct Xoshiro256StarStar {
    s: [u64; 4],
}

impl Xoshiro256StarStar {
    /// The four state words.
    pub closed spec fn state(&self) -> Seq<u64> {
        self.s@
    }

    #[verifier::type_invariant]
    spec fn nonzero(&self) -> bool {
        !all_zero(self.s@)
    }

    /// A generator seeded from `seed` through SplitMix64.
    pub fn new(seed: u64) -> (r: Self)
        ensures
            r.state() == xoshiro_seed(seed),
            r.state().len() == 4,
            !all_zero(r.state()),
    {
        let mut s = [
            splitmix64_next_seed(seed),
            splitmix64_next_seed(seed.wrapping_add(1)),
            splitmix64_next_seed(seed.wrapping_add(2)),
            splitmix64_next_seed(seed.wrapping_add(3)),
        ];
        if s[0] == 0 && s[1] == 0 && s[2] == 0 && s[3] == 0 {
            s[0] = 1;
        }
        proof {
            assert(s@ =~= xoshiro_seed(seed));
        }
        Xoshiro256StarStar { s }
    }

    /// The next 64-bit output; the state takes one step.
    pub fn next_u64(&mut self) -> (r: u64)
        ensures
            r == xoshiro_output(old(self).state()),
            final(self).state() == xoshiro_step(old(self).state()),
            final(self).state().len() == 4,
            !all_zero(old(self).state()),
            !all_zero(final(self).state()),
    {
        proof {
            use_type_invariant(&*self);
        }
        let s = self.s;
        let ghost s0 = s@;
        proof {
            lemma_step_nonzero(s0);
        }
        let result = rotl(s[1].wrapping_mul(5), 7).wrapping_mul(9);
        let t = s[1] << 17u64;
        let s2 = s[2] ^ s[0];
        let s3 = s[3] ^ s[1];
        let s1 = s[1] ^ s2;
        let n0 = s[0] ^ s3;
        let next = [n0, s1, s2 ^ t, rotl(s3, 45)];
        proof {
            assert(next@ =~= xoshiro_step(s0));
        }
        self.s = next;
        result
    }

    /// A random boolean: the low bit of the next output.
    pub fn next_bool(&mut self) -> (r: bool)
        ensures
            r == (xoshiro_output(old(self).state()) & 1 == 1),
            final(self).state() == xoshiro_step(old(self).state()),
    {
        self.next_u64() & 1 == 1
    }
}

} // verus!
