# no_std_tool

Building blocks for bare-metal Rust, verified with Verus.

`src/` is the verified library:

- `bignum`: 256-bit unsigned integers — limb arithmetic, the full 512-bit product,
  division, Montgomery reduction, modular exponentiation, Miller-Rabin, hexadecimal
  parsing and digits; each stated over the number a value stands for. The number theory
  behind the primality test (Euclid's lemma, the binomial theorem, Fermat's little
  theorem) is proved there too, down to the law that a prime always passes.
- `compress`: ZigZag, LEB128, delta, delta-of-delta and run-length stream encoders, with
  the decoders' round-trip laws.
- `scriptgo_vm`: a register VM with its instruction encoding and an assembler; one step of
  the machine is specified instruction by instruction, and a run as the sequence of steps.
  Handlers are reached through a verified `RecordingHost`, which records everything that
  passes (calls, instructions shown to the debug hook, abort answers, f32 results and
  comparisons, the state a hardware or neural handler leaves the VM in); each step's
  effect is stated in terms of what was recorded, and a run's log equals what the host
  recorded.
- `vec101`: the data layout and the ternary-weight row kernels (GEMV and GEMM, the scalar
  ones and the positive-minus-negative forms of the vector kernels), written safely.
- `math`: fixed-point approximations of exp, 1/sqrt and SiLU.
- `random`, `debug`, `allocator`, `bitmap_sched`, `sync`, `collections`, `dualcache`:
  a Xoshiro256** generator, lifecycle counters, a bump arena, a 64-task ready bitmap,
  a bounded spinlock and small atomics, a Bloom filter with its no-false-negatives law,
  and the decisions of the lock-free queue, the hash map's probes and a slot pool's
  search, each a verified function of the values read.

`app/` holds what stays outside the proofs: the global counters and the tracking
allocator, the mutex guards over shared data, the raw-slot queue, the generic hash map,
the f32 linear algebra and liquid-network step, machine entropy, serde forms, macros.
