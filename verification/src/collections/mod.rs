//! Collections for `no_std` code: a lock-free Bloom filter, the slot type of the hash
//! map and its probe decisions, the decisions of a producer on a bounded ring, and the
//! slot search of a bitmap-indexed pool.
pub mod bloom;
pub mod flat_map;
pub mod mpsc_queue;
pub mod slot_pool;
