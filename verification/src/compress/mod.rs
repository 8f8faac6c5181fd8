//! Time-series compression: ZigZag to map signed integers to small unsigned ones,
//! LEB128 to pack them into as few bytes as their size needs, and delta, delta-of-delta
//! and run-length stream encoders built on top.
pub mod leb128;
pub mod rle;
pub mod series;
pub mod stream;
pub mod zigzag;
