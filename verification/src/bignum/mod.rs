pub mod hex;
pub mod inverse;
pub mod lemmas;
pub mod modular;
pub mod number_theory;
pub mod montgomery;
pub mod ops;
pub mod order;
pub mod parse;
pub mod prime;
pub mod residue;
pub mod u256;
pub mod wide;
