pub mod rational;
pub mod terms;
pub mod linear_comb;
pub mod euclid;
pub mod ast;
pub mod benchmarking;
pub mod checker;
pub mod elaborator;
pub mod lia_generic;
pub mod error;
pub mod linear_arithmetic;
