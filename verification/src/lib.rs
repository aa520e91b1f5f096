//! Exact rational arithmetic and a solver for polynomial equations of degree
//! at most two, with machine-checked contracts.

pub mod complex;
pub mod decimal;
pub mod display;
pub mod math;
pub mod polynomial;
pub mod ratio;
pub mod rational;
pub mod root;
pub mod scan;
pub mod sign;
pub mod single;
pub mod solve;
