//! Pell's equation x^2 - N*y^2 = 1 solved by the Chakravala (cyclic) method,
//! over arbitrary-precision integers.
//!
//! - `bignum`: the integer type and the arithmetic it borrows from `num_bigint`;
//! - `multiplier`: the search for the multiplier m of one step;
//! - `solver`: the driver `solve_pell`, its mathematical model, and the laws
//!   that the iteration obeys.
pub mod bignum;
pub mod error;
pub mod multiplier;
pub mod solver;
