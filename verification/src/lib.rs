//! The big-M simplex method for linear programmes of the form
//! `optimise c·x subject to A x <= b, A_eq x = b_eq, x >= 0`, on a tableau
//! of any number type whose arithmetic and order the caller supplies.
//!
//! - `field`: the number type: constants, operations, order keys.
//! - `matrix`: dense matrices and the ways the tableau is put together.
//! - `tableau`: the initial big-M tableau.
//! - `simplex`: pivot choice, pivoting and the basis.
//! - `laws`: properties that relate the operations.
pub mod field;
pub mod matrix;
pub mod tableau;
pub mod simplex;
pub mod laws;
