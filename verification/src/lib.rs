//! Data preparation for a least-squares model of book sales, with proofs.
//!
//! A table of sales records arrives as text. This library takes it, step by
//! step, to the text of the numbers that a regression is fitted on:
//!
//! - [`cleaning`] trims every name and value and drops the rows that lack a
//!   required value;
//! - [`publishers`] groups the ratings by publisher, so that the caller can
//!   average them, and writes each publisher's average back into its rows;
//! - [`extract`] projects the rows onto the feature columns and the target
//!   column, in a fixed column order, and can hand the rows out shuffled;
//! - [`number`] decides whether text is a number, so that a row that is not
//!   numeric is reported with its position and column;
//! - [`record`], [`schema`], [`shape`] and [`text`] hold what the steps share.
//!
//! The library holds no floating-point arithmetic. Averages, standard scores,
//! the normal equations and the error metrics are computed by the caller on
//! the text that the library has found to be numeric.

pub mod cleaning;
pub mod extract;
pub mod number;
pub mod publishers;
pub mod record;
pub mod schema;
pub mod shape;
pub mod text;
