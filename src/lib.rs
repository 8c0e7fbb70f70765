//! A rule-based 9x9 number-place engine: a deductive solver, a validator,
//! a full-grid generator and a puzzle-masking generator.
//!
//! A grid is a `Vec<Vec<i32>>` of nine rows of nine cells; `0` is a blank and
//! `1..=9` a placed digit. Every executable function is specified against the
//! spec functions of its module, and the solver as a whole against
//! [`solver::settle`].

pub mod grid;
pub mod candidates;
pub mod elimination;
pub mod solver;
pub mod validator;
pub mod random;
pub mod pattern;
pub mod masking;
