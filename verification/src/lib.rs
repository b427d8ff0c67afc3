//! Solver for systems of "begins-with" equations over words of symbols with a
//! single unknown word.
//!
//! A word begins with another if the other is a prefix of it. Each equation
//! relates two words, one of which may start with the unknown `X`:
//! `X a b.w. b` (subordinate), `a b.w. X b` (dominant) or `a b.w. b` (fixed).
//! The solver finds every value of `X` that makes all equations hold, as a
//! list of candidates: a forced prefix, and whether an arbitrary tail may
//! follow it.
//!
//! - [`word`]: words and the begins-with relation.
//! - [`system`]: the mathematical model of a system and of its solution set.
//! - [`heads`]: what the candidate heads of one solving step demand.
//! - [`correctness`]: the solution set stands for exactly the solutions.
//! - [`problem`]: the system as the solver holds it, and the solver.
//! - [`equation`]: the kinds of equation and how a problem is built up.
//! - [`text`], [`reader`]: reading a problem from lines of text.
//! - [`render`]: writing a result as lines of text.

pub mod correctness;
pub mod equation;
pub mod heads;
pub mod problem;
pub mod reader;
pub mod render;
pub mod system;
pub mod text;
pub mod word;
