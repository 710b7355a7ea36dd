//! An arithmetic expression engine.
//!
//! A text is split into tokens ([`tokens`]), the tokens are built into an
//! expression tree with conventional operator precedence ([`ast`]), and the
//! tree is reduced to a number ([`eval`]). An equation in two variables,
//! written `graph(left=right)`, is sampled into 100 points of the plane by
//! isolating one variable ([`graph`]). [`reply`] takes a text through the
//! whole of it.
//!
//! The engine never computes with numbers itself. It is generic in the number
//! type `N` and takes the arithmetic from its caller, as a function from an
//! [`arith::Operation`] to an optional number; [`arith`] says how a contract
//! speaks of such a function. What holds of the engine beyond the contracts of
//! its functions is proved in [`laws`].

pub mod arith;
pub mod ast;
pub mod error;
pub mod eval;
pub mod graph;
pub mod laws;
pub mod reply;
pub mod tokens;
