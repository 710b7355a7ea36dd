//! The arithmetic that the caller supplies, and how contracts speak of it.
//!
//! The engine works on numbers of any type `N` and computes nothing with them
//! itself. Whatever it needs computed it asks of a function `ops` that the
//! caller hands in, one [`Operation`] at a time; the answer `None` says that
//! the operation has no value on its operands.
//!
//! A contract cannot name the number that `ops` will answer with. It speaks of
//! a [`Table`] instead, a mathematical function from requests to answers, and
//! states the result for every table that `ops` [`follows`]. An arithmetic
//! that answers equal requests equally follows the table of its answers, so
//! for it every such contract fixes the result.

use crate::ast::BinaryOperation;
use crate::error::Error;
use vstd::prelude::*;

verus! {

/// The built-in functions of exactly one argument.
#[derive(Clone, Copy, Debug, PartialEq, Eq, Structural)]
pub enum UnaryFunction {
    Sin,
    Cos,
    Tan,
    Asin,
    Acos,
    Atan,
    Sec,
    Csc,
    Cot,
    Ln,
    Abs,
    Factorial,
}

/// The built-in functions of any number of arguments, in any order.
#[derive(Clone, Copy, Debug, PartialEq, Eq, Structural)]
pub enum AggregateFunction {
    Sum,
    Average,
    Min,
    Max,
    Median,
    StandardDeviation,
}

/// One computation that the engine asks of the arithmetic.
#[derive(Debug, PartialEq)]
pub enum Operation<N> {
    /// The number that a decimal literal denotes: digits, optionally followed
    /// by a point and more digits.
    Literal(String),
    /// The number that an integer denotes.
    Integer(i64),
    /// The operator applied to a left and a right operand.
    Binary(BinaryOperation, N, N),
    /// The operand with its sign changed.
    Negate(N),
    /// A function of one argument applied to it.
    Function(UnaryFunction, N),
    /// A function of many arguments applied to them.
    Aggregate(AggregateFunction, Vec<N>),
}

/// What an [`Operation`] asks for, as a mathematical value.
pub enum Request<N> {
    Literal(Seq<char>),
    Integer(int),
    Binary(BinaryOperation, N, N),
    Negate(N),
    Function(UnaryFunction, N),
    Aggregate(AggregateFunction, Seq<N>),
}

impl<N> View for Operation<N> {
    type V = Request<N>;

    open spec fn view(&self) -> Request<N> {
        match self {
            Operation::Literal(text) => Request::Literal(text@),
            Operation::Integer(i) => Request::Integer(*i as int),
            Operation::Binary(op, a, b) => Request::Binary(*op, *a, *b),
            Operation::Negate(a) => Request::Negate(*a),
            Operation::Function(f, a) => Request::Function(*f, *a),
            Operation::Aggregate(f, v) => Request::Aggregate(*f, v@),
        }
    }
}

/// A mathematical account of an arithmetic: the answer to each request, or
/// `None` where the arithmetic is undefined.
pub type Table<N> = spec_fn(Request<N>) -> Option<N>;

/// The arithmetic `ops` may be asked anything.
pub open spec fn total<N, F: Fn(Operation<N>) -> Option<N>>(ops: &F) -> bool {
    forall|op: Operation<N>| #[trigger] ops.requires((op,))
}

/// Whatever the arithmetic `ops` answers is the answer that `table` gives.
pub open spec fn follows<N, F: Fn(Operation<N>) -> Option<N>>(ops: &F, table: Table<N>) -> bool {
    forall|op: Operation<N>, out: Option<N>| #[trigger]
        ops.ensures((op,), out) ==> out == table(op@)
}

/// The answer of `table` as a result: an undefined answer is a domain error.
pub open spec fn answer<N>(table: Table<N>, request: Request<N>) -> Result<N, Error> {
    match table(request) {
        Some(v) => Ok(v),
        None => Err(Error::Domain),
    }
}

/// An answer of the arithmetic as a result: no answer is a domain error.
pub open spec fn answered<N>(out: Option<N>) -> Result<N, Error> {
    match out {
        Some(v) => Ok(v),
        None => Err(Error::Domain),
    }
}

/// The number `v` is an answer that the arithmetic `ops` gives to `op`.
pub open spec fn answers<N, F: Fn(Operation<N>) -> Option<N>>(ops: &F, op: Operation<N>, v: N) -> bool {
    ops.ensures((op,), Some(v))
}

/// Asks the arithmetic for one computation. The result is an answer that the
/// arithmetic gives to `op`, and so the answer of every table that the
/// arithmetic follows.
pub fn ask<N, F: Fn(Operation<N>) -> Option<N>>(ops: &F, op: Operation<N>) -> (r: Result<
    N,
    Error,
>)
    requires
        total(ops),
    ensures
        exists|out: Option<N>| #[trigger] ops.ensures((op,), out) && r == answered(out),
        r matches Ok(v) ==> answers(ops, op, v),
        forall|table: Table<N>| follows(ops, table) ==> r == #[trigger] answer(table, op@),
{
    match ops(op) {
        Some(v) => Ok(v),
        None => Err(Error::Domain),
    }
}

} // verus!
