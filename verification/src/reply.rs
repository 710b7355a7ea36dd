//! The three shapes of input and what each is answered with.

use crate::arith::{follows, total, Operation, Table};
use crate::ast::{build, build_ast};
use crate::error::Error;
use crate::eval::{evaluable, evaluate, evaluate_ast, settled};
use crate::graph::{graph, graph_of, Point, SAMPLES};
use crate::tokens::{blank, lex, lexemes_of, tokenize, Lexeme, Token};
use std::collections::VecDeque;
use vstd::prelude::*;

verus! {

/// What an input is answered with.
#[derive(Debug, PartialEq)]
pub enum Reply<N> {
    /// The input asks for the usage message.
    Help,
    /// The value of an expression.
    Value(N),
    /// The points of an equation, by rising sample.
    Points(Vec<Point<N>>),
}

/// The mathematical value of a [`Reply`].
pub enum Outcome<N> {
    Help,
    Value(N),
    Points(Seq<Point<N>>),
}

impl<N> View for Reply<N> {
    type V = Outcome<N>;

    open spec fn view(&self) -> Outcome<N> {
        match self {
            Reply::Help => Outcome::Help,
            Reply::Value(v) => Outcome::Value(*v),
            Reply::Points(points) => Outcome::Points(points@),
        }
    }
}

/// The tokens are the one token `help`.
pub open spec fn asks_help<N>(tokens: Seq<Lexeme<N>>) -> bool {
    tokens.len() == 1 && tokens[0] is Help
}

/// The tokens begin with `graph(`.
pub open spec fn asks_graph<N>(tokens: Seq<Lexeme<N>>) -> bool {
    tokens.len() > 0 && tokens[0] is Graph
}

/// The result of an evaluation as the answer to an input.
pub open spec fn value_outcome<N>(out: Result<N, Error>) -> Result<Outcome<N>, Error> {
    match out {
        Ok(v) => Ok(Outcome::Value(v)),
        Err(e) => Err(e),
    }
}

/// The answer to a sequence of tokens. The one token `help` asks for the
/// usage message. Tokens that begin with `graph(` are an equation to graph.
/// Any other tokens are an expression to build and to evaluate.
pub open spec fn outcome_of<N>(tokens: Seq<Lexeme<N>>, table: Table<N>) -> Result<Outcome<N>, Error> {
    if asks_help(tokens) {
        Ok(Outcome::Help)
    } else if asks_graph(tokens) {
        match graph_of(tokens, table) {
            Ok(points) => Ok(Outcome::Points(points)),
            Err(e) => Err(e),
        }
    } else {
        match build(tokens) {
            Err(e) => Err(e),
            Ok(tree) => value_outcome(evaluate(tree, table)),
        }
    }
}

/// The answer to a text: that of its tokens, or the error that kept it from
/// having tokens.
pub open spec fn outcome<N>(s: Seq<char>, table: Table<N>) -> Result<Outcome<N>, Error> {
    match lex(s, table) {
        Err(e) => Err(e),
        Ok(tokens) => outcome_of(tokens, table),
    }
}

/// What `r` says of an input that was to be answered with `expected`.
pub open spec fn reply_result<N>(r: Result<Reply<N>, Error>, expected: Result<Outcome<N>, Error>) -> bool {
    match r {
        Ok(reply) => expected == Ok::<Outcome<N>, Error>(reply@),
        Err(e) => expected == Err::<Outcome<N>, Error>(e),
    }
}

/// Answers a sequence of tokens with the arithmetic `ops`. Whatever the
/// arithmetic answers: help is given exactly for the one token `help`; points
/// are given only to tokens that begin with `graph(`, and 100 of them; a
/// value is given only to tokens that build an expression which can have
/// one; and the tokens of an expression are answered with the error of their
/// construction, or with the settled result of their tree.
pub fn respond<N: Copy, F: Fn(Operation<N>) -> Option<N>>(tokens: VecDeque<Token<N>>, ops: &F) -> (r:
    Result<Reply<N>, Error>)
    requires
        total(ops),
    ensures
        forall|table: Table<N>|
            follows(ops, table) ==> reply_result(
                r,
                #[trigger] outcome_of(lexemes_of(tokens@), table),
            ),
        asks_help(lexemes_of(tokens@)) <==> (r matches Ok(reply) && reply is Help),
        r matches Ok(Reply::Points(points)) ==> points@.len() == SAMPLES && asks_graph(
            lexemes_of(tokens@),
        ),
        r matches Ok(Reply::Value(_)) ==> (build(lexemes_of(tokens@)) matches Ok(tree)
            && evaluable(tree)),
        !asks_help(lexemes_of(tokens@)) && !asks_graph(lexemes_of(tokens@)) ==> match build(
            lexemes_of(tokens@),
        ) {
            Err(e) => r matches Err(x) && x == e,
            Ok(tree) => settled(tree) matches Some(out) ==> reply_result(r, value_outcome(out)),
        },
{
    let asks_help = tokens.len() == 1 && match tokens[0] {
        Token::Help => true,
        _ => false,
    };
    let asks_graph = tokens.len() > 0 && match tokens[0] {
        Token::Graph => true,
        _ => false,
    };
    if asks_help {
        Ok(Reply::Help)
    } else if asks_graph {
        let points = graph(tokens, ops);
        match points {
            Ok(points) => Ok(Reply::Points(points)),
            Err(e) => Err(e),
        }
    } else {
        match build_ast(tokens) {
            Err(e) => Err(e),
            Ok(tree) => {
                let value = evaluate_ast(tree, ops);
                let r = match value {
                    Ok(v) => Ok(Reply::Value(v)),
                    Err(e) => Err(e),
                };
                proof {
                    assert forall|table: Table<N>| follows(ops, table) implies reply_result(
                        r,
                        #[trigger] outcome_of(lexemes_of(tokens@), table),
                    ) by {
                        assert(value == evaluate(tree@, table));
                    }
                }
                r
            },
        }
    }
}

/// Answers one text with the arithmetic `ops`: an expression with its value,
/// `graph(left=right)` with 100 points, `help` with the request for the usage
/// message, and anything else with the error that refused it. Whatever the
/// arithmetic answers, a blank text is refused as empty input and a graph
/// has 100 points.
pub fn reply<N: Copy, F: Fn(Operation<N>) -> Option<N>>(input: String, ops: &F) -> (r: Result<
    Reply<N>,
    Error,
>)
    requires
        total(ops),
    ensures
        forall|table: Table<N>|
            follows(ops, table) ==> reply_result(r, #[trigger] outcome(input@, table)),
        blank(input@) ==> (r matches Err(e) && e == Error::EmptyInput),
        r matches Ok(Reply::Points(points)) ==> points@.len() == SAMPLES,
{
    let tokens = tokenize(input, ops);
    match tokens {
        Err(e) => Err(e),
        Ok(tokens) => {
            let r = respond(tokens, ops);
            proof {
                assert forall|table: Table<N>| follows(ops, table) implies reply_result(
                    r,
                    #[trigger] outcome(input@, table),
                ) by {
                    assert(lex(input@, table) == Ok::<Seq<Lexeme<N>>, Error>(lexemes_of(tokens@)));
                    assert(reply_result(r, outcome_of(lexemes_of(tokens@), table)));
                }
            }
            r
        },
    }
}

} // verus!
