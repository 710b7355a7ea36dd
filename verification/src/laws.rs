//! What holds of the engine for every input, proved from the definitions of
//! the other modules.

use crate::arith::{answer, Request, Table, UnaryFunction};
use crate::ast::{
    build, build_from, close, collect, combine, finish, group, join, negation, rebalance, shift,
    BinaryOperation, Expr, Marker, UnaryOperation,
};
use crate::error::{Error, ErrorKind};
use crate::eval::{builtin, evaluable, evaluate, evaluate_each, settled, Builtin};
use crate::graph::{
    graph_of, left_of_equal, lemma_occurrences_in_none, lemma_occurrences_in_same, occurrences,
    plot, point_at, reduce, reduce_each, right_of_equal, sample, unwrapped, variables, Point,
};
use crate::tokens::{
    blank, digits, is_space, lemma_runs_end, lex, lex_from, number_length, word_at, Lexeme,
};
use vstd::prelude::*;

verus! {

/// The operands of the chain of binary operators at the root of `e`, from left
/// to right. A node that is no binary node is one operand.
pub open spec fn operands<N>(e: Expr<N>) -> Seq<Expr<N>>
    decreases e,
{
    match e {
        Expr::Binary { left, right, .. } => operands(*left) + operands(*right),
        _ => seq![e],
    }
}

/// The operators of the chain of binary operators at the root of `e`, each
/// with its priority, from left to right.
pub open spec fn operators<N>(e: Expr<N>) -> Seq<(BinaryOperation, u64)>
    decreases e,
{
    match e {
        Expr::Binary { priority, operation, left, right } => operators(*left) + seq![
            (operation, priority),
        ] + operators(*right),
        _ => Seq::empty(),
    }
}

/// Down the left spine of `e` no binary node has a priority above that of its
/// left child: the weakest operator is at the root.
pub open spec fn left_ordered<N>(e: Expr<N>) -> bool
    decreases e,
{
    match e {
        Expr::Binary { priority, left, .. } => {
            &&& left_ordered(*left)
            &&& match *left {
                Expr::Binary { priority: q, .. } => priority <= q,
                _ => true,
            }
        },
        _ => true,
    }
}

/// The priority correction reorders nothing: the new node holds the operands
/// of `left` followed by those of `right`, and between the operators of the
/// two its own.
pub proof fn lemma_join_keeps_order<N>(
    priority: u64,
    operation: BinaryOperation,
    left: Expr<N>,
    right: Expr<N>,
)
    ensures
        operands(join(priority, operation, left, right)) == operands(left) + operands(right),
        operators(join(priority, operation, left, right)) == operators(left) + seq![
            (operation, priority),
        ] + operators(right),
    decreases left,
{
    match left {
        Expr::Binary { priority: q, operation: inner, left: far, right: near } => {
            if priority > q {
                lemma_join_keeps_order(priority, operation, *near, right);
                assert(operands(*far) + (operands(*near) + operands(right)) =~= (operands(*far)
                    + operands(*near)) + operands(right));
                assert(operators(*far) + seq![(inner, q)] + (operators(*near) + seq![
                    (operation, priority),
                ] + operators(right)) =~= (operators(*far) + seq![(inner, q)] + operators(*near))
                    + seq![(operation, priority)] + operators(right));
            }
        },
        _ => {},
    }
}

/// The priority correction leaves no stronger operator above a weaker one on
/// the left spine, where there was none in `left`.
pub proof fn lemma_join_orders<N>(
    priority: u64,
    operation: BinaryOperation,
    left: Expr<N>,
    right: Expr<N>,
)
    requires
        left_ordered(left),
    ensures
        left_ordered(join(priority, operation, left, right)),
{
}

/// The priority correction at the root changes nothing in a tree whose left
/// spine is in order.
pub proof fn lemma_rebalance_keeps_ordered<N>(e: Expr<N>)
    requires
        left_ordered(e),
    ensures
        rebalance(e) == e,
{
}

/// A second priority correction changes nothing: where the left operand of a
/// binary node has its left spine in order, the corrected node is corrected.
pub proof fn lemma_rebalance_idempotent<N>(
    priority: u64,
    operation: BinaryOperation,
    left: Expr<N>,
    right: Expr<N>,
)
    requires
        left_ordered(left),
    ensures
        rebalance(join(priority, operation, left, right)) == join(priority, operation, left, right),
{
    lemma_join_orders(priority, operation, left, right);
    lemma_rebalance_keeps_ordered(join(priority, operation, left, right));
}

/// The lowest priority among the operators of the chain of binary operators
/// at the root of `e`, and a number above every priority where `e` is no
/// binary node.
pub open spec fn weakest<N>(e: Expr<N>) -> int
    decreases e,
{
    match e {
        Expr::Binary { priority, left, right, .. } => {
            let below = if weakest(*left) <= weakest(*right) {
                weakest(*left)
            } else {
                weakest(*right)
            };
            if priority <= below {
                priority as int
            } else {
                below
            }
        },
        _ => u64::MAX + 1,
    }
}

/// The chain of binary operators at the root of `e` has the shape of
/// conventional precedence with association to the left: beneath each
/// operator, no operator to its left is weaker than it, and every operator to
/// its right is stronger.
pub open spec fn precedence_shaped<N>(e: Expr<N>) -> bool
    decreases e,
{
    match e {
        Expr::Binary { priority, left, right, .. } => {
            &&& precedence_shaped(*left)
            &&& precedence_shaped(*right)
            &&& priority <= weakest(*left)
            &&& priority < weakest(*right)
        },
        _ => true,
    }
}

/// The priority correction keeps the shape of conventional precedence: a
/// chain of that shape, joined under a new operator with an operand all of
/// whose operators are stronger, is a chain of that shape again, and the
/// weakest of its operators is the new one or the weakest of the old chain.
pub proof fn lemma_join_shapes<N>(
    priority: u64,
    operation: BinaryOperation,
    left: Expr<N>,
    right: Expr<N>,
)
    requires
        precedence_shaped(left),
        precedence_shaped(right),
        priority < weakest(right),
    ensures
        precedence_shaped(join(priority, operation, left, right)),
        weakest(join(priority, operation, left, right)) == if priority <= weakest(left) {
            priority as int
        } else {
            weakest(left)
        },
    decreases left,
{
    match left {
        Expr::Binary { priority: q, right: near, .. } => {
            if priority > q {
                lemma_join_shapes(priority, operation, *near, right);
            }
        },
        _ => {},
    }
}

/// No marker of the construction stands anywhere in `e`.
pub open spec fn finished<N>(e: Expr<N>) -> bool
    decreases e,
{
    match e {
        Expr::Binary { left, right, .. } => finished(*left) && finished(*right),
        Expr::Unary { child, .. } => finished(*child),
        Expr::Number(_) => true,
        Expr::Variable(_) => true,
        Expr::Call { inputs, .. } => forall|i: int|
            0 <= i < inputs.len() ==> finished(#[trigger] inputs[i]),
        Expr::Unfinished(_) => false,
        Expr::Comma => false,
    }
}

/// Every entry of the stack is a marker or a tree without markers.
pub open spec fn clean<N>(stack: Seq<Expr<N>>) -> bool {
    forall|i: int| 0 <= i < stack.len() && (#[trigger] stack[i]).is_value() ==> finished(stack[i])
}

proof fn lemma_join_finished<N>(
    priority: u64,
    operation: BinaryOperation,
    left: Expr<N>,
    right: Expr<N>,
)
    requires
        finished(left),
        finished(right),
    ensures
        finished(join(priority, operation, left, right)),
    decreases left,
{
    match left {
        Expr::Binary { priority: q, right: near, .. } => {
            if priority > q {
                lemma_join_finished(priority, operation, *near, right);
            }
        },
        _ => {},
    }
}

proof fn lemma_clean_push<N>(stack: Seq<Expr<N>>, e: Expr<N>)
    requires
        clean(stack),
        e.is_value() ==> finished(e),
    ensures
        clean(stack.push(e)),
{
}

proof fn lemma_clean_drop<N>(stack: Seq<Expr<N>>)
    requires
        clean(stack),
        stack.len() > 0,
    ensures
        clean(stack.drop_last()),
        stack.last().is_value() ==> finished(stack.last()),
{
}

proof fn lemma_combine_clean<N>(stack: Seq<Expr<N>>)
    requires
        clean(stack),
        stack.len() > 0 ==> stack.last().is_value(),
    ensures
        combine(stack) matches Ok(s) ==> clean(s),
    decreases stack.len(),
{
    if stack.len() > 1 {
        let right = stack.last();
        let op = stack.drop_last().last();
        let rest = stack.drop_last().drop_last();
        lemma_clean_drop(stack);
        lemma_clean_drop(stack.drop_last());
        match op {
            Expr::Comma => {},
            Expr::Unfinished(m) => {
                if m.opens() {
                } else if rest.len() == 0 {
                    assert(finished(negation(right)));
                    assert(clean(seq![negation(right)]));
                    assert(clean(seq![right]));
                } else {
                    lemma_clean_drop(rest);
                    match rest.last() {
                        Expr::Unfinished(_) => {
                            if m is Minus || m is Negate {
                                lemma_clean_push(rest, negation(right));
                                lemma_combine_clean(rest.push(negation(right)));
                            }
                        },
                        Expr::Comma => {},
                        left => match m.operator() {
                            Some((operation, priority)) => {
                                let joined = join(priority, operation, left, right);
                                lemma_join_finished(priority, operation, left, right);
                                lemma_clean_push(rest.drop_last(), joined);
                                lemma_combine_clean(rest.drop_last().push(joined));
                            },
                            None => {},
                        },
                    }
                }
            },
            Expr::Number(_) => {
                if right is Variable {
                    let joined = join(2, BinaryOperation::Times, op, right);
                    lemma_join_finished(2, BinaryOperation::Times, op, right);
                    lemma_clean_push(rest, joined);
                    lemma_combine_clean(rest.push(joined));
                }
            },
            Expr::Binary { .. } => {
                let joined = join(2, BinaryOperation::Times, op, right);
                lemma_join_finished(2, BinaryOperation::Times, op, right);
                lemma_clean_push(rest, joined);
                lemma_combine_clean(rest.push(joined));
            },
            _ => {},
        }
    }
}

proof fn lemma_collect_clean<N>(stack: Seq<Expr<N>>, children: Seq<Expr<N>>)
    requires
        clean(stack),
        forall|i: int| 0 <= i < children.len() ==> finished(#[trigger] children[i]),
    ensures
        collect(stack, children) matches Ok(s) ==> clean(s),
    decreases stack.len(),
{
    if stack.len() >= 2 {
        let val = stack.last();
        let rest = stack.drop_last().drop_last();
        lemma_clean_drop(stack);
        lemma_clean_drop(stack.drop_last());
        if val.is_value() {
            let all = children.push(val);
            assert forall|i: int| 0 <= i < all.len() implies finished(#[trigger] all[i]) by {
                if i < children.len() {
                    assert(all[i] == children[i]);
                }
            }
            match stack.drop_last().last() {
                Expr::Comma => {
                    lemma_collect_clean(rest, all);
                },
                Expr::Unfinished(Marker::Call(name)) => {
                    let call = Expr::Call { name, inputs: all };
                    assert(finished(call));
                    lemma_clean_push(rest, call);
                    lemma_combine_clean(rest.push(call));
                },
                _ => {},
            }
        }
    }
}

proof fn lemma_close_clean<N>(stack: Seq<Expr<N>>)
    requires
        clean(stack),
    ensures
        close(stack) matches Ok(s) ==> clean(s),
{
    if stack.len() >= 2 {
        let val = stack.last();
        let rest = stack.drop_last().drop_last();
        lemma_clean_drop(stack);
        lemma_clean_drop(stack.drop_last());
        if val.is_value() {
            match stack.drop_last().last() {
                Expr::Unfinished(Marker::LeftParen) => {
                    assert(finished(group(val)));
                    lemma_clean_push(rest, group(val));
                    lemma_combine_clean(rest.push(group(val)));
                },
                Expr::Unfinished(Marker::Call(name)) => {
                    let call = Expr::Call { name, inputs: seq![val] };
                    assert(finished(call));
                    lemma_clean_push(rest, call);
                    lemma_combine_clean(rest.push(call));
                },
                Expr::Comma => {
                    lemma_collect_clean(rest, seq![val]);
                },
                _ => {},
            }
        }
    }
}

proof fn lemma_shift_clean<N>(stack: Seq<Expr<N>>, token: Lexeme<N>)
    requires
        clean(stack),
    ensures
        shift(stack, token) matches Ok(s) ==> clean(s),
{
    match token {
        Lexeme::Number(v) => {
            lemma_clean_push(stack, Expr::Number(v));
            lemma_combine_clean(stack.push(Expr::Number(v)));
        },
        Lexeme::Variable(name) => {
            lemma_clean_push(stack, Expr::Variable(name));
            lemma_combine_clean(stack.push(Expr::Variable(name)));
        },
        Lexeme::RightParen => {
            lemma_close_clean(stack);
        },
        Lexeme::LeftParen => {
            lemma_clean_push(stack, Expr::Unfinished(Marker::Times));
            lemma_clean_push(
                stack.push(Expr::Unfinished(Marker::Times)),
                Expr::Unfinished(Marker::LeftParen),
            );
            lemma_clean_push(stack, Expr::Unfinished(Marker::LeftParen));
        },
        _ => {},
    }
}

proof fn lemma_build_from_finished<N>(stack: Seq<Expr<N>>, tokens: Seq<Lexeme<N>>)
    requires
        clean(stack),
    ensures
        build_from(stack, tokens) matches Ok(e) ==> finished(e),
    decreases tokens.len(),
{
    if tokens.len() > 0 {
        lemma_shift_clean(stack, tokens[0]);
        if let Ok(next) = shift(stack, tokens[0]) {
            lemma_build_from_finished(next, tokens.drop_first());
        }
    }
}

/// A tree that was built holds no marker of the construction: no operator
/// that waits for an operand, no open parenthesis, no comma.
pub proof fn lemma_built_is_finished<N>(tokens: Seq<Lexeme<N>>)
    ensures
        build(tokens) matches Ok(e) ==> finished(e),
{
    lemma_build_from_finished(Seq::<Expr<N>>::empty(), tokens);
}

/// Nowhere in `e` does a binary node stand directly above a left child that
/// is a binary node of lower priority: a stronger operator is never above a
/// weaker one on its left, so a product stands inside a sum and not the
/// reverse. What stands in parentheses is a node of its own, and is in order
/// within.
pub open spec fn ordered<N>(e: Expr<N>) -> bool
    decreases e,
{
    match e {
        Expr::Binary { priority, left, right, .. } => {
            &&& ordered(*left)
            &&& ordered(*right)
            &&& match *left {
                Expr::Binary { priority: q, .. } => priority <= q,
                _ => true,
            }
        },
        Expr::Unary { child, .. } => ordered(*child),
        Expr::Call { inputs, .. } => forall|i: int|
            0 <= i < inputs.len() ==> ordered(#[trigger] inputs[i]),
        _ => true,
    }
}

/// Every entry of the stack is in order.
pub open spec fn tidy<N>(stack: Seq<Expr<N>>) -> bool {
    forall|i: int| 0 <= i < stack.len() ==> ordered(#[trigger] stack[i])
}

/// The priority correction joins trees that are in order into one that is in
/// order.
pub proof fn lemma_join_ordered<N>(
    priority: u64,
    operation: BinaryOperation,
    left: Expr<N>,
    right: Expr<N>,
)
    requires
        ordered(left),
        ordered(right),
    ensures
        ordered(join(priority, operation, left, right)),
    decreases left,
{
    match left {
        Expr::Binary { priority: q, right: near, .. } => {
            if priority > q {
                lemma_join_ordered(priority, operation, *near, right);
            }
        },
        _ => {},
    }
}

proof fn lemma_tidy_push<N>(stack: Seq<Expr<N>>, e: Expr<N>)
    requires
        tidy(stack),
        ordered(e),
    ensures
        tidy(stack.push(e)),
{
}

proof fn lemma_tidy_drop<N>(stack: Seq<Expr<N>>)
    requires
        tidy(stack),
        stack.len() > 0,
    ensures
        tidy(stack.drop_last()),
        ordered(stack.last()),
{
}

proof fn lemma_combine_tidy<N>(stack: Seq<Expr<N>>)
    requires
        tidy(stack),
    ensures
        combine(stack) matches Ok(s) ==> tidy(s),
    decreases stack.len(),
{
    if stack.len() > 1 {
        let right = stack.last();
        let op = stack.drop_last().last();
        let rest = stack.drop_last().drop_last();
        lemma_tidy_drop(stack);
        lemma_tidy_drop(stack.drop_last());
        match op {
            Expr::Comma => {},
            Expr::Unfinished(m) => {
                if m.opens() {
                } else if rest.len() == 0 {
                    assert(tidy(seq![negation(right)]));
                    assert(tidy(seq![right]));
                } else {
                    lemma_tidy_drop(rest);
                    match rest.last() {
                        Expr::Unfinished(_) => {
                            if m is Minus || m is Negate {
                                lemma_tidy_push(rest, negation(right));
                                lemma_combine_tidy(rest.push(negation(right)));
                            }
                        },
                        Expr::Comma => {},
                        left => match m.operator() {
                            Some((operation, priority)) => {
                                let joined = join(priority, operation, left, right);
                                lemma_join_ordered(priority, operation, left, right);
                                lemma_tidy_push(rest.drop_last(), joined);
                                lemma_combine_tidy(rest.drop_last().push(joined));
                            },
                            None => {},
                        },
                    }
                }
            },
            Expr::Number(_) => {
                if right is Variable {
                    let joined = join(2, BinaryOperation::Times, op, right);
                    lemma_join_ordered(2, BinaryOperation::Times, op, right);
                    lemma_tidy_push(rest, joined);
                    lemma_combine_tidy(rest.push(joined));
                }
            },
            Expr::Binary { .. } => {
                let joined = join(2, BinaryOperation::Times, op, right);
                lemma_join_ordered(2, BinaryOperation::Times, op, right);
                lemma_tidy_push(rest, joined);
                lemma_combine_tidy(rest.push(joined));
            },
            _ => {},
        }
    }
}

proof fn lemma_collect_tidy<N>(stack: Seq<Expr<N>>, children: Seq<Expr<N>>)
    requires
        tidy(stack),
        tidy(children),
    ensures
        collect(stack, children) matches Ok(s) ==> tidy(s),
    decreases stack.len(),
{
    if stack.len() >= 2 {
        let val = stack.last();
        let rest = stack.drop_last().drop_last();
        lemma_tidy_drop(stack);
        lemma_tidy_drop(stack.drop_last());
        if val.is_value() {
            let all = children.push(val);
            lemma_tidy_push(children, val);
            match stack.drop_last().last() {
                Expr::Comma => {
                    lemma_collect_tidy(rest, all);
                },
                Expr::Unfinished(Marker::Call(name)) => {
                    let call = Expr::Call { name, inputs: all };
                    assert(ordered(call));
                    lemma_tidy_push(rest, call);
                    lemma_combine_tidy(rest.push(call));
                },
                _ => {},
            }
        }
    }
}

proof fn lemma_shift_tidy<N>(stack: Seq<Expr<N>>, token: Lexeme<N>)
    requires
        tidy(stack),
    ensures
        shift(stack, token) matches Ok(s) ==> tidy(s),
{
    match token {
        Lexeme::Number(v) => {
            lemma_tidy_push(stack, Expr::Number(v));
            lemma_combine_tidy(stack.push(Expr::Number(v)));
        },
        Lexeme::Variable(name) => {
            lemma_tidy_push(stack, Expr::Variable(name));
            lemma_combine_tidy(stack.push(Expr::Variable(name)));
        },
        Lexeme::RightParen => {
            if stack.len() >= 2 {
                let val = stack.last();
                let rest = stack.drop_last().drop_last();
                lemma_tidy_drop(stack);
                lemma_tidy_drop(stack.drop_last());
                if val.is_value() {
                    match stack.drop_last().last() {
                        Expr::Unfinished(Marker::LeftParen) => {
                            assert(ordered(group(val)));
                            lemma_tidy_push(rest, group(val));
                            lemma_combine_tidy(rest.push(group(val)));
                        },
                        Expr::Unfinished(Marker::Call(name)) => {
                            let call = Expr::Call { name, inputs: seq![val] };
                            assert(ordered(call));
                            lemma_tidy_push(rest, call);
                            lemma_combine_tidy(rest.push(call));
                        },
                        Expr::Comma => {
                            assert(tidy(seq![val]));
                            lemma_collect_tidy(rest, seq![val]);
                        },
                        _ => {},
                    }
                }
            }
        },
        Lexeme::LeftParen => {
            lemma_tidy_push(stack, Expr::Unfinished(Marker::Times));
            lemma_tidy_push(
                stack.push(Expr::Unfinished(Marker::Times)),
                Expr::Unfinished(Marker::LeftParen),
            );
            lemma_tidy_push(stack, Expr::Unfinished(Marker::LeftParen));
        },
        _ => {},
    }
}

proof fn lemma_build_from_ordered<N>(stack: Seq<Expr<N>>, tokens: Seq<Lexeme<N>>)
    requires
        tidy(stack),
    ensures
        build_from(stack, tokens) matches Ok(e) ==> ordered(e),
    decreases tokens.len(),
{
    if tokens.len() > 0 {
        lemma_shift_tidy(stack, tokens[0]);
        if let Ok(next) = shift(stack, tokens[0]) {
            lemma_build_from_ordered(next, tokens.drop_first());
        }
    }
}

/// Precedence is corrected everywhere in a tree that was built: no binary
/// node of it stands directly above a left child that is a binary node of
/// lower priority.
pub proof fn lemma_built_is_ordered<N>(tokens: Seq<Lexeme<N>>)
    ensures
        build(tokens) matches Ok(e) ==> ordered(e),
{
    lemma_build_from_ordered(Seq::<Expr<N>>::empty(), tokens);
}

impl<N> Lexeme<N> {
    /// One of the six binary operators.
    pub open spec fn is_operator(self) -> bool {
        self is Plus || self is Minus || self is Times || self is Divide || self is Modulus
            || self is Exponent
    }

    /// What the token adds to the number of open groups: 1 for a `(` and for
    /// a function name, which holds its `(`; -1 for a `)`; 0 for any other
    /// token.
    pub open spec fn nesting(self) -> int {
        if self is LeftParen || self is FunctionCall {
            1
        } else if self is RightParen {
            -1
        } else {
            0
        }
    }
}

/// The number of groups that the tokens open and do not close.
pub open spec fn depth<N>(tokens: Seq<Lexeme<N>>) -> int
    decreases tokens.len(),
{
    if tokens.len() == 0 {
        0
    } else {
        depth(tokens.drop_last()) + tokens.last().nesting()
    }
}

/// The number of open parentheses and open function calls on the stack.
pub open spec fn open_groups<N>(stack: Seq<Expr<N>>) -> int
    decreases stack.len(),
{
    if stack.len() == 0 {
        0
    } else {
        open_groups(stack.drop_last()) + if stack.last().is_open() {
            1int
        } else {
            0int
        }
    }
}

proof fn lemma_open_groups_push<N>(stack: Seq<Expr<N>>, e: Expr<N>)
    ensures
        open_groups(stack.push(e)) == open_groups(stack) + if e.is_open() {
            1int
        } else {
            0int
        },
        open_groups(stack) >= 0,
    decreases stack.len(),
{
    assert(stack.push(e).drop_last() =~= stack);
    if stack.len() > 0 {
        lemma_open_groups_push(stack.drop_last(), stack.last());
        assert(stack.drop_last().push(stack.last()) =~= stack);
    }
}

proof fn lemma_open_groups_drop<N>(stack: Seq<Expr<N>>)
    requires
        stack.len() > 0,
    ensures
        open_groups(stack) == open_groups(stack.drop_last()) + if stack.last().is_open() {
            1int
        } else {
            0int
        },
        open_groups(stack.drop_last()) >= 0,
{
    lemma_open_groups_push(stack.drop_last(), stack.last());
}

proof fn lemma_combine_groups<N>(stack: Seq<Expr<N>>)
    requires
        stack.len() > 0 ==> stack.last().is_value(),
    ensures
        combine(stack) matches Ok(s) ==> open_groups(s) == open_groups(stack),
    decreases stack.len(),
{
    if stack.len() > 1 {
        let right = stack.last();
        let op = stack.drop_last().last();
        let rest = stack.drop_last().drop_last();
        lemma_open_groups_drop(stack);
        lemma_open_groups_drop(stack.drop_last());
        match op {
            Expr::Comma => {},
            Expr::Unfinished(m) => {
                if m.opens() {
                } else if rest.len() == 0 {
                    lemma_open_groups_push(rest, negation(right));
                    lemma_open_groups_push(rest, right);
                    assert(rest.push(negation(right)) =~= seq![negation(right)]);
                    assert(rest.push(right) =~= seq![right]);
                } else {
                    lemma_open_groups_drop(rest);
                    match rest.last() {
                        Expr::Unfinished(_) => {
                            if m is Minus || m is Negate {
                                lemma_open_groups_push(rest, negation(right));
                                lemma_combine_groups(rest.push(negation(right)));
                            }
                        },
                        Expr::Comma => {},
                        left => match m.operator() {
                            Some((operation, priority)) => {
                                let joined = join(priority, operation, left, right);
                                lemma_open_groups_push(rest.drop_last(), joined);
                                lemma_combine_groups(rest.drop_last().push(joined));
                            },
                            None => {},
                        },
                    }
                }
            },
            Expr::Number(_) => {
                if right is Variable {
                    let joined = join(2, BinaryOperation::Times, op, right);
                    lemma_open_groups_push(rest, joined);
                    lemma_combine_groups(rest.push(joined));
                }
            },
            Expr::Binary { .. } => {
                let joined = join(2, BinaryOperation::Times, op, right);
                lemma_open_groups_push(rest, joined);
                lemma_combine_groups(rest.push(joined));
            },
            _ => {},
        }
    }
}

proof fn lemma_collect_groups<N>(stack: Seq<Expr<N>>, children: Seq<Expr<N>>)
    ensures
        collect(stack, children) matches Ok(s) ==> open_groups(s) == open_groups(stack) - 1,
    decreases stack.len(),
{
    if stack.len() >= 2 {
        let val = stack.last();
        let rest = stack.drop_last().drop_last();
        lemma_open_groups_drop(stack);
        lemma_open_groups_drop(stack.drop_last());
        if val.is_value() {
            match stack.drop_last().last() {
                Expr::Comma => {
                    lemma_collect_groups(rest, children.push(val));
                },
                Expr::Unfinished(Marker::Call(name)) => {
                    let call = Expr::Call { name, inputs: children.push(val) };
                    lemma_open_groups_push(rest, call);
                    lemma_combine_groups(rest.push(call));
                },
                _ => {},
            }
        }
    }
}

proof fn lemma_shift_groups<N>(stack: Seq<Expr<N>>, token: Lexeme<N>)
    ensures
        shift(stack, token) matches Ok(s) ==> open_groups(s) == open_groups(stack)
            + token.nesting(),
        open_groups(stack) >= 0,
{
    lemma_open_groups_push(stack, Expr::Comma);
    match token {
        Lexeme::Number(v) => {
            lemma_open_groups_push(stack, Expr::Number(v));
            lemma_combine_groups(stack.push(Expr::Number(v)));
        },
        Lexeme::Variable(name) => {
            lemma_open_groups_push(stack, Expr::Variable(name));
            lemma_combine_groups(stack.push(Expr::Variable(name)));
        },
        Lexeme::RightParen => {
            if stack.len() >= 2 {
                let val = stack.last();
                let rest = stack.drop_last().drop_last();
                lemma_open_groups_drop(stack);
                lemma_open_groups_drop(stack.drop_last());
                if val.is_value() {
                    match stack.drop_last().last() {
                        Expr::Unfinished(Marker::LeftParen) => {
                            lemma_open_groups_push(rest, group(val));
                            lemma_combine_groups(rest.push(group(val)));
                        },
                        Expr::Unfinished(Marker::Call(name)) => {
                            let call = Expr::Call { name, inputs: seq![val] };
                            lemma_open_groups_push(rest, call);
                            lemma_combine_groups(rest.push(call));
                        },
                        Expr::Comma => {
                            lemma_collect_groups(rest, seq![val]);
                        },
                        _ => {},
                    }
                }
            }
        },
        Lexeme::LeftParen => {
            lemma_open_groups_push(stack, Expr::Unfinished(Marker::Times));
            lemma_open_groups_push(
                stack.push(Expr::Unfinished(Marker::Times)),
                Expr::Unfinished(Marker::LeftParen),
            );
            lemma_open_groups_push(stack, Expr::Unfinished(Marker::LeftParen));
        },
        Lexeme::Plus => {
            lemma_open_groups_push(stack, Expr::Unfinished(Marker::Plus));
        },
        Lexeme::Minus => {
            lemma_open_groups_push(stack, Expr::Unfinished(Marker::Negate));
            lemma_open_groups_push(stack, Expr::Unfinished(Marker::Minus));
        },
        Lexeme::Times => {
            lemma_open_groups_push(stack, Expr::Unfinished(Marker::Times));
        },
        Lexeme::Divide => {
            lemma_open_groups_push(stack, Expr::Unfinished(Marker::Divide));
        },
        Lexeme::Modulus => {
            lemma_open_groups_push(stack, Expr::Unfinished(Marker::Modulus));
        },
        Lexeme::Exponent => {
            lemma_open_groups_push(stack, Expr::Unfinished(Marker::Exponent));
        },
        Lexeme::Comma => {},
        Lexeme::FunctionCall(name) => {
            lemma_open_groups_push(stack, Expr::Unfinished(Marker::Call(name)));
        },
        _ => {},
    }
}

proof fn lemma_depth_first<N>(tokens: Seq<Lexeme<N>>)
    requires
        tokens.len() > 0,
    ensures
        depth(tokens) == tokens[0].nesting() + depth(tokens.drop_first()),
    decreases tokens.len(),
{
    if tokens.len() == 1 {
        assert(tokens.drop_last() =~= Seq::<Lexeme<N>>::empty());
        assert(tokens.drop_first() =~= Seq::<Lexeme<N>>::empty());
    } else {
        lemma_depth_first(tokens.drop_last());
        assert(tokens.drop_last().drop_first() =~= tokens.drop_first().drop_last());
    }
}

proof fn lemma_build_from_balanced<N>(stack: Seq<Expr<N>>, tokens: Seq<Lexeme<N>>, k: int)
    requires
        build_from(stack, tokens) is Ok,
        0 <= k <= tokens.len(),
    ensures
        open_groups(stack) + depth(tokens) == 0,
        open_groups(stack) + depth(tokens.take(k)) >= 0,
    decreases tokens.len(),
{
    lemma_shift_groups(stack, Lexeme::<N>::Comma);
    if tokens.len() == 0 {
        assert(stack =~= seq![stack[0]]);
        lemma_open_groups_push(Seq::<Expr<N>>::empty(), stack[0]);
        assert(Seq::<Expr<N>>::empty().push(stack[0]) =~= stack);
        assert(tokens.take(k) =~= tokens);
    } else {
        lemma_shift_groups(stack, tokens[0]);
        let next = shift(stack, tokens[0])->Ok_0;
        lemma_depth_first(tokens);
        if k == 0 {
            lemma_build_from_balanced(next, tokens.drop_first(), 0);
            assert(tokens.take(0) =~= Seq::<Lexeme<N>>::empty());
        } else {
            lemma_build_from_balanced(next, tokens.drop_first(), k - 1);
            lemma_depth_first(tokens.take(k));
            assert(tokens.take(k).drop_first() =~= tokens.drop_first().take(k - 1));
        }
    }
}

/// Unmatched parentheses are rejected: where tokens build a tree, they close
/// as many groups as they open, and no part of them from the start closes
/// more than it opens.
pub proof fn lemma_parentheses_match<N>(tokens: Seq<Lexeme<N>>, k: int)
    requires
        build(tokens) is Ok,
        0 <= k <= tokens.len(),
    ensures
        depth(tokens) == 0,
        depth(tokens.take(k)) >= 0,
{
    lemma_build_from_balanced(Seq::<Expr<N>>::empty(), tokens, k);
}

proof fn lemma_build_from_dangling<N>(stack: Seq<Expr<N>>, tokens: Seq<Lexeme<N>>)
    requires
        tokens.len() > 0,
        tokens.last().is_operator(),
    ensures
        build_from(stack, tokens) is Err,
    decreases tokens.len(),
{
    if tokens.len() == 1 {
        if let Ok(next) = shift(stack, tokens[0]) {
            assert(next.last() is Unfinished);
            assert(build_from(next, tokens.drop_first()) == finish(next));
        }
    } else {
        if let Ok(next) = shift(stack, tokens[0]) {
            lemma_build_from_dangling(next, tokens.drop_first());
        }
    }
}

/// A dangling operator is rejected: tokens that end in one of the six binary
/// operators build no tree.
pub proof fn lemma_dangling_operator<N>(tokens: Seq<Lexeme<N>>)
    requires
        tokens.len() > 0,
        tokens.last().is_operator(),
    ensures
        build(tokens) is Err,
{
    lemma_build_from_dangling(Seq::<Expr<N>>::empty(), tokens);
}

/// The value of a binary node is the value of its operator applied to the
/// values of its operands, left operand first; its priority has no part in
/// it.
pub proof fn lemma_binary_value<N>(
    priority: u64,
    other: u64,
    operation: BinaryOperation,
    left: Expr<N>,
    right: Expr<N>,
    table: Table<N>,
)
    ensures
        evaluate(
            Expr::Binary { priority, operation, left: Box::new(left), right: Box::new(right) },
            table,
        ) == match evaluate(left, table) {
            Err(e) => Err(e),
            Ok(a) => match evaluate(right, table) {
                Err(e) => Err(e),
                Ok(b) => answer(table, Request::Binary(operation, a, b)),
            },
        },
        evaluate(
            Expr::Binary { priority, operation, left: Box::new(left), right: Box::new(right) },
            table,
        ) == evaluate(
            Expr::Binary {
                priority: other,
                operation,
                left: Box::new(left),
                right: Box::new(right),
            },
            table,
        ),
{
}

/// What is settled without the arithmetic is the value under every
/// arithmetic, and only an expression that can have a value has one.
pub proof fn lemma_settled_agrees<N>(e: Expr<N>, table: Table<N>)
    ensures
        settled(e) matches Some(out) ==> evaluate(e, table) == out,
        evaluate(e, table) is Ok ==> evaluable(e),
    decreases e,
{
    match e {
        Expr::Binary { left, right, .. } => {
            lemma_settled_agrees(*left, table);
            lemma_settled_agrees(*right, table);
        },
        Expr::Unary { child, .. } => {
            lemma_settled_agrees(*child, table);
        },
        Expr::Call { name, inputs } => {
            let results = evaluate_each(inputs, table);
            assert forall|i: int| 0 <= i < inputs.len() implies (settled(#[trigger] inputs[i])
                matches Some(out) ==> results[i] == out) && (results[i] is Ok ==> evaluable(
                inputs[i],
            )) by {
                lemma_settled_agrees(inputs[i], table);
            }
            if builtin(name) is Some {
                if exists|i: int|
                    0 <= i < inputs.len() && settled(#[trigger] inputs[i]) is Some && settled(
                        inputs[i],
                    )->0 is Err {
                    let i = choose|i: int|
                        0 <= i < inputs.len() && settled(#[trigger] inputs[i]) is Some && settled(
                            inputs[i],
                        )->0 is Err;
                    assert(results[i] is Err);
                } else if settled(e) is Some {
                    assert forall|i: int| 0 <= i < results.len() implies !((#[trigger] results[i])
                        is Err) by {
                        assert(settled(inputs[i]) is Some);
                    }
                }
                if evaluate(e, table) is Ok {
                    assert forall|i: int| 0 <= i < inputs.len() implies evaluable(
                        #[trigger] inputs[i],
                    ) by {
                        assert(!(results[i] is Err));
                    }
                }
            }
        },
        _ => {},
    }
}

/// Evaluation is idempotent: the number that an evaluation gave is a tree
/// that evaluates to the same number, under every arithmetic.
pub proof fn lemma_evaluate_idempotent<N>(e: Expr<N>, table: Table<N>)
    ensures
        evaluate(e, table) matches Ok(v) ==> evaluate(Expr::Number(v), table) == evaluate(e, table),
{
}

/// A number is its own value and its own folded form, under every
/// arithmetic.
pub proof fn lemma_number_is_fixed<N>(v: N, table: Table<N>)
    ensures
        evaluate(Expr::Number(v), table) == Ok::<N, Error>(v),
        reduce(Expr::Number(v), table) == Ok::<Expr<N>, Error>(Expr::Number(v)),
{
}

/// A function of one argument fails with an arity error on any other number
/// of arguments that can all be evaluated.
pub proof fn lemma_single_argument<N>(
    name: Seq<char>,
    function: UnaryFunction,
    inputs: Seq<Expr<N>>,
    table: Table<N>,
)
    requires
        builtin(name) == Some(Builtin::Single(function)),
        inputs.len() != 1,
        forall|i: int| 0 <= i < inputs.len() ==> evaluate(#[trigger] inputs[i], table) is Ok,
    ensures
        evaluate(Expr::Call { name, inputs }, table) == Err::<N, Error>(Error::Arity),
{
    let results = evaluate_each(inputs, table);
    assert forall|i: int| 0 <= i < results.len() implies !((#[trigger] results[i]) is Err) by {
        assert(evaluate(inputs[i], table) is Ok);
    }
}

/// A function of one argument is applied to the value of its one argument.
pub proof fn lemma_one_argument<N>(
    name: Seq<char>,
    function: UnaryFunction,
    input: Expr<N>,
    table: Table<N>,
)
    requires
        builtin(name) == Some(Builtin::Single(function)),
    ensures
        evaluate(Expr::Call { name, inputs: seq![input] }, table) == match evaluate(input, table) {
            Ok(v) => answer(table, Request::Function(function, v)),
            Err(_) => Err(Error::BadArgument),
        },
{
    let inputs = seq![input];
    let results = evaluate_each(inputs, table);
    assert(results[0] == evaluate(input, table));
    if evaluate(input, table) is Ok {
        assert forall|i: int| 0 <= i < results.len() implies !((#[trigger] results[i]) is Err) by {
            assert(inputs[i] == input);
        }
    }
}

/// Folding keeps the variables: the folded tree holds the same occurrences of
/// variables in the same order, and so the same variables. What folds to a
/// number held none.
pub proof fn lemma_reduce_keeps_variables<N>(e: Expr<N>, table: Table<N>)
    ensures
        reduce(e, table) matches Ok(r) ==> occurrences(r) == occurrences(e) && variables(r)
            == variables(e),
    decreases e,
{
    match e {
        Expr::Binary { left, right, .. } => {
            lemma_reduce_keeps_variables(*left, table);
            lemma_reduce_keeps_variables(*right, table);
        },
        Expr::Unary { child, .. } => {
            lemma_reduce_keeps_variables(*child, table);
        },
        Expr::Call { name, inputs } => {
            let results = reduce_each(inputs, table);
            if !(exists|i: int| 0 <= i < results.len() && (#[trigger] results[i]) is Err) {
                let folded = Seq::new(results.len(), |i: int| results[i]->Ok_0);
                assert forall|i: int| 0 <= i < inputs.len() implies occurrences(
                    #[trigger] folded[i],
                ) == occurrences(inputs[i]) by {
                    lemma_reduce_keeps_variables(inputs[i], table);
                    assert(results[i] is Ok);
                }
                lemma_occurrences_in_same(folded, inputs, inputs.len());
                if forall|i: int| 0 <= i < results.len() ==> (#[trigger] results[i])->Ok_0 is Number {
                    assert forall|i: int| 0 <= i < folded.len() implies occurrences(
                        #[trigger] folded[i],
                    ).len() == 0 by {
                        assert(results[i]->Ok_0 is Number);
                    }
                    lemma_occurrences_in_none(folded, folded.len());
                }
            }
        },
        _ => {},
    }
}

/// No variable stands anywhere in `e`, the arguments of function calls
/// included.
pub open spec fn closed<N>(e: Expr<N>) -> bool
    decreases e,
{
    match e {
        Expr::Binary { left, right, .. } => closed(*left) && closed(*right),
        Expr::Unary { child, .. } => closed(*child),
        Expr::Call { inputs, .. } => forall|i: int|
            0 <= i < inputs.len() ==> closed(#[trigger] inputs[i]),
        Expr::Variable(_) => false,
        _ => true,
    }
}

/// Folding leaves nothing of a constant tree but a number: a tree without
/// variables folds to one number, if it can be folded at all.
pub proof fn lemma_reduce_folds_constants<N>(e: Expr<N>, table: Table<N>)
    requires
        closed(e),
    ensures
        reduce(e, table) matches Ok(r) ==> r is Number,
    decreases e,
{
    match e {
        Expr::Binary { left, right, .. } => {
            lemma_reduce_folds_constants(*left, table);
            lemma_reduce_folds_constants(*right, table);
        },
        Expr::Unary { child, .. } => {
            lemma_reduce_folds_constants(*child, table);
        },
        Expr::Call { name, inputs } => {
            let results = reduce_each(inputs, table);
            if !(exists|i: int| 0 <= i < results.len() && (#[trigger] results[i]) is Err) {
                assert forall|i: int| 0 <= i < results.len() implies (#[trigger] results[i])->Ok_0 is Number by {
                    lemma_reduce_folds_constants(inputs[i], table);
                    assert(results[i] is Ok);
                }
            }
        },
        _ => {},
    }
}

/// Folding agrees with evaluation: a tree that folds to a number evaluates to
/// that number.
pub proof fn lemma_reduce_agrees<N>(e: Expr<N>, table: Table<N>)
    ensures
        reduce(e, table) matches Ok(Expr::Number(v)) ==> evaluate(e, table) == Ok::<N, Error>(v),
    decreases e,
{
    match e {
        Expr::Binary { left, right, .. } => {
            lemma_reduce_agrees(*left, table);
            lemma_reduce_agrees(*right, table);
        },
        Expr::Unary { child, .. } => {
            lemma_reduce_agrees(*child, table);
        },
        Expr::Call { name, inputs } => {
            let results = reduce_each(inputs, table);
            if !(exists|i: int| 0 <= i < results.len() && (#[trigger] results[i]) is Err) {
                let folded = Seq::new(results.len(), |i: int| results[i]->Ok_0);
                if forall|i: int| 0 <= i < results.len() ==> (#[trigger] results[i])->Ok_0 is Number {
                    assert forall|i: int| 0 <= i < inputs.len() implies evaluate(
                        #[trigger] inputs[i],
                        table,
                    ) == evaluate(folded[i], table) by {
                        lemma_reduce_agrees(inputs[i], table);
                        assert(results[i] is Ok);
                        assert(results[i]->Ok_0 is Number);
                    }
                    assert(evaluate_each(inputs, table) =~= evaluate_each(folded, table));
                }
            }
        },
        _ => {},
    }
}

/// Folding is idempotent: a folded tree folds to itself.
pub proof fn lemma_reduce_idempotent<N>(e: Expr<N>, table: Table<N>)
    ensures
        reduce(e, table) matches Ok(r) ==> reduce(r, table) == Ok::<Expr<N>, Error>(r),
    decreases e,
{
    match e {
        Expr::Binary { left, right, .. } => {
            lemma_reduce_idempotent(*left, table);
            lemma_reduce_idempotent(*right, table);
        },
        Expr::Unary { child, .. } => {
            lemma_reduce_idempotent(*child, table);
        },
        Expr::Call { name, inputs } => {
            let results = reduce_each(inputs, table);
            if !(exists|i: int| 0 <= i < results.len() && (#[trigger] results[i]) is Err) {
                let folded = Seq::new(results.len(), |i: int| results[i]->Ok_0);
                if !(forall|i: int| 0 <= i < results.len() ==> (#[trigger] results[i])->Ok_0 is Number) {
                    let again = reduce_each(folded, table);
                    assert forall|i: int| 0 <= i < again.len() implies (#[trigger] again[i])
                        == Ok::<Expr<N>, Error>(folded[i]) by {
                        lemma_reduce_idempotent(inputs[i], table);
                        assert(results[i] is Ok);
                    }
                    assert(Seq::new(again.len(), |i: int| again[i]->Ok_0) =~= folded);
                    let j = choose|j: int|
                        0 <= j < results.len() && !((#[trigger] results[j])->Ok_0 is Number);
                    assert(!(again[j]->Ok_0 is Number));
                }
            }
        },
        _ => {},
    }
}

/// A graph has one point for each sample from `from` to 49, in this order:
/// the point at place `k` is the point of sample `from + k`, and its `x` is
/// that sample's value.
pub proof fn lemma_plot_points<N>(
    left: Expr<N>,
    right: Expr<N>,
    variable: Seq<char>,
    from: int,
    table: Table<N>,
    k: int,
)
    requires
        from <= 50,
        plot(left, right, variable, from, table) is Ok,
        0 <= k < 50 - from,
    ensures
        plot(left, right, variable, from, table)->Ok_0.len() == 50 - from,
        point_at(left, right, variable, from + k, table) == Ok::<Point<N>, Error>(
            plot(left, right, variable, from, table)->Ok_0[k],
        ),
        sample(from + k, table) == Ok::<N, Error>(
            plot(left, right, variable, from, table)->Ok_0[k].x,
        ),
    decreases 50 - from,
{
    if from < 49 {
        if k == 0 {
            lemma_plot_points(left, right, variable, from + 1, table, 0);
        } else {
            lemma_plot_points(left, right, variable, from + 1, table, k - 1);
        }
    } else {
        assert(plot(left, right, variable, from + 1, table) == Ok::<Seq<Point<N>>, Error>(
            Seq::empty(),
        ));
    }
}

/// The graph of an equation has exactly 100 points; the `x` of the point at
/// place `k` is the value of sample `k - 50`, which is `(k - 50) / 5`.
pub proof fn lemma_graph_points<N>(tokens: Seq<Lexeme<N>>, table: Table<N>, k: int)
    requires
        graph_of(tokens, table) is Ok,
        0 <= k < 100,
    ensures
        graph_of(tokens, table)->Ok_0.len() == 100,
        sample(k - 50, table) == Ok::<N, Error>(graph_of(tokens, table)->Ok_0[k].x),
{
    let inner = unwrapped(tokens);
    let left = build(left_of_equal(inner))->Ok_0;
    let right = build(right_of_equal(inner))->Ok_0;
    lemma_plot_points(left, right, variables(right)[0], -50, table, k);
}

/// At place `at` of `s` stands a character that is no white space and begins
/// no token: no operator, parenthesis, comma, keyword, name or `=`, and no
/// numeric literal that `table` reads a number from.
pub open spec fn unreadable<N>(s: Seq<char>, at: int, table: Table<N>) -> bool {
    &&& 0 <= at < s.len()
    &&& !is_space(s[at])
    &&& word_at::<N>(s, at) is None
    &&& digits(s, at) > 0 ==> table(Request::Literal(s.subrange(at, at + number_length(s, at))))
        is None
}

/// The tokenizer fails in two ways only, on a text of a length that a machine
/// can hold: a blank text is empty input, which is a lexical error, and any
/// other failure is a syntax error that names a place where no token begins.
pub proof fn lemma_lex_errors<N>(s: Seq<char>, table: Table<N>)
    requires
        s.len() <= usize::MAX,
    ensures
        blank(s) <==> lex(s, table) == Err::<Seq<Lexeme<N>>, Error>(Error::EmptyInput),
        Error::EmptyInput.spec_kind() == ErrorKind::Lex,
        !blank(s) ==> (lex(s, table) matches Err(e) ==> (e matches Error::Unrecognized { at }
            && unreadable(s, at as int, table) && e.spec_kind() == ErrorKind::Syntax)),
{
    if !blank(s) {
        lemma_lex_from_errors(s, 0, table);
    }
}

proof fn lemma_lex_from_errors<N>(s: Seq<char>, i: int, table: Table<N>)
    requires
        0 <= i,
        s.len() <= usize::MAX,
    ensures
        lex_from(s, i, table) matches Err(e) ==> (e matches Error::Unrecognized { at } && i <= at
            && unreadable(s, at as int, table)),
    decreases s.len() - i,
{
    if i < s.len() {
        if is_space(s[i]) {
            lemma_lex_from_errors(s, i + 1, table);
        } else {
            lemma_runs_end(s, i);
            match word_at::<N>(s, i) {
                Some((token, n)) => {
                    lemma_lex_from_errors(s, i + n, table);
                },
                None => {
                    if digits(s, i) > 0 {
                        lemma_lex_from_errors(s, i + number_length(s, i), table);
                    }
                },
            }
        }
    }
}

/// The priority of a binary operator: 1 for `+` and `-`, 2 for `*`, `/` and
/// `%`, 3 for `^`.
pub open spec fn priority_of(operation: BinaryOperation) -> u64 {
    match operation {
        BinaryOperation::Plus => 1,
        BinaryOperation::Minus => 1,
        BinaryOperation::Times => 2,
        BinaryOperation::Divide => 2,
        BinaryOperation::Modulus => 2,
        BinaryOperation::Exponent => 3,
    }
}

/// The token that spells a binary operator.
pub open spec fn operator_token<N>(operation: BinaryOperation) -> Lexeme<N> {
    match operation {
        BinaryOperation::Plus => Lexeme::Plus,
        BinaryOperation::Minus => Lexeme::Minus,
        BinaryOperation::Times => Lexeme::Times,
        BinaryOperation::Divide => Lexeme::Divide,
        BinaryOperation::Modulus => Lexeme::Modulus,
        BinaryOperation::Exponent => Lexeme::Exponent,
    }
}

/// The expression is fully parenthesized: it is a number, a variable, or a
/// group round one binary node with the priority of its operator, whose two
/// operands are fully parenthesized.
pub open spec fn fully_parenthesized<N>(e: Expr<N>) -> bool
    decreases e,
{
    match e {
        Expr::Number(_) => true,
        Expr::Variable(_) => true,
        Expr::Unary { priority, operation, child } => {
            &&& priority == 10
            &&& operation == UnaryOperation::Parens
            &&& match *child {
                Expr::Binary { priority: p, operation: o, left, right } => {
                    &&& p == priority_of(o)
                    &&& fully_parenthesized(*left)
                    &&& fully_parenthesized(*right)
                },
                _ => false,
            }
        },
        _ => false,
    }
}

/// The tokens that spell a fully parenthesized expression: a number or a
/// variable by itself, and a group as `(`, its left operand, its operator,
/// its right operand, `)`.
pub open spec fn spelling<N>(e: Expr<N>) -> Seq<Lexeme<N>>
    decreases e,
{
    match e {
        Expr::Number(v) => seq![Lexeme::Number(v)],
        Expr::Variable(name) => seq![Lexeme::Variable(name)],
        Expr::Unary { child, .. } => match *child {
            Expr::Binary { operation, left, right, .. } => seq![Lexeme::LeftParen] + spelling(
                *left,
            ) + seq![operator_token(operation)] + spelling(*right) + seq![Lexeme::RightParen],
            _ => Seq::empty(),
        },
        _ => Seq::empty(),
    }
}

/// The stack after each of `tokens` in turn has done its work on it.
pub open spec fn shift_all<N>(stack: Seq<Expr<N>>, tokens: Seq<Lexeme<N>>) -> Result<
    Seq<Expr<N>>,
    Error,
>
    decreases tokens.len(),
{
    if tokens.len() == 0 {
        Ok(stack)
    } else {
        match shift(stack, tokens[0]) {
            Ok(next) => shift_all(next, tokens.drop_first()),
            Err(e) => Err(e),
        }
    }
}

proof fn lemma_build_from_shifts<N>(stack: Seq<Expr<N>>, tokens: Seq<Lexeme<N>>)
    ensures
        build_from(stack, tokens) == match shift_all(stack, tokens) {
            Ok(s) => finish(s),
            Err(e) => Err(e),
        },
    decreases tokens.len(),
{
    if tokens.len() > 0 {
        if let Ok(next) = shift(stack, tokens[0]) {
            lemma_build_from_shifts(next, tokens.drop_first());
        }
    }
}

proof fn lemma_shift_all_append<N>(stack: Seq<Expr<N>>, a: Seq<Lexeme<N>>, b: Seq<Lexeme<N>>)
    ensures
        shift_all(stack, a + b) == match shift_all(stack, a) {
            Ok(s) => shift_all(s, b),
            Err(e) => Err(e),
        },
    decreases a.len(),
{
    if a.len() == 0 {
        assert(a + b =~= b);
    } else {
        assert((a + b)[0] == a[0]);
        assert((a + b).drop_first() =~= a.drop_first() + b);
        if let Ok(next) = shift(stack, a[0]) {
            lemma_shift_all_append(next, a.drop_first(), b);
        }
    }
}

proof fn lemma_shift_all_one<N>(stack: Seq<Expr<N>>, token: Lexeme<N>)
    ensures
        shift_all(stack, seq![token]) == shift(stack, token),
{
    let tokens = seq![token];
    assert(tokens.drop_first() =~= Seq::<Lexeme<N>>::empty());
    if let Ok(next) = shift(stack, token) {
        assert(shift_all(next, tokens.drop_first()) == Ok::<Seq<Expr<N>>, Error>(next));
    }
}

proof fn lemma_spelling_shifts<N>(stack: Seq<Expr<N>>, e: Expr<N>)
    requires
        fully_parenthesized(e),
        stack.len() == 0 || stack.last() is Unfinished,
    ensures
        shift_all(stack, spelling(e)) == combine(stack.push(e)),
    decreases e,
{
    match e {
        Expr::Number(v) => {
            lemma_shift_all_one(stack, Lexeme::Number(v));
        },
        Expr::Variable(name) => {
            lemma_shift_all_one(stack, Lexeme::Variable(name));
        },
        Expr::Unary { child, .. } => match *child {
            Expr::Binary { priority, operation, left, right } => {
                let open = seq![Lexeme::<N>::LeftParen];
                let sign = seq![operator_token::<N>(operation)];
                let shut = seq![Lexeme::<N>::RightParen];
                let marker = Expr::<N>::Unfinished(operator_marker(operation));
                let s1 = stack.push(Expr::Unfinished(Marker::LeftParen));
                let s2 = s1.push(*left);
                let s3 = s2.push(marker);
                let s4 = s1.push(*child);
                // `(`
                lemma_shift_all_one(stack, Lexeme::<N>::LeftParen);
                assert(shift_all(stack, open) == Ok::<Seq<Expr<N>>, Error>(s1));
                // the left operand
                lemma_spelling_shifts(s1, *left);
                assert(s2.drop_last() =~= s1);
                assert(combine(s2) == Ok::<Seq<Expr<N>>, Error>(s2));
                lemma_shift_all_append(stack, open, spelling(*left));
                // the operator
                lemma_shift_all_one(s2, operator_token::<N>(operation));
                assert(shift(s2, operator_token::<N>(operation)) == Ok::<Seq<Expr<N>>, Error>(s3));
                lemma_shift_all_append(stack, open + spelling(*left), sign);
                // the right operand
                lemma_spelling_shifts(s3, *right);
                let s5 = s3.push(*right);
                assert(s5.drop_last() =~= s3);
                assert(s3.drop_last() =~= s2);
                assert(s5.drop_last().drop_last() =~= s2);
                assert(s2.drop_last().push(*child) =~= s4);
                assert(join(priority, operation, *left, *right) == *child);
                assert(s4.drop_last() =~= s1);
                assert(combine(s4) == Ok::<Seq<Expr<N>>, Error>(s4));
                assert(combine(s5) == Ok::<Seq<Expr<N>>, Error>(s4));
                lemma_shift_all_append(stack, open + spelling(*left) + sign, spelling(*right));
                // `)`
                lemma_shift_all_one(s4, Lexeme::<N>::RightParen);
                assert(s4.drop_last().drop_last() =~= stack);
                assert(close(s4) == combine(stack.push(e)));
                lemma_shift_all_append(
                    stack,
                    open + spelling(*left) + sign + spelling(*right),
                    shut,
                );
            },
            _ => {},
        },
        _ => {},
    }
}

/// The marker that the token of a binary operator leaves on the stack after a
/// value.
pub open spec fn operator_marker(operation: BinaryOperation) -> Marker {
    match operation {
        BinaryOperation::Plus => Marker::Plus,
        BinaryOperation::Minus => Marker::Minus,
        BinaryOperation::Times => Marker::Times,
        BinaryOperation::Divide => Marker::Divide,
        BinaryOperation::Modulus => Marker::Modulus,
        BinaryOperation::Exponent => Marker::Exponent,
    }
}

/// Every fully parenthesized expression is built from the tokens that spell
/// it: the tree has the shape that the parentheses give it, whatever the
/// priorities of its operators are. Its value is therefore the one that the
/// parentheses ask for: each group has the value of its operator applied to
/// the values of its operands.
pub proof fn lemma_fully_parenthesized_builds<N>(e: Expr<N>)
    requires
        fully_parenthesized(e),
    ensures
        build(spelling(e)) == Ok::<Expr<N>, Error>(e),
{
    let empty = Seq::<Expr<N>>::empty();
    lemma_spelling_shifts(empty, e);
    lemma_build_from_shifts(empty, spelling(e));
    assert(empty.push(e) =~= seq![e]);
}

/// The value of a group round a binary node is the value of its operator
/// applied to the values of its operands, left operand first.
pub proof fn lemma_group_value<N>(
    priority: u64,
    operation: BinaryOperation,
    left: Expr<N>,
    right: Expr<N>,
    table: Table<N>,
)
    ensures
        evaluate(
            group(Expr::Binary { priority, operation, left: Box::new(left), right: Box::new(right) }),
            table,
        ) == match evaluate(left, table) {
            Err(e) => Err(e),
            Ok(a) => match evaluate(right, table) {
                Err(e) => Err(e),
                Ok(b) => answer(table, Request::Binary(operation, a, b)),
            },
        },
{
    reveal_with_fuel(evaluate, 2);
}

} // verus!
