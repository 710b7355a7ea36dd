//! Expression trees, and their construction from tokens on one explicit stack.

use crate::error::Error;
use crate::laws::{finished, lemma_built_is_finished, lemma_built_is_ordered, ordered};
use crate::tokens::{lexemes_of, Lexeme, Token};
use std::collections::VecDeque;
use vstd::prelude::*;
use vstd::std_specs::vecdeque::VecDequeAdditionalSpecFns;

verus! {

/// The six binary operators of an expression.
#[derive(Clone, Copy, Debug, PartialEq, Eq, Structural)]
pub enum BinaryOperation {
    Plus,
    Minus,
    Times,
    Divide,
    Exponent,
    Modulus,
}

/// The two operators of one operand: a change of sign, and a pair of
/// parentheses round a group.
#[derive(Clone, Copy, Debug, PartialEq, Eq, Structural)]
pub enum UnaryOperation {
    Negate,
    Parens,
}

/// An operator, parenthesis or function name that waits on the stack for what
/// follows it.
#[derive(Debug, PartialEq)]
pub enum UnfinishedNode {
    Plus,
    Minus,
    Times,
    Divide,
    Modulus,
    Exponent,
    LeftParen,
    Negate,
    FunctionCall(String),
}

/// A node of an expression tree over numbers of type `N`.
#[derive(Debug, PartialEq)]
pub enum ASTNode<N> {
    BinaryNode(BinaryNode<N>),
    UnaryNode(UnaryNode<N>),
    NumberNode(N),
    UnfinishedNode(UnfinishedNode),
    FunctionCall(FunctionCall<N>),
    Comma,
    Variable(String),
}

/// A binary operator with its operands and its priority: 1 for `+` and `-`,
/// 2 for `*`, `/` and `%`, 3 for `^`.
#[derive(Debug, PartialEq)]
pub struct BinaryNode<N> {
    pub priority: u64,
    pub left: Box<ASTNode<N>>,
    pub right: Box<ASTNode<N>>,
    pub operation: BinaryOperation,
}

/// A unary operator with its operand and its priority: 9 for a change of
/// sign, 10 for a parenthesized group.
#[derive(Debug, PartialEq)]
pub struct UnaryNode<N> {
    pub priority: u64,
    pub child: Box<ASTNode<N>>,
    pub operation: UnaryOperation,
}

/// A call of a named function. The arguments stand in the order in which the
/// construction took them off its stack: the last one written comes first.
#[derive(Debug, PartialEq)]
pub struct FunctionCall<N> {
    pub inputs: VecDeque<ASTNode<N>>,
    pub operation: String,
}

/// The mathematical value of an [`UnfinishedNode`].
pub enum Marker {
    Plus,
    Minus,
    Times,
    Divide,
    Modulus,
    Exponent,
    LeftParen,
    Negate,
    Call(Seq<char>),
}

/// The mathematical value of an [`ASTNode`].
#[allow(inconsistent_fields)]
pub enum Expr<N> {
    Binary { priority: u64, operation: BinaryOperation, left: Box<Expr<N>>, right: Box<Expr<N>> },
    Unary { priority: u64, operation: UnaryOperation, child: Box<Expr<N>> },
    Number(N),
    Unfinished(Marker),
    Call { name: Seq<char>, inputs: Seq<Expr<N>> },
    Comma,
    Variable(Seq<char>),
}

impl View for UnfinishedNode {
    type V = Marker;

    open spec fn view(&self) -> Marker {
        match self {
            UnfinishedNode::Plus => Marker::Plus,
            UnfinishedNode::Minus => Marker::Minus,
            UnfinishedNode::Times => Marker::Times,
            UnfinishedNode::Divide => Marker::Divide,
            UnfinishedNode::Modulus => Marker::Modulus,
            UnfinishedNode::Exponent => Marker::Exponent,
            UnfinishedNode::LeftParen => Marker::LeftParen,
            UnfinishedNode::Negate => Marker::Negate,
            UnfinishedNode::FunctionCall(name) => Marker::Call(name@),
        }
    }
}

/// The value of a tree: each node by its kind, each name by its characters,
/// each argument list by the values of its members.
pub open spec fn expr_of<N>(node: ASTNode<N>) -> Expr<N>
    decreases node,
{
    match node {
        ASTNode::BinaryNode(b) => Expr::Binary {
            priority: b.priority,
            operation: b.operation,
            left: Box::new(expr_of(*b.left)),
            right: Box::new(expr_of(*b.right)),
        },
        ASTNode::UnaryNode(u) => Expr::Unary {
            priority: u.priority,
            operation: u.operation,
            child: Box::new(expr_of(*u.child)),
        },
        ASTNode::NumberNode(v) => Expr::Number(v),
        ASTNode::UnfinishedNode(m) => Expr::Unfinished(m@),
        ASTNode::FunctionCall(c) => Expr::Call {
            name: c.operation@,
            inputs: Seq::new(
                c.inputs@.len(),
                |i: int|
                    if 0 <= i < c.inputs.len() {
                        expr_of(c.inputs[i])
                    } else {
                        Expr::Comma
                    },
            ),
        },
        ASTNode::Comma => Expr::Comma,
        ASTNode::Variable(name) => Expr::Variable(name@),
    }
}

impl<N> View for ASTNode<N> {
    type V = Expr<N>;

    open spec fn view(&self) -> Expr<N> {
        expr_of(*self)
    }
}

/// The values of the nodes of a sequence, in order.
pub open spec fn exprs_of<N>(nodes: Seq<ASTNode<N>>) -> Seq<Expr<N>> {
    Seq::new(nodes.len(), |i: int| nodes[i]@)
}

/// Copies a marker.
pub fn copy_marker(m: &UnfinishedNode) -> (r: UnfinishedNode)
    ensures
        r@ == m@,
{
    match m {
        UnfinishedNode::Plus => UnfinishedNode::Plus,
        UnfinishedNode::Minus => UnfinishedNode::Minus,
        UnfinishedNode::Times => UnfinishedNode::Times,
        UnfinishedNode::Divide => UnfinishedNode::Divide,
        UnfinishedNode::Modulus => UnfinishedNode::Modulus,
        UnfinishedNode::Exponent => UnfinishedNode::Exponent,
        UnfinishedNode::LeftParen => UnfinishedNode::LeftParen,
        UnfinishedNode::Negate => UnfinishedNode::Negate,
        UnfinishedNode::FunctionCall(name) => UnfinishedNode::FunctionCall(name.clone()),
    }
}

/// Copies a tree.
pub fn copy_tree<N: Copy>(node: &ASTNode<N>) -> (r: ASTNode<N>)
    ensures
        r@ == node@,
    decreases node,
{
    match node {
        ASTNode::BinaryNode(a) => ASTNode::BinaryNode(
            BinaryNode {
                priority: a.priority,
                left: Box::new(copy_tree(&*a.left)),
                right: Box::new(copy_tree(&*a.right)),
                operation: a.operation,
            },
        ),
        ASTNode::UnaryNode(a) => ASTNode::UnaryNode(
            UnaryNode {
                priority: a.priority,
                child: Box::new(copy_tree(&*a.child)),
                operation: a.operation,
            },
        ),
        ASTNode::NumberNode(a) => ASTNode::NumberNode(*a),
        ASTNode::UnfinishedNode(a) => ASTNode::UnfinishedNode(copy_marker(a)),
        ASTNode::FunctionCall(a) => {
            let mut inputs: VecDeque<ASTNode<N>> = VecDeque::new();
            let mut i: usize = 0;
            while i < a.inputs.len()
                invariant
                    i <= a.inputs@.len(),
                    decreases_to!(node => a.inputs),
                    inputs@.len() == i,
                    forall|j: int| 0 <= j < i ==> (#[trigger] inputs@[j])@ == a.inputs@[j]@,
                decreases a.inputs@.len() - i,
            {
                assert(decreases_to!(a.inputs => a.inputs[i as int]));
                let copied = copy_tree(&a.inputs[i]);
                inputs.push_back(copied);
                i += 1;
            }
            let call = ASTNode::FunctionCall(
                FunctionCall { inputs, operation: a.operation.clone() },
            );
            assert(call@->Call_inputs =~= node@->Call_inputs);
            call
        },
        ASTNode::Comma => ASTNode::Comma,
        ASTNode::Variable(a) => ASTNode::Variable(a.clone()),
    }
}

impl Clone for UnfinishedNode {
    fn clone(&self) -> (r: Self)
        ensures
            r@ == self@,
    {
        copy_marker(self)
    }
}

impl<N: Copy> Clone for ASTNode<N> {
    fn clone(&self) -> (r: Self)
        ensures
            r@ == self@,
    {
        copy_tree(self)
    }
}

impl<N: Copy> Clone for BinaryNode<N> {
    fn clone(&self) -> (r: Self)
        ensures
            r.priority == self.priority,
            r.operation == self.operation,
            r.left@ == self.left@,
            r.right@ == self.right@,
    {
        BinaryNode {
            priority: self.priority,
            left: Box::new(copy_tree(&*self.left)),
            right: Box::new(copy_tree(&*self.right)),
            operation: self.operation,
        }
    }
}

impl<N: Copy> Clone for UnaryNode<N> {
    fn clone(&self) -> (r: Self)
        ensures
            r.priority == self.priority,
            r.operation == self.operation,
            r.child@ == self.child@,
    {
        UnaryNode {
            priority: self.priority,
            child: Box::new(copy_tree(&*self.child)),
            operation: self.operation,
        }
    }
}

impl<N: Copy> Clone for FunctionCall<N> {
    fn clone(&self) -> (r: Self)
        ensures
            r.operation@ == self.operation@,
            exprs_of(r.inputs@) == exprs_of(self.inputs@),
    {
        let mut inputs: VecDeque<ASTNode<N>> = VecDeque::new();
        let mut i: usize = 0;
        while i < self.inputs.len()
            invariant
                i <= self.inputs@.len(),
                inputs@.len() == i,
                forall|j: int| 0 <= j < i ==> (#[trigger] inputs@[j])@ == self.inputs@[j]@,
            decreases self.inputs@.len() - i,
        {
            let copied = copy_tree(&self.inputs[i]);
            inputs.push_back(copied);
            i += 1;
        }
        assert(exprs_of(inputs@) =~= exprs_of(self.inputs@));
        FunctionCall { inputs, operation: self.operation.clone() }
    }
}

impl<N> Expr<N> {
    /// A completed node: anything but a marker of the construction.
    pub open spec fn is_value(self) -> bool {
        !(self is Unfinished) && !(self is Comma)
    }
}

/// A new binary node over `left` and `right`, with the priority correction:
/// where `left` is a binary node of strictly lower priority, its operator stays
/// on top and the new operator goes down to its right operand, corrected in
/// turn. This is how the tokens of `1 + 2 * 3`, joined as they arrive, come to
/// mean `1 + (2 * 3)`.
pub open spec fn join<N>(
    priority: u64,
    operation: BinaryOperation,
    left: Expr<N>,
    right: Expr<N>,
) -> Expr<N>
    decreases left,
{
    match left {
        Expr::Binary { priority: q, operation: inner, left: far, right: near } if priority > q => {
            Expr::Binary {
                priority: q,
                operation: inner,
                left: far,
                right: Box::new(join(priority, operation, *near, right)),
            }
        },
        _ => Expr::Binary { priority, operation, left: Box::new(left), right: Box::new(right) },
    }
}

/// The priority correction at the root of a tree: a binary node is joined anew
/// from its operands, any other node stays as it is.
pub open spec fn rebalance<N>(e: Expr<N>) -> Expr<N> {
    match e {
        Expr::Binary { priority, operation, left, right } => join(
            priority,
            operation,
            *left,
            *right,
        ),
        _ => e,
    }
}

/// Builds the binary node of `operation` over `left` and `right` with the
/// priority correction applied.
fn join_nodes<N>(
    priority: u64,
    operation: BinaryOperation,
    left: ASTNode<N>,
    right: ASTNode<N>,
) -> (r: ASTNode<N>)
    ensures
        r@ == join(priority, operation, left@, right@),
    decreases left,
{
    match left {
        ASTNode::BinaryNode(b) => {
            if priority > b.priority {
                let BinaryNode { priority: q, left: far, right: near, operation: inner } = b;
                let lower = join_nodes(priority, operation, *near, right);
                ASTNode::BinaryNode(
                    BinaryNode { priority: q, left: far, right: Box::new(lower), operation: inner },
                )
            } else {
                ASTNode::BinaryNode(
                    BinaryNode {
                        priority,
                        left: Box::new(ASTNode::BinaryNode(b)),
                        right: Box::new(right),
                        operation,
                    },
                )
            }
        },
        other => ASTNode::BinaryNode(
            BinaryNode { priority, left: Box::new(other), right: Box::new(right), operation },
        ),
    }
}

/// Restores conventional precedence at the root of `node` after a new binary
/// node was put on top of an older one.
pub fn apply_priority<N>(node: ASTNode<N>) -> (r: ASTNode<N>)
    ensures
        r@ == rebalance(node@),
{
    match node {
        ASTNode::BinaryNode(a) => {
            let BinaryNode { priority, left, right, operation } = a;
            join_nodes(priority, operation, *left, *right)
        },
        other => other,
    }
}

impl Marker {
    /// The binary operator that the marker waits to become, with its priority.
    pub open spec fn operator(self) -> Option<(BinaryOperation, u64)> {
        match self {
            Marker::Plus => Some((BinaryOperation::Plus, 1u64)),
            Marker::Minus => Some((BinaryOperation::Minus, 1u64)),
            Marker::Times => Some((BinaryOperation::Times, 2u64)),
            Marker::Divide => Some((BinaryOperation::Divide, 2u64)),
            Marker::Modulus => Some((BinaryOperation::Modulus, 2u64)),
            Marker::Exponent => Some((BinaryOperation::Exponent, 3u64)),
            _ => None,
        }
    }

    /// The marker opens a group that a `)` has to close.
    pub open spec fn opens(self) -> bool {
        self is LeftParen || self is Call
    }
}

/// The change of sign of `e`, as a node.
pub open spec fn negation<N>(e: Expr<N>) -> Expr<N> {
    Expr::Unary { priority: 9, operation: UnaryOperation::Negate, child: Box::new(e) }
}

/// The parenthesized group round `e`, as a node.
pub open spec fn group<N>(e: Expr<N>) -> Expr<N> {
    Expr::Unary { priority: 10, operation: UnaryOperation::Parens, child: Box::new(e) }
}

/// The step that merges the completed value on top of the stack with what lies
/// beneath it, as often as something can be merged.
///
/// With `right` on top and `op` beneath it:
/// - an open parenthesis, an open function call or a comma beneath stops the
///   merging, and so does a stack of at most one entry;
/// - an operator with nothing beneath it makes a change of sign of `right` if it
///   is a negation, is dropped if it is a plus, and is an error otherwise;
/// - an operator above a marker is a further change of sign of `right` if it is
///   a minus or a negation, and an error otherwise;
/// - a binary operator above a value joins that value with `right`, corrected
///   for priority;
/// - a number directly beneath a variable, and a binary node directly beneath
///   any value, are multiplied with it;
/// - anything else is an error.
pub open spec fn combine<N>(stack: Seq<Expr<N>>) -> Result<Seq<Expr<N>>, Error>
    decreases stack.len(),
{
    if stack.len() <= 1 {
        Ok(stack)
    } else {
        let right = stack.last();
        let op = stack.drop_last().last();
        let rest = stack.drop_last().drop_last();
        match op {
            Expr::Comma => Ok(stack),
            Expr::Unfinished(m) => {
                if m.opens() {
                    Ok(stack)
                } else if rest.len() == 0 {
                    match m {
                        Marker::Negate => Ok(seq![negation(right)]),
                        Marker::Plus => Ok(seq![right]),
                        _ => Err(Error::InvalidSequence),
                    }
                } else {
                    match rest.last() {
                        Expr::Unfinished(_) => {
                            if m is Minus || m is Negate {
                                combine(rest.push(negation(right)))
                            } else {
                                Err(Error::InvalidSequence)
                            }
                        },
                        Expr::Comma => Err(Error::InvalidSequence),
                        left => match m.operator() {
                            Some((operation, priority)) => combine(
                                rest.drop_last().push(join(priority, operation, left, right)),
                            ),
                            None => Err(Error::InvalidSequence),
                        },
                    }
                }
            },
            Expr::Number(_) => {
                if right is Variable {
                    combine(rest.push(join(2, BinaryOperation::Times, op, right)))
                } else {
                    Err(Error::InvalidSequence)
                }
            },
            Expr::Binary { .. } => combine(rest.push(join(2, BinaryOperation::Times, op, right))),
            _ => Err(Error::InvalidSequence),
        }
    }
}

/// What `r` and the stack it left behind say of a step that was to turn the
/// stack into `expected`.
pub open spec fn stack_result<N>(
    r: Result<(), Error>,
    stack: Seq<ASTNode<N>>,
    expected: Result<Seq<Expr<N>>, Error>,
) -> bool {
    match expected {
        Ok(s) => r is Ok && exprs_of(stack) == s,
        Err(e) => r == Err::<(), Error>(e),
    }
}

proof fn lemma_exprs_push<N>(nodes: Seq<ASTNode<N>>, node: ASTNode<N>)
    ensures
        exprs_of(nodes.push(node)) == exprs_of(nodes).push(node@),
{
    assert(exprs_of(nodes.push(node)) =~= exprs_of(nodes).push(node@));
}

proof fn lemma_exprs_drop_last<N>(nodes: Seq<ASTNode<N>>)
    requires
        nodes.len() > 0,
    ensures
        exprs_of(nodes.drop_last()) == exprs_of(nodes).drop_last(),
        exprs_of(nodes).last() == nodes.last()@,
{
    assert(exprs_of(nodes.drop_last()) =~= exprs_of(nodes).drop_last());
}

fn binary_node<N>(
    priority: u64,
    operation: BinaryOperation,
    left: ASTNode<N>,
    right: ASTNode<N>,
) -> (r: ASTNode<N>)
    ensures
        r@ == (Expr::Binary {
            priority,
            operation,
            left: Box::new(left@),
            right: Box::new(right@),
        }),
{
    ASTNode::BinaryNode(
        BinaryNode { priority, left: Box::new(left), right: Box::new(right), operation },
    )
}

fn negate_node<N>(child: ASTNode<N>) -> (r: ASTNode<N>)
    ensures
        r@ == negation(child@),
{
    ASTNode::UnaryNode(
        UnaryNode { priority: 9, child: Box::new(child), operation: UnaryOperation::Negate },
    )
}

/// The binary operator and priority that a marker stands for, if any.
fn operator_of(m: &UnfinishedNode) -> (r: Option<(BinaryOperation, u64)>)
    ensures
        r == m@.operator(),
{
    match m {
        UnfinishedNode::Plus => Some((BinaryOperation::Plus, 1)),
        UnfinishedNode::Minus => Some((BinaryOperation::Minus, 1)),
        UnfinishedNode::Times => Some((BinaryOperation::Times, 2)),
        UnfinishedNode::Divide => Some((BinaryOperation::Divide, 2)),
        UnfinishedNode::Modulus => Some((BinaryOperation::Modulus, 2)),
        UnfinishedNode::Exponent => Some((BinaryOperation::Exponent, 3)),
        _ => None,
    }
}

/// Merges the completed value on top of `stack` with what lies beneath it.
/// On an error the stack is left in no particular state.
pub fn combine_finished_val<N>(stack: &mut Vec<ASTNode<N>>) -> (r: Result<(), Error>)
    ensures
        stack_result(r, final(stack)@, combine(exprs_of(old(stack)@))),
    decreases old(stack)@.len(),
{
    if stack.len() <= 1 {
        return Ok(());
    }
    let ghost before = stack@;
    proof {
        lemma_exprs_drop_last(before);
        lemma_exprs_drop_last(before.drop_last());
    }
    let right = stack.pop().unwrap();
    let op = stack.pop().unwrap();
    let ghost rest = stack@;
    assert(rest == before.drop_last().drop_last());
    match op {
        ASTNode::Comma => {
            stack.push(ASTNode::Comma);
            stack.push(right);
            assert(stack@ =~= before);
            Ok(())
        },
        ASTNode::UnfinishedNode(m) => {
            match m {
                UnfinishedNode::LeftParen | UnfinishedNode::FunctionCall(_) => {
                    stack.push(ASTNode::UnfinishedNode(m));
                    stack.push(right);
                    assert(stack@ =~= before);
                    Ok(())
                },
                _ => {
                    if stack.len() == 0 {
                        match m {
                            UnfinishedNode::Negate => {
                                stack.push(negate_node(right));
                                assert(exprs_of(stack@) =~= seq![negation(right@)]);
                                Ok(())
                            },
                            UnfinishedNode::Plus => {
                                stack.push(right);
                                assert(exprs_of(stack@) =~= seq![right@]);
                                Ok(())
                            },
                            _ => Err(Error::InvalidSequence),
                        }
                    } else {
                        proof {
                            lemma_exprs_drop_last(rest);
                        }
                        let left = stack.pop().unwrap();
                        match left {
                            ASTNode::UnfinishedNode(_) => {
                                match m {
                                    UnfinishedNode::Minus | UnfinishedNode::Negate => {
                                        stack.push(left);
                                        assert(stack@ =~= rest);
                                        let negated = negate_node(right);
                                        proof {
                                            lemma_exprs_push(rest, negated);
                                        }
                                        stack.push(negated);
                                        combine_finished_val(stack)
                                    },
                                    _ => Err(Error::InvalidSequence),
                                }
                            },
                            ASTNode::Comma => Err(Error::InvalidSequence),
                            _ => {
                                match operator_of(&m) {
                                    Some((operation, priority)) => {
                                        let ghost below = stack@;
                                        let joined = apply_priority(
                                            binary_node(priority, operation, left, right),
                                        );
                                        proof {
                                            lemma_exprs_push(below, joined);
                                        }
                                        stack.push(joined);
                                        combine_finished_val(stack)
                                    },
                                    None => Err(Error::InvalidSequence),
                                }
                            },
                        }
                    }
                },
            }
        },
        ASTNode::NumberNode(a) => {
            match right {
                ASTNode::Variable(_) => {
                    let joined = binary_node(
                        2,
                        BinaryOperation::Times,
                        ASTNode::NumberNode(a),
                        right,
                    );
                    proof {
                        lemma_exprs_push(rest, joined);
                    }
                    stack.push(joined);
                    combine_finished_val(stack)
                },
                _ => Err(Error::InvalidSequence),
            }
        },
        ASTNode::BinaryNode(a) => {
            let joined = apply_priority(
                binary_node(2, BinaryOperation::Times, ASTNode::BinaryNode(a), right),
            );
            proof {
                lemma_exprs_push(rest, joined);
            }
            stack.push(joined);
            combine_finished_val(stack)
        },
        _ => Err(Error::InvalidSequence),
    }
}

impl<N> Expr<N> {
    /// A `(` that follows this node multiplies it with the group: so for a
    /// number, a variable, a binary node, a function call and a group, and not
    /// for a change of sign or a marker.
    pub open spec fn multiplies_group(self) -> bool {
        match self {
            Expr::Binary { .. } | Expr::Number(_) | Expr::Variable(_) | Expr::Call { .. } => true,
            Expr::Unary { operation, .. } => operation == UnaryOperation::Parens,
            Expr::Unfinished(_) | Expr::Comma => false,
        }
    }
}

/// The arguments of a call that a `)` closes, gathered from the top of the
/// stack down: `children` holds those found so far, each further one lies
/// above a comma, and the last one above the marker of the call.
pub open spec fn collect<N>(stack: Seq<Expr<N>>, children: Seq<Expr<N>>) -> Result<
    Seq<Expr<N>>,
    Error,
>
    decreases stack.len(),
{
    if stack.len() < 2 {
        Err(Error::StrayComma)
    } else {
        let val = stack.last();
        let rest = stack.drop_last().drop_last();
        if !val.is_value() {
            Err(Error::StrayComma)
        } else {
            match stack.drop_last().last() {
                Expr::Comma => collect(rest, children.push(val)),
                Expr::Unfinished(Marker::Call(name)) => combine(
                    rest.push(Expr::Call { name, inputs: children.push(val) }),
                ),
                _ => Err(Error::StrayComma),
            }
        }
    }
}

/// What a `)` does to the stack: the value on top becomes a parenthesized
/// group, or the last argument of a function call, and is merged with what
/// lies beneath.
pub open spec fn close<N>(stack: Seq<Expr<N>>) -> Result<Seq<Expr<N>>, Error> {
    if stack.len() < 2 {
        Err(Error::UnmatchedParenthesis)
    } else {
        let val = stack.last();
        let rest = stack.drop_last().drop_last();
        match val {
            Expr::Unfinished(_) => Err(Error::InvalidSequence),
            Expr::Comma => Err(Error::StrayComma),
            _ => match stack.drop_last().last() {
                Expr::Unfinished(Marker::LeftParen) => combine(rest.push(group(val))),
                Expr::Unfinished(Marker::Call(name)) => combine(
                    rest.push(Expr::Call { name, inputs: seq![val] }),
                ),
                Expr::Comma => collect(rest, seq![val]),
                _ => Err(Error::UnmatchedParenthesis),
            },
        }
    }
}

/// What one token does to the stack.
pub open spec fn shift<N>(stack: Seq<Expr<N>>, token: Lexeme<N>) -> Result<Seq<Expr<N>>, Error> {
    match token {
        Lexeme::Number(v) => combine(stack.push(Expr::Number(v))),
        Lexeme::Variable(name) => combine(stack.push(Expr::Variable(name))),
        Lexeme::Plus => Ok(stack.push(Expr::Unfinished(Marker::Plus))),
        Lexeme::Minus => if stack.len() == 0 || stack.last() is Unfinished {
            Ok(stack.push(Expr::Unfinished(Marker::Negate)))
        } else {
            Ok(stack.push(Expr::Unfinished(Marker::Minus)))
        },
        Lexeme::Times => Ok(stack.push(Expr::Unfinished(Marker::Times))),
        Lexeme::Divide => Ok(stack.push(Expr::Unfinished(Marker::Divide))),
        Lexeme::Modulus => Ok(stack.push(Expr::Unfinished(Marker::Modulus))),
        Lexeme::Exponent => Ok(stack.push(Expr::Unfinished(Marker::Exponent))),
        Lexeme::LeftParen => if stack.len() > 0 && stack.last().multiplies_group() {
            Ok(
                stack.push(Expr::Unfinished(Marker::Times)).push(
                    Expr::Unfinished(Marker::LeftParen),
                ),
            )
        } else {
            Ok(stack.push(Expr::Unfinished(Marker::LeftParen)))
        },
        Lexeme::RightParen => close(stack),
        Lexeme::Comma => Ok(stack.push(Expr::Comma)),
        Lexeme::FunctionCall(name) => Ok(stack.push(Expr::Unfinished(Marker::Call(name)))),
        Lexeme::Help => Err(Error::EmbeddedHelp),
        Lexeme::Equal | Lexeme::Graph => Err(Error::EmbeddedEquation),
    }
}

impl<N> Expr<N> {
    /// The marker of an open parenthesis or of an open function call.
    pub open spec fn is_open(self) -> bool {
        self matches Expr::Unfinished(m) && m.opens()
    }
}

/// The tree that the stack holds when the tokens have run out: its one entry,
/// if that is a completed value. Else a parenthesis is unmatched where one is
/// still open on the stack, and the expression is incomplete where none is.
pub open spec fn finish<N>(stack: Seq<Expr<N>>) -> Result<Expr<N>, Error> {
    if stack.len() == 1 && stack[0].is_value() {
        Ok(stack[0])
    } else if exists|i: int| 0 <= i < stack.len() && (#[trigger] stack[i]).is_open() {
        Err(Error::UnmatchedParenthesis)
    } else {
        Err(Error::Incomplete)
    }
}

/// The tree built from `tokens` on top of `stack`: each token in turn does its
/// work on the stack, the first error ends the construction.
pub open spec fn build_from<N>(stack: Seq<Expr<N>>, tokens: Seq<Lexeme<N>>) -> Result<
    Expr<N>,
    Error,
>
    decreases tokens.len(),
{
    if tokens.len() == 0 {
        finish(stack)
    } else {
        match shift(stack, tokens[0]) {
            Ok(next) => build_from(next, tokens.drop_first()),
            Err(e) => Err(e),
        }
    }
}

/// The expression tree of a token sequence.
pub open spec fn build<N>(tokens: Seq<Lexeme<N>>) -> Result<Expr<N>, Error> {
    build_from(Seq::empty(), tokens)
}

/// Gathers the arguments of the call that a `)` closes; see [`collect`].
fn collect_arguments<N>(stack: &mut Vec<ASTNode<N>>, found: VecDeque<ASTNode<N>>) -> (r: Result<
    (),
    Error,
>)
    ensures
        stack_result(r, final(stack)@, collect(exprs_of(old(stack)@), exprs_of(found@))),
{
    let ghost first = found@;
    let mut children = found;
    loop
        invariant
            first == found@,
            collect(exprs_of(stack@), exprs_of(children@)) == collect(
                exprs_of(old(stack)@),
                exprs_of(first),
            ),
        decreases stack@.len(),
    {
        if stack.len() < 2 {
            return Err(Error::StrayComma);
        }
        let ghost before = stack@;
        let ghost gathered = children@;
        proof {
            lemma_exprs_drop_last(before);
            lemma_exprs_drop_last(before.drop_last());
        }
        let val = stack.pop().unwrap();
        let left = stack.pop().unwrap();
        match val {
            ASTNode::UnfinishedNode(_) | ASTNode::Comma => {
                return Err(Error::StrayComma);
            },
            _ => {},
        }
        match left {
            ASTNode::Comma => {
                proof {
                    lemma_exprs_push(gathered, val);
                }
                children.push_back(val);
            },
            ASTNode::UnfinishedNode(UnfinishedNode::FunctionCall(name)) => {
                proof {
                    lemma_exprs_push(gathered, val);
                }
                children.push_back(val);
                let call = ASTNode::FunctionCall(FunctionCall { inputs: children, operation: name });
                proof {
                    assert(call@->Call_inputs =~= exprs_of(gathered).push(val@));
                    lemma_exprs_push(stack@, call);
                }
                stack.push(call);
                return combine_finished_val(stack);
            },
            _ => {
                return Err(Error::StrayComma);
            },
        }
    }
}

/// Does the work of a `)` on the stack; see [`close`].
fn close_group<N>(stack: &mut Vec<ASTNode<N>>) -> (r: Result<(), Error>)
    ensures
        stack_result(r, final(stack)@, close(exprs_of(old(stack)@))),
{
    if stack.len() < 2 {
        return Err(Error::UnmatchedParenthesis);
    }
    let ghost before = stack@;
    proof {
        lemma_exprs_drop_last(before);
        lemma_exprs_drop_last(before.drop_last());
    }
    let val = stack.pop().unwrap();
    let left = stack.pop().unwrap();
    match val {
        ASTNode::UnfinishedNode(_) => {
            return Err(Error::InvalidSequence);
        },
        ASTNode::Comma => {
            return Err(Error::StrayComma);
        },
        _ => {},
    }
    match left {
        ASTNode::UnfinishedNode(UnfinishedNode::LeftParen) => {
            let wrapped = ASTNode::UnaryNode(
                UnaryNode { priority: 10, child: Box::new(val), operation: UnaryOperation::Parens },
            );
            proof {
                lemma_exprs_push(stack@, wrapped);
            }
            stack.push(wrapped);
            combine_finished_val(stack)
        },
        ASTNode::UnfinishedNode(UnfinishedNode::FunctionCall(name)) => {
            let mut children = VecDeque::new();
            children.push_back(val);
            let call = ASTNode::FunctionCall(FunctionCall { inputs: children, operation: name });
            proof {
                assert(call@->Call_inputs =~= seq![val@]);
                lemma_exprs_push(stack@, call);
            }
            stack.push(call);
            combine_finished_val(stack)
        },
        ASTNode::Comma => {
            let mut children = VecDeque::new();
            children.push_back(val);
            assert(exprs_of(children@) =~= seq![val@]);
            collect_arguments(stack, children)
        },
        _ => Err(Error::UnmatchedParenthesis),
    }
}

/// Whether a `(` after `node` multiplies it with the group.
fn multiplies_group<N>(node: &ASTNode<N>) -> (r: bool)
    ensures
        r == node@.multiplies_group(),
{
    match node {
        ASTNode::BinaryNode(_) | ASTNode::NumberNode(_) | ASTNode::Variable(_)
        | ASTNode::FunctionCall(_) => true,
        ASTNode::UnaryNode(a) => match a.operation {
            UnaryOperation::Negate => false,
            UnaryOperation::Parens => true,
        },
        ASTNode::UnfinishedNode(_) | ASTNode::Comma => false,
    }
}

fn is_value<N>(node: &ASTNode<N>) -> (r: bool)
    ensures
        r == node@.is_value(),
{
    match node {
        ASTNode::UnfinishedNode(_) | ASTNode::Comma => false,
        _ => true,
    }
}

fn is_open<N>(node: &ASTNode<N>) -> (r: bool)
    ensures
        r == node@.is_open(),
{
    match node {
        ASTNode::UnfinishedNode(UnfinishedNode::LeftParen) => true,
        ASTNode::UnfinishedNode(UnfinishedNode::FunctionCall(_)) => true,
        _ => false,
    }
}

fn is_unfinished<N>(node: &ASTNode<N>) -> (r: bool)
    ensures
        r == (node@ is Unfinished),
{
    match node {
        ASTNode::UnfinishedNode(_) => true,
        _ => false,
    }
}

fn push_marker<N>(stack: &mut Vec<ASTNode<N>>, marker: UnfinishedNode)
    ensures
        exprs_of(final(stack)@) == exprs_of(old(stack)@).push(Expr::Unfinished(marker@)),
{
    let node = ASTNode::UnfinishedNode(marker);
    proof {
        lemma_exprs_push(stack@, node);
    }
    stack.push(node);
}

/// Does the work of one token on the stack; see [`shift`].
fn shift_token<N>(stack: &mut Vec<ASTNode<N>>, token: Token<N>) -> (r: Result<(), Error>)
    ensures
        stack_result(r, final(stack)@, shift(exprs_of(old(stack)@), token@)),
{
    proof {
        if stack@.len() > 0 {
            lemma_exprs_drop_last(stack@);
        }
    }
    match token {
        Token::Number(a) => {
            let node = ASTNode::NumberNode(a);
            proof {
                lemma_exprs_push(stack@, node);
            }
            stack.push(node);
            combine_finished_val(stack)
        },
        Token::Variable(a) => {
            let node = ASTNode::Variable(a);
            proof {
                lemma_exprs_push(stack@, node);
            }
            stack.push(node);
            combine_finished_val(stack)
        },
        Token::Plus => {
            push_marker(stack, UnfinishedNode::Plus);
            Ok(())
        },
        Token::Minus => {
            if stack.len() == 0 || is_unfinished(&stack[stack.len() - 1]) {
                push_marker(stack, UnfinishedNode::Negate);
            } else {
                push_marker(stack, UnfinishedNode::Minus);
            }
            Ok(())
        },
        Token::Times => {
            push_marker(stack, UnfinishedNode::Times);
            Ok(())
        },
        Token::Divide => {
            push_marker(stack, UnfinishedNode::Divide);
            Ok(())
        },
        Token::Modulus => {
            push_marker(stack, UnfinishedNode::Modulus);
            Ok(())
        },
        Token::Exponent => {
            push_marker(stack, UnfinishedNode::Exponent);
            Ok(())
        },
        Token::LeftParen => {
            if stack.len() > 0 && multiplies_group(&stack[stack.len() - 1]) {
                push_marker(stack, UnfinishedNode::Times);
            }
            push_marker(stack, UnfinishedNode::LeftParen);
            Ok(())
        },
        Token::RightParen => close_group(stack),
        Token::Comma => {
            let node = ASTNode::Comma;
            proof {
                lemma_exprs_push(stack@, node);
            }
            stack.push(node);
            Ok(())
        },
        Token::FunctionCall(a) => {
            push_marker(stack, UnfinishedNode::FunctionCall(a));
            Ok(())
        },
        Token::Help => Err(Error::EmbeddedHelp),
        Token::Equal | Token::Graph => Err(Error::EmbeddedEquation),
    }
}

/// What `r` says of a construction that was to give `expected`.
pub open spec fn node_result<N>(r: Result<ASTNode<N>, Error>, expected: Result<Expr<N>, Error>) -> bool {
    match r {
        Ok(node) => expected == Ok::<Expr<N>, Error>(node@),
        Err(e) => expected == Err::<Expr<N>, Error>(e),
    }
}

/// Builds the expression tree of a token sequence in one pass from left to
/// right. The tree that comes back holds no marker of the construction, and
/// no binary node of it stands directly above a left child that is a binary
/// node of lower priority.
pub fn build_ast<N>(tokens: VecDeque<Token<N>>) -> (r: Result<ASTNode<N>, Error>)
    ensures
        node_result(r, build(lexemes_of(tokens@))),
        r matches Ok(node) ==> finished(node@) && ordered(node@),
{
    let ghost all = tokens@;
    proof {
        lemma_built_is_finished(lexemes_of(all));
        lemma_built_is_ordered(lexemes_of(all));
    }
    let mut pending = tokens;
    let mut stack: Vec<ASTNode<N>> = Vec::new();
    assert(exprs_of(stack@) =~= Seq::empty());
    while pending.len() > 0
        invariant
            all == tokens@,
            build_from(exprs_of(stack@), lexemes_of(pending@)) == build(lexemes_of(all)),
        decreases pending@.len(),
    {
        let ghost remaining = pending@;
        let token = pending.pop_front().unwrap();
        assert(lexemes_of(pending@) =~= lexemes_of(remaining).drop_first());
        match shift_token(&mut stack, token) {
            Ok(()) => {},
            Err(e) => {
                return Err(e);
            },
        }
    }
    if stack.len() == 1 && is_value(&stack[0]) {
        return Ok(stack.pop().unwrap());
    }
    assert(finish(exprs_of(stack@)) == build(lexemes_of(all))) by {
        assert(lexemes_of(pending@).len() == 0);
    }
    let mut i: usize = 0;
    while i < stack.len()
        invariant
            i <= stack@.len(),
            all == tokens@,
            finish(exprs_of(stack@)) == build(lexemes_of(all)),
            !(stack@.len() == 1 && exprs_of(stack@)[0].is_value()),
            forall|j: int| 0 <= j < i ==> !(#[trigger] exprs_of(stack@)[j]).is_open(),
        decreases stack@.len() - i,
    {
        if is_open(&stack[i]) {
            assert(exprs_of(stack@)[i as int].is_open());
            return Err(Error::UnmatchedParenthesis);
        }
        i += 1;
    }
    Err(Error::Incomplete)
}

} // verus!
