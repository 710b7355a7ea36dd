//! Equations in two variables: substitution, constant folding, the isolation
//! of one variable, and the sampling of an equation into points.

use crate::arith::{
    answer, answers, ask, follows, total, Operation, Request, Table, UnaryFunction,
};
use crate::ast::{
    build, build_ast, copy_marker, exprs_of, node_result, ASTNode, BinaryNode, BinaryOperation, Expr,
    FunctionCall, UnaryNode, UnaryOperation, UnfinishedNode,
};
use crate::error::Error;
use crate::eval::{call_of, evaluable, evaluate, evaluate_ast, evaluate_function, settled};
use crate::laws::finished;
use crate::tokens::{lexemes_of, Lexeme, Token};
use std::collections::VecDeque;
use vstd::prelude::*;
use vstd::std_specs::vecdeque::VecDequeAdditionalSpecFns;

verus! {

/// The characters of each string of a sequence, in order.
pub open spec fn names_of(names: Seq<String>) -> Seq<Seq<char>> {
    Seq::new(names.len(), |i: int| names[i]@)
}

/// The occurrences of variables in an expression from left to right, those
/// in the arguments of function calls included; the arguments of a call come
/// in the order in which the call holds them.
pub open spec fn occurrences<N>(e: Expr<N>) -> Seq<Seq<char>>
    decreases e, 0nat,
{
    match e {
        Expr::Binary { left, right, .. } => occurrences(*left) + occurrences(*right),
        Expr::Unary { child, .. } => occurrences(*child),
        Expr::Call { inputs, .. } => occurrences_in(inputs, inputs.len()),
        Expr::Variable(name) => seq![name],
        _ => Seq::empty(),
    }
}

/// The occurrences of variables in the first `n` members of `inputs`.
pub open spec fn occurrences_in<N>(inputs: Seq<Expr<N>>, n: nat) -> Seq<Seq<char>>
    decreases inputs, n,
{
    if n == 0 || n > inputs.len() {
        Seq::empty()
    } else {
        occurrences_in(inputs, (n - 1) as nat) + occurrences(inputs[n - 1])
    }
}

/// `found` followed by those of `names` that stand neither in `found` nor
/// earlier in `names`, in their order.
pub open spec fn gather(found: Seq<Seq<char>>, names: Seq<Seq<char>>) -> Seq<Seq<char>>
    decreases names.len(),
{
    if names.len() == 0 {
        found
    } else {
        let before = gather(found, names.drop_last());
        if before.contains(names.last()) {
            before
        } else {
            before.push(names.last())
        }
    }
}

/// The names of a sequence, each once, at the place of its first occurrence.
pub open spec fn distinct(names: Seq<Seq<char>>) -> Seq<Seq<char>> {
    gather(Seq::empty(), names)
}

/// The variables of an expression: each name that occurs in it once, in the
/// order of the first occurrences from left to right. The arguments of
/// function calls are searched too.
pub open spec fn variables<N>(e: Expr<N>) -> Seq<Seq<char>> {
    distinct(occurrences(e))
}

/// Gathering from two sequences in turn is gathering from the two joined.
pub proof fn lemma_gather_append(found: Seq<Seq<char>>, a: Seq<Seq<char>>, b: Seq<Seq<char>>)
    ensures
        gather(gather(found, a), b) == gather(found, a + b),
    decreases b.len(),
{
    if b.len() == 0 {
        assert(a + b =~= a);
    } else {
        lemma_gather_append(found, a, b.drop_last());
        assert((a + b).drop_last() =~= a + b.drop_last());
        assert((a + b).last() == b.last());
    }
}

/// Gathering keeps what was found, in its place, and adds exactly the names
/// it is given.
pub proof fn lemma_gather_keeps(found: Seq<Seq<char>>, names: Seq<Seq<char>>)
    ensures
        gather(found, names).len() >= found.len(),
        forall|i: int| 0 <= i < found.len() ==> gather(found, names)[i] == found[i],
        forall|i: int| 0 <= i < names.len() ==> gather(found, names).contains(#[trigger] names[i]),
        forall|i: int|
            0 <= i < gather(found, names).len() ==> found.contains(
                #[trigger] gather(found, names)[i],
            ) || names.contains(gather(found, names)[i]),
        names.len() > 0 && found.len() == 0 ==> gather(found, names).len() > 0 && gather(
            found,
            names,
        )[0] == names[0],
    decreases names.len(),
{
    if names.len() > 0 {
        let rest = names.drop_last();
        lemma_gather_keeps(found, rest);
        let before = gather(found, rest);
        let all = gather(found, names);
        assert forall|i: int| 0 <= i < names.len() implies all.contains(#[trigger] names[i]) by {
            if i < rest.len() {
                assert(rest[i] == names[i]);
                let j = choose|j: int| 0 <= j < before.len() && before[j] == rest[i];
                assert(all[j] == names[i]);
            } else {
                if before.contains(names.last()) {
                } else {
                    assert(all[before.len() as int] == names[i]);
                }
            }
        }
        assert forall|i: int| 0 <= i < all.len() implies found.contains(#[trigger] all[i])
            || names.contains(all[i]) by {
            if i < before.len() {
                if !found.contains(before[i]) {
                    let j = choose|j: int| 0 <= j < rest.len() && rest[j] == before[i];
                    assert(names[j] == all[i]);
                }
            } else {
                assert(names[names.len() - 1] == all[i]);
            }
        }
        if found.len() == 0 {
            if rest.len() == 0 {
                assert(before.len() == 0);
                assert(!before.contains(names.last()));
            } else {
                assert(rest[0] == names[0]);
            }
        }
    }
}

/// A tree has a variable exactly where a variable occurs in it, and its
/// first variable is the one that occurs first.
pub proof fn lemma_variables_first<N>(e: Expr<N>)
    ensures
        variables(e).len() == 0 <==> occurrences(e).len() == 0,
        occurrences(e).len() > 0 ==> variables(e)[0] == occurrences(e)[0],
{
    lemma_gather_keeps(Seq::empty(), occurrences(e));
}

/// Adds `name` to `found` unless it stands there.
fn note_variable(found: &mut Vec<String>, name: &String)
    ensures
        names_of(final(found)@) == gather(names_of(old(found)@), seq![name@]),
{
    let ghost before = names_of(found@);
    let ghost one = seq![name@];
    assert(one.drop_last() =~= Seq::<Seq<char>>::empty());
    assert(gather(before, one.drop_last()) == before);
    assert(one.last() == name@);
    let mut i: usize = 0;
    while i < found.len()
        invariant
            i <= found@.len(),
            found@ == old(found)@,
            before == names_of(found@),
            one == seq![name@],
            gather(before, one.drop_last()) == before,
            forall|j: int| 0 <= j < i ==> before[j] != name@,
        decreases found@.len() - i,
    {
        if found[i] == *name {
            assert(before[i as int] == name@);
            assert(before.contains(name@));
            return ;
        }
        i += 1;
    }
    assert(!before.contains(name@));
    found.push(name.clone());
    assert(names_of(found@) =~= before.push(name@));
}

fn get_variables_into<N>(node: &ASTNode<N>, found: &mut Vec<String>)
    ensures
        names_of(final(found)@) == gather(names_of(old(found)@), occurrences(node@)),
    decreases node,
{
    let ghost start = names_of(found@);
    match node {
        ASTNode::BinaryNode(a) => {
            get_variables_into(&*a.left, found);
            get_variables_into(&*a.right, found);
            proof {
                lemma_gather_append(start, occurrences(a.left@), occurrences(a.right@));
            }
        },
        ASTNode::UnaryNode(a) => {
            get_variables_into(&*a.child, found);
        },
        ASTNode::Variable(a) => {
            note_variable(found, a);
        },
        ASTNode::FunctionCall(a) => {
            let ghost inputs = node@->Call_inputs;
            assert(inputs =~= exprs_of(a.inputs@));
            let mut i: usize = 0;
            while i < a.inputs.len()
                invariant
                    i <= a.inputs@.len(),
                    decreases_to!(node => a.inputs),
                    inputs == exprs_of(a.inputs@),
                    names_of(found@) == gather(start, occurrences_in(inputs, i as nat)),
                decreases a.inputs@.len() - i,
            {
                assert(decreases_to!(a.inputs => a.inputs[i as int]));
                get_variables_into(&a.inputs[i], found);
                proof {
                    lemma_gather_append(
                        start,
                        occurrences_in(inputs, i as nat),
                        occurrences(inputs[i as int]),
                    );
                }
                i += 1;
            }
        },
        _ => {},
    }
}

/// Lists the variables of a tree: each name once, in the order of the first
/// occurrences.
pub fn get_variables<N>(node: &ASTNode<N>) -> (r: Vec<String>)
    ensures
        names_of(r@) == variables(node@),
        r@.len() == 0 <==> occurrences(node@).len() == 0,
{
    let mut found: Vec<String> = Vec::new();
    assert(names_of(found@) =~= Seq::<Seq<char>>::empty());
    get_variables_into(node, &mut found);
    proof {
        lemma_variables_first(node@);
        assert(names_of(found@).len() == found@.len());
    }
    found
}

/// A function call that holds a variable in its arguments stands somewhere
/// in `e`.
pub open spec fn calls_variable<N>(e: Expr<N>) -> bool
    decreases e,
{
    match e {
        Expr::Binary { left, right, .. } => calls_variable(*left) || calls_variable(*right),
        Expr::Unary { child, .. } => calls_variable(*child),
        Expr::Call { .. } => occurrences(e).len() > 0,
        _ => false,
    }
}

/// Whether a function call with a variable in its arguments stands in the
/// tree.
pub fn holds_call_of_variable<N>(node: &ASTNode<N>) -> (r: bool)
    ensures
        r == calls_variable(node@),
    decreases node,
{
    match node {
        ASTNode::BinaryNode(a) => holds_call_of_variable(&*a.left) || holds_call_of_variable(
            &*a.right,
        ),
        ASTNode::UnaryNode(a) => holds_call_of_variable(&*a.child),
        ASTNode::FunctionCall(_) => get_variables(node).len() > 0,
        _ => false,
    }
}

/// The expression `e` with the number `value` in place of every occurrence of
/// the variable `name`, those inside the arguments of function calls too.
pub open spec fn substitute<N>(e: Expr<N>, name: Seq<char>, value: N) -> Expr<N>
    decreases e,
{
    match e {
        Expr::Binary { priority, operation, left, right } => Expr::Binary {
            priority,
            operation,
            left: Box::new(substitute(*left, name, value)),
            right: Box::new(substitute(*right, name, value)),
        },
        Expr::Unary { priority, operation, child } => Expr::Unary {
            priority,
            operation,
            child: Box::new(substitute(*child, name, value)),
        },
        Expr::Call { name: function, inputs } => Expr::Call {
            name: function,
            inputs: substitute_each(inputs, name, value),
        },
        Expr::Variable(a) => if a == name {
            Expr::Number(value)
        } else {
            e
        },
        _ => e,
    }
}

/// The members of `inputs`, each with `value` in place of the variable `name`.
pub open spec fn substitute_each<N>(inputs: Seq<Expr<N>>, name: Seq<char>, value: N) -> Seq<
    Expr<N>,
>
    decreases inputs,
{
    Seq::new(
        inputs.len(),
        |i: int|
            if 0 <= i < inputs.len() {
                substitute(inputs[i], name, value)
            } else {
                Expr::Comma
            },
    )
}

/// Copies a tree with `value` in place of every occurrence of `variable`.
pub fn replace_variables<N: Copy>(node: &ASTNode<N>, variable: &String, value: N) -> (r: ASTNode<N>)
    ensures
        r@ == substitute(node@, variable@, value),
    decreases node,
{
    match node {
        ASTNode::BinaryNode(a) => ASTNode::BinaryNode(
            BinaryNode {
                priority: a.priority,
                left: Box::new(replace_variables(&*a.left, variable, value)),
                right: Box::new(replace_variables(&*a.right, variable, value)),
                operation: a.operation,
            },
        ),
        ASTNode::UnaryNode(a) => ASTNode::UnaryNode(
            UnaryNode {
                priority: a.priority,
                child: Box::new(replace_variables(&*a.child, variable, value)),
                operation: a.operation,
            },
        ),
        ASTNode::NumberNode(a) => ASTNode::NumberNode(*a),
        ASTNode::UnfinishedNode(a) => ASTNode::UnfinishedNode(copy_marker(a)),
        ASTNode::FunctionCall(a) => {
            let mut inputs: VecDeque<ASTNode<N>> = VecDeque::new();
            let mut i: usize = 0;
            while i < a.inputs.len()
                invariant
                    i <= a.inputs@.len(),
                    decreases_to!(node => a.inputs),
                    inputs@.len() == i,
                    forall|j: int|
                        0 <= j < i ==> (#[trigger] inputs@[j])@ == substitute(
                            a.inputs@[j]@,
                            variable@,
                            value,
                        ),
                decreases a.inputs@.len() - i,
            {
                assert(decreases_to!(a.inputs => a.inputs[i as int]));
                let replaced = replace_variables(&a.inputs[i], variable, value);
                inputs.push_back(replaced);
                i += 1;
            }
            let call = ASTNode::FunctionCall(
                FunctionCall { inputs, operation: a.operation.clone() },
            );
            assert(call@->Call_inputs =~= substitute_each(node@->Call_inputs, variable@, value));
            call
        },
        ASTNode::Comma => ASTNode::Comma,
        ASTNode::Variable(a) => {
            if *a == *variable {
                ASTNode::NumberNode(value)
            } else {
                ASTNode::Variable(a.clone())
            }
        },
    }
}

/// A number as a node, or the error that kept it from being computed.
pub open spec fn number_or<N>(value: Result<N, Error>) -> Result<Expr<N>, Error> {
    match value {
        Ok(v) => Ok(Expr::Number(v)),
        Err(e) => Err(e),
    }
}

/// The expression `e` with every part folded that holds no variable.
///
/// A binary node of two numbers becomes their result, a change of sign of a
/// number the negated number, a group round a number that number, and a
/// function call whose arguments are all numbers its value. A node that keeps
/// a variable beneath it keeps its shape over the folded operands. A marker of
/// the construction cannot be folded, and a call with an argument that cannot
/// be folded fails.
pub open spec fn reduce<N>(e: Expr<N>, table: Table<N>) -> Result<Expr<N>, Error>
    decreases e,
{
    match e {
        Expr::Binary { priority, operation, left, right } => match reduce(*left, table) {
            Err(e) => Err(e),
            Ok(l) => match reduce(*right, table) {
                Err(e) => Err(e),
                Ok(r) => match (l, r) {
                    (Expr::Number(a), Expr::Number(b)) => number_or(
                        answer(table, Request::Binary(operation, a, b)),
                    ),
                    _ => Ok(
                        Expr::Binary { priority, operation, left: Box::new(l), right: Box::new(r) },
                    ),
                },
            },
        },
        Expr::Unary { priority, operation, child } => match reduce(*child, table) {
            Err(e) => Err(e),
            Ok(c) => match c {
                Expr::Number(a) => match operation {
                    UnaryOperation::Parens => Ok(c),
                    UnaryOperation::Negate => number_or(answer(table, Request::Negate(a))),
                },
                _ => Ok(Expr::Unary { priority, operation, child: Box::new(c) }),
            },
        },
        Expr::Number(_) => Ok(e),
        Expr::Variable(_) => Ok(e),
        Expr::Unfinished(_) => Err(Error::UnfinishedExpression),
        Expr::Comma => Err(Error::StrayComma),
        Expr::Call { name, inputs } => {
            let results = reduce_each(inputs, table);
            if exists|i: int| 0 <= i < results.len() && (#[trigger] results[i]) is Err {
                Err(Error::BadArgument)
            } else {
                let folded = Expr::Call {
                    name,
                    inputs: Seq::new(results.len(), |i: int| results[i]->Ok_0),
                };
                if forall|i: int| 0 <= i < results.len() ==> (#[trigger] results[i])->Ok_0 is Number {
                    number_or(evaluate(folded, table))
                } else {
                    Ok(folded)
                }
            }
        },
    }
}

/// The members of a sequence of expressions, each folded.
pub open spec fn reduce_each<N>(inputs: Seq<Expr<N>>, table: Table<N>) -> Seq<
    Result<Expr<N>, Error>,
>
    decreases inputs,
{
    Seq::new(
        inputs.len(),
        |i: int|
            if 0 <= i < inputs.len() {
                reduce(inputs[i], table)
            } else {
                Err(Error::BadArgument)
            },
    )
}

/// Sequences whose members hold the same occurrences hold the same occurrences.
pub proof fn lemma_occurrences_in_same<N>(a: Seq<Expr<N>>, b: Seq<Expr<N>>, n: nat)
    requires
        a.len() == b.len(),
        n <= a.len(),
        forall|i: int| 0 <= i < a.len() ==> occurrences(#[trigger] a[i]) == occurrences(b[i]),
    ensures
        occurrences_in(a, n) == occurrences_in(b, n),
    decreases n,
{
    if n > 0 {
        lemma_occurrences_in_same(a, b, (n - 1) as nat);
    }
}

/// Members without occurrences make a sequence without occurrences.
pub proof fn lemma_occurrences_in_none<N>(a: Seq<Expr<N>>, n: nat)
    requires
        n <= a.len(),
        forall|i: int| 0 <= i < a.len() ==> occurrences(#[trigger] a[i]).len() == 0,
    ensures
        occurrences_in(a, n).len() == 0,
    decreases n,
{
    if n > 0 {
        lemma_occurrences_in_none(a, (n - 1) as nat);
    }
}

/// Nothing is left to fold in `e`: no binary node joins two numbers, no
/// unary node holds a number, no function call has numbers alone for
/// arguments, and no marker of the construction stands in it.
pub open spec fn fully_folded<N>(e: Expr<N>) -> bool
    decreases e,
{
    match e {
        Expr::Binary { left, right, .. } => {
            &&& fully_folded(*left)
            &&& fully_folded(*right)
            &&& !(*left is Number && *right is Number)
        },
        Expr::Unary { child, .. } => fully_folded(*child) && !(*child is Number),
        Expr::Call { inputs, .. } => {
            &&& forall|i: int| 0 <= i < inputs.len() ==> fully_folded(#[trigger] inputs[i])
            &&& exists|i: int| 0 <= i < inputs.len() && !((#[trigger] inputs[i]) is Number)
        },
        Expr::Number(_) => true,
        Expr::Variable(_) => true,
        Expr::Unfinished(_) => false,
        Expr::Comma => false,
    }
}

/// The two expressions have the same node at the root: the same operator
/// with the same priority, the same function, the same variable or the same
/// number.
pub open spec fn same_root<N>(a: Expr<N>, b: Expr<N>) -> bool {
    match a {
        Expr::Binary { priority, operation, .. } => b matches Expr::Binary {
            priority: q,
            operation: o,
            ..
        } && q == priority && o == operation,
        Expr::Unary { priority, operation, .. } => b matches Expr::Unary {
            priority: q,
            operation: o,
            ..
        } && q == priority && o == operation,
        Expr::Call { name, .. } => b matches Expr::Call { name: other, .. } && other == name,
        _ => b == a,
    }
}

fn is_number<N>(node: &ASTNode<N>) -> (r: bool)
    ensures
        r == (node@ is Number),
{
    match node {
        ASTNode::NumberNode(_) => true,
        _ => false,
    }
}

/// Folds every part of a tree that holds no variable, with the arithmetic
/// `ops`. Whatever the arithmetic answers: a tree in which nothing is left to
/// fold comes back as it is, so a number, a variable and every folded tree;
/// a tree with a marker of the construction in it is not folded; a folded
/// tree holds the occurrences of variables of the tree it came from, in
/// their order, and nothing that is left to fold; and a node above a
/// variable keeps its kind, its operator and its priority.
pub fn reduce_ast<N: Copy, F: Fn(Operation<N>) -> Option<N>>(node: &ASTNode<N>, ops: &F) -> (r:
    Result<ASTNode<N>, Error>)
    requires
        total(ops),
    ensures
        forall|table: Table<N>|
            follows(ops, table) ==> node_result(r, #[trigger] reduce(node@, table)),
        r matches Ok(n) ==> occurrences(n@) == occurrences(node@) && fully_folded(n@) && finished(node@),
        r matches Ok(n) ==> (occurrences(node@).len() > 0 ==> same_root(node@, n@)),
        fully_folded(node@) ==> (r matches Ok(n) && n@ == node@),
        node@ is Unfinished ==> r == Err::<ASTNode<N>, Error>(Error::UnfinishedExpression),
        node@ is Comma ==> r == Err::<ASTNode<N>, Error>(Error::StrayComma),
    decreases node,
{
    match node {
        ASTNode::BinaryNode(a) => {
            let left = match reduce_ast(&*a.left, ops) {
                Ok(left) => left,
                Err(e) => {
                    assert forall|table: Table<N>| follows(ops, table) implies node_result(
                        Err::<ASTNode<N>, Error>(e),
                        #[trigger] reduce(node@, table),
                    ) by {
                        assert(node_result(Err::<ASTNode<N>, Error>(e), reduce(a.left@, table)));
                    }
                    return Err(e);
                },
            };
            let right = match reduce_ast(&*a.right, ops) {
                Ok(right) => right,
                Err(e) => {
                    assert forall|table: Table<N>| follows(ops, table) implies node_result(
                        Err::<ASTNode<N>, Error>(e),
                        #[trigger] reduce(node@, table),
                    ) by {
                        assert(node_result(Ok::<ASTNode<N>, Error>(left), reduce(a.left@, table)));
                        assert(node_result(Err::<ASTNode<N>, Error>(e), reduce(a.right@, table)));
                    }
                    return Err(e);
                },
            };
            match (left, right) {
                (ASTNode::NumberNode(x), ASTNode::NumberNode(y)) => {
                    let value = ask(ops, Operation::Binary(a.operation, x, y));
                    let r = match value {
                        Ok(v) => Ok(ASTNode::NumberNode(v)),
                        Err(e) => Err(e),
                    };
                    proof {
                        assert forall|table: Table<N>| follows(ops, table) implies node_result(
                            r,
                            #[trigger] reduce(node@, table),
                        ) by {
                            assert(reduce(a.left@, table) == Ok::<Expr<N>, Error>(Expr::Number(x)));
                            assert(reduce(a.right@, table) == Ok::<Expr<N>, Error>(Expr::Number(y)));
                            assert(value == answer(table, Operation::Binary(a.operation, x, y)@));
                        }
                    }
                    r
                },
                (left, right) => {
                    let r = ASTNode::BinaryNode(
                        BinaryNode {
                            priority: a.priority,
                            left: Box::new(left),
                            right: Box::new(right),
                            operation: a.operation,
                        },
                    );
                    proof {
                        assert forall|table: Table<N>| follows(ops, table) implies node_result(
                            Ok::<ASTNode<N>, Error>(r),
                            #[trigger] reduce(node@, table),
                        ) by {
                            assert(reduce(a.left@, table) == Ok::<Expr<N>, Error>(left@));
                            assert(reduce(a.right@, table) == Ok::<Expr<N>, Error>(right@));
                        }
                    }
                    Ok(r)
                },
            }
        },
        ASTNode::UnaryNode(a) => {
            let child = match reduce_ast(&*a.child, ops) {
                Ok(child) => child,
                Err(e) => {
                    assert forall|table: Table<N>| follows(ops, table) implies node_result(
                        Err::<ASTNode<N>, Error>(e),
                        #[trigger] reduce(node@, table),
                    ) by {
                        assert(node_result(Err::<ASTNode<N>, Error>(e), reduce(a.child@, table)));
                    }
                    return Err(e);
                },
            };
            match child {
                ASTNode::NumberNode(x) => {
                    let r = match a.operation {
                        UnaryOperation::Parens => Ok(ASTNode::NumberNode(x)),
                        UnaryOperation::Negate => match ask(ops, Operation::Negate(x)) {
                            Ok(v) => Ok(ASTNode::NumberNode(v)),
                            Err(e) => Err(e),
                        },
                    };
                    proof {
                        assert forall|table: Table<N>| follows(ops, table) implies node_result(
                            r,
                            #[trigger] reduce(node@, table),
                        ) by {
                            assert(reduce(a.child@, table) == Ok::<Expr<N>, Error>(Expr::Number(x)));
                            if a.operation == UnaryOperation::Negate {
                                assert(number_or(answer(table, Operation::Negate(x)@)) == reduce(
                                    node@,
                                    table,
                                ));
                            }
                        }
                    }
                    r
                },
                child => {
                    let r = ASTNode::UnaryNode(
                        UnaryNode {
                            priority: a.priority,
                            child: Box::new(child),
                            operation: a.operation,
                        },
                    );
                    proof {
                        assert forall|table: Table<N>| follows(ops, table) implies node_result(
                            Ok::<ASTNode<N>, Error>(r),
                            #[trigger] reduce(node@, table),
                        ) by {
                            assert(reduce(a.child@, table) == Ok::<Expr<N>, Error>(child@));
                        }
                    }
                    Ok(r)
                },
            }
        },
        ASTNode::NumberNode(a) => Ok(ASTNode::NumberNode(*a)),
        ASTNode::UnfinishedNode(_) => Err(Error::UnfinishedExpression),
        ASTNode::Comma => Err(Error::StrayComma),
        ASTNode::FunctionCall(a) => {
            let mut inputs: VecDeque<ASTNode<N>> = VecDeque::new();
            let mut non_reducible = false;
            let mut i: usize = 0;
            assert(node@->Call_inputs =~= exprs_of(a.inputs@));
            while i < a.inputs.len()
                invariant
                    total(ops),
                    i <= a.inputs@.len(),
                    decreases_to!(node => a.inputs),
                    inputs@.len() == i,
                    forall|table: Table<N>, j: int|
                        follows(ops, table) && 0 <= j < i ==> #[trigger] reduce(
                            a.inputs@[j]@,
                            table,
                        ) == Ok::<Expr<N>, Error>(inputs@[j]@),
                    non_reducible == exists|j: int|
                        0 <= j < i && !((#[trigger] inputs@[j])@ is Number),
                    node@ == (Expr::Call { name: a.operation@, inputs: exprs_of(a.inputs@) }),
                    forall|j: int|
                        0 <= j < i ==> occurrences((#[trigger] inputs@[j])@) == occurrences(
                            a.inputs@[j]@,
                        ) && fully_folded(inputs@[j]@) && finished(a.inputs@[j]@) && (fully_folded(
                            a.inputs@[j]@,
                        ) ==> inputs@[j]@ == a.inputs@[j]@),
                decreases a.inputs@.len() - i,
            {
                assert(decreases_to!(a.inputs => a.inputs[i as int]));
                let ghost before = inputs@;
                match reduce_ast(&a.inputs[i], ops) {
                    Ok(input) => {
                        let ghost folded = input@;
                        if !is_number(&input) {
                            non_reducible = true;
                        }
                        inputs.push_back(input);
                        proof {
                            assert(inputs@[i as int] == input);
                            assert forall|j: int| 0 <= j < i implies inputs@[j] == before[j] by {}
                            if non_reducible {
                                if folded is Number {
                                    let j = choose|j: int|
                                        0 <= j < i && !((#[trigger] before[j])@ is Number);
                                    assert(!(inputs@[j]@ is Number));
                                } else {
                                    assert(!(inputs@[i as int]@ is Number));
                                }
                            }
                        }
                    },
                    Err(e) => {
                        proof {
                            assert forall|table: Table<N>| follows(ops, table) implies node_result(
                                Err::<ASTNode<N>, Error>(Error::BadArgument),
                                #[trigger] reduce(node@, table),
                            ) by {
                                assert(reduce(a.inputs@[i as int]@, table) is Err);
                                let results = reduce_each(node@->Call_inputs, table);
                                assert(results[i as int] is Err);
                            }
                            assert(node@->Call_inputs[i as int] == a.inputs@[i as int]@);
                            assert(!fully_folded(node@));
                        }
                        return Err(Error::BadArgument);
                    },
                }
                i += 1;
            }
            let ghost folded = Expr::Call { name: a.operation@, inputs: exprs_of(inputs@) };
            proof {
                let was = exprs_of(a.inputs@);
                let now = exprs_of(inputs@);
                assert forall|j: int| 0 <= j < now.len() implies occurrences(#[trigger] now[j])
                    == occurrences(was[j]) && fully_folded(now[j]) by {
                    assert(occurrences(inputs@[j]@) == occurrences(a.inputs@[j]@));
                }
                lemma_occurrences_in_same(now, was, was.len());
                assert forall|j: int| 0 <= j < was.len() implies finished(#[trigger] was[j]) by {
                    assert(occurrences(inputs@[j]@) == occurrences(a.inputs@[j]@));
                    assert(was[j] == a.inputs@[j]@);
                }
                assert(finished(node@));
                if non_reducible {
                    let j = choose|j: int|
                        0 <= j < inputs@.len() && !((#[trigger] inputs@[j])@ is Number);
                    assert(!(now[j] is Number));
                    assert(fully_folded(folded));
                } else {
                    assert forall|j: int| 0 <= j < now.len() implies occurrences(
                        #[trigger] now[j],
                    ).len() == 0 by {
                        assert(inputs@[j]@ is Number);
                    }
                    lemma_occurrences_in_none(now, now.len());
                    assert(occurrences(node@).len() == 0);
                }
                assert(occurrences(folded) == occurrences(node@));
                if fully_folded(node@) {
                    assert forall|j: int| 0 <= j < now.len() implies now[j] == was[j] by {
                        assert(fully_folded(was[j]));
                        assert(inputs@[j]@ == a.inputs@[j]@);
                    }
                    assert(now =~= was);
                    let j = choose|j: int| 0 <= j < was.len() && !((#[trigger] was[j]) is Number);
                    assert(!(inputs@[j]@ is Number));
                    assert(non_reducible);
                }
                assert forall|table: Table<N>| follows(ops, table) implies ({
                    let results = reduce_each(node@->Call_inputs, table);
                    &&& !(exists|i: int| 0 <= i < results.len() && (#[trigger] results[i]) is Err)
                    &&& folded == Expr::Call {
                        name: a.operation@,
                        inputs: Seq::new(results.len(), |i: int| results[i]->Ok_0),
                    }
                    &&& non_reducible == !(forall|i: int|
                        0 <= i < results.len() ==> (#[trigger] results[i])->Ok_0 is Number)
                }) by {
                    let results = reduce_each(node@->Call_inputs, table);
                    assert forall|i: int| 0 <= i < results.len() implies (#[trigger] results[i])
                        == Ok::<Expr<N>, Error>(inputs@[i]@) by {
                        assert(reduce(a.inputs@[i]@, table) == Ok::<Expr<N>, Error>(inputs@[i]@));
                    }
                    assert(exprs_of(inputs@) =~= Seq::new(
                        results.len(),
                        |i: int| results[i]->Ok_0,
                    ));
                    if non_reducible {
                        let j = choose|j: int|
                            0 <= j < inputs@.len() && !((#[trigger] inputs@[j])@ is Number);
                        assert(!(results[j]->Ok_0 is Number));
                    } else {
                        assert forall|i: int| 0 <= i < results.len() implies (
                        #[trigger] results[i])->Ok_0 is Number by {
                            assert(inputs@[i]@ is Number);
                        }
                    }
                }
            }
            if non_reducible {
                let call = ASTNode::FunctionCall(
                    FunctionCall { inputs, operation: a.operation.clone() },
                );
                assert(call@->Call_inputs =~= exprs_of(inputs@));
                proof {
                    assert forall|table: Table<N>| follows(ops, table) implies node_result(
                        Ok::<ASTNode<N>, Error>(call),
                        #[trigger] reduce(node@, table),
                    ) by {
                        let results = reduce_each(node@->Call_inputs, table);
                    }
                }
                Ok(call)
            } else {
                let call = FunctionCall { inputs, operation: a.operation.clone() };
                assert(call_of(call) == folded);
                let value = evaluate_function(call, ops);
                let r = match value {
                    Ok(v) => Ok(ASTNode::NumberNode(v)),
                    Err(e) => Err(e),
                };
                proof {
                    assert forall|table: Table<N>| follows(ops, table) implies node_result(
                        r,
                        #[trigger] reduce(node@, table),
                    ) by {
                        let results = reduce_each(node@->Call_inputs, table);
                        assert(value == evaluate(folded, table));
                    }
                }
                r
            }
        },
        ASTNode::Variable(a) => Ok(ASTNode::Variable(a.clone())),
    }
}

/// The value of `x` in `a operation x = target`, where the arithmetic knows
/// one: the inverse of the operation with the constant `a` on the left.
pub open spec fn undo_left<N>(operation: BinaryOperation, a: N, target: N, table: Table<N>) -> Result<
    N,
    Error,
> {
    match operation {
        BinaryOperation::Plus => answer(table, Request::Binary(BinaryOperation::Minus, target, a)),
        BinaryOperation::Minus => answer(table, Request::Binary(BinaryOperation::Minus, a, target)),
        BinaryOperation::Times => answer(table, Request::Binary(BinaryOperation::Divide, target, a)),
        BinaryOperation::Divide => answer(table, Request::Binary(BinaryOperation::Divide, a, target)),
        BinaryOperation::Exponent => match answer(table, Request::Function(UnaryFunction::Ln, target)) {
            Err(e) => Err(e),
            Ok(high) => match answer(table, Request::Function(UnaryFunction::Ln, a)) {
                Err(e) => Err(e),
                Ok(low) => answer(table, Request::Binary(BinaryOperation::Divide, high, low)),
            },
        },
        BinaryOperation::Modulus => Err(Error::UnsupportedEquation),
    }
}

/// The value of `x` in `x operation a = target`, where the arithmetic knows
/// one: the inverse of the operation with the constant `a` on the right.
pub open spec fn undo_right<N>(operation: BinaryOperation, a: N, target: N, table: Table<N>) -> Result<
    N,
    Error,
> {
    match operation {
        BinaryOperation::Plus => answer(table, Request::Binary(BinaryOperation::Minus, target, a)),
        BinaryOperation::Minus => answer(table, Request::Binary(BinaryOperation::Plus, target, a)),
        BinaryOperation::Times => answer(table, Request::Binary(BinaryOperation::Divide, target, a)),
        BinaryOperation::Divide => answer(table, Request::Binary(BinaryOperation::Times, a, target)),
        BinaryOperation::Exponent => match answer(table, Request::Integer(1)) {
            Err(e) => Err(e),
            Ok(one) => match answer(table, Request::Binary(BinaryOperation::Divide, one, a)) {
                Err(e) => Err(e),
                Ok(inverse) => answer(
                    table,
                    Request::Binary(BinaryOperation::Exponent, target, inverse),
                ),
            },
        },
        BinaryOperation::Modulus => Err(Error::UnsupportedEquation),
    }
}

/// The value of the one variable of `side` in `side = target`.
///
/// The outermost operation is peeled off `side` and its inverse applied to the
/// target, until the variable is bare. A binary node needs a number as one
/// operand, the left one first, and goes on with the other; a change of sign
/// negates the target; a group is transparent. No other shape can be solved.
pub open spec fn isolate<N>(side: Expr<N>, target: N, table: Table<N>) -> Result<N, Error>
    decreases side,
{
    match side {
        Expr::Variable(_) => Ok(target),
        Expr::Unary { operation, child, .. } => match operation {
            UnaryOperation::Parens => isolate(*child, target, table),
            UnaryOperation::Negate => match answer(table, Request::Negate(target)) {
                Err(e) => Err(e),
                Ok(negated) => isolate(*child, negated, table),
            },
        },
        Expr::Binary { operation, left, right, .. } => match (*left, *right) {
            (Expr::Number(a), rest) => match undo_left(operation, a, target, table) {
                Err(e) => Err(e),
                Ok(next) => isolate(rest, next, table),
            },
            (rest, Expr::Number(a)) => match undo_right(operation, a, target, table) {
                Err(e) => Err(e),
                Ok(next) => isolate(rest, next, table),
            },
            _ => Err(Error::UnsupportedEquation),
        },
        Expr::Number(_) => Err(Error::UnsupportedEquation),
        Expr::Call { .. } => Err(Error::FunctionInGraph),
        Expr::Unfinished(_) => Err(Error::UnfinishedExpression),
        Expr::Comma => Err(Error::StrayComma),
    }
}

/// The value of the variable of `side` in `side = other`: `other` is
/// evaluated, `side` is folded, and the variable is isolated.
pub open spec fn solve_side<N>(side: Expr<N>, other: Expr<N>, table: Table<N>) -> Result<N, Error> {
    match evaluate(other, table) {
        Err(e) => Err(e),
        Ok(target) => match reduce(side, table) {
            Err(e) => Err(e),
            Ok(folded) => isolate(folded, target, table),
        },
    }
}

/// The value of the one variable that is left in `left = right`. The side that
/// holds it is `left` where `left` holds a variable and `right` holds none, and
/// `right` in every other case.
pub open spec fn solve<N>(left: Expr<N>, right: Expr<N>, table: Table<N>) -> Result<N, Error> {
    if variables(left).len() > 0 && variables(right).len() == 0 {
        solve_side(left, right, table)
    } else {
        solve_side(right, left, table)
    }
}

/// The left side holds the variable to solve for: it holds a variable and the
/// right side holds none.
pub open spec fn solves_left<N>(left: Expr<N>, right: Expr<N>) -> bool {
    variables(left).len() > 0 && variables(right).len() == 0
}

/// The side of `left = right` that is evaluated: the one that is not solved
/// for.
pub open spec fn constant_side<N>(left: Expr<N>, right: Expr<N>) -> Expr<N> {
    if solves_left(left, right) {
        right
    } else {
        left
    }
}

/// The side of `left = right` that holds the variable to solve for.
pub open spec fn variable_side<N>(left: Expr<N>, right: Expr<N>) -> Expr<N> {
    if solves_left(left, right) {
        left
    } else {
        right
    }
}

/// The equation can have a solution: the variable occurs once, on one side,
/// and the other side can have a value.
pub open spec fn solvable<N>(left: Expr<N>, right: Expr<N>) -> bool {
    occurrences(variable_side(left, right)).len() == 1 && evaluable(constant_side(left, right))
}

fn undo_left_with<N: Copy, F: Fn(Operation<N>) -> Option<N>>(
    operation: BinaryOperation,
    a: N,
    target: N,
    ops: &F,
) -> (r: Result<N, Error>)
    requires
        total(ops),
    ensures
        forall|table: Table<N>|
            follows(ops, table) ==> r == #[trigger] undo_left(operation, a, target, table),
{
    match operation {
        BinaryOperation::Plus => ask(ops, Operation::Binary(BinaryOperation::Minus, target, a)),
        BinaryOperation::Minus => ask(ops, Operation::Binary(BinaryOperation::Minus, a, target)),
        BinaryOperation::Times => ask(ops, Operation::Binary(BinaryOperation::Divide, target, a)),
        BinaryOperation::Divide => ask(ops, Operation::Binary(BinaryOperation::Divide, a, target)),
        BinaryOperation::Exponent => {
            let high = ask(ops, Operation::Function(UnaryFunction::Ln, target));
            let low = ask(ops, Operation::Function(UnaryFunction::Ln, a));
            let r = match (high, low) {
                (Ok(h), Ok(l)) => ask(ops, Operation::Binary(BinaryOperation::Divide, h, l)),
                (Err(e), _) => Err(e),
                (Ok(_), Err(e)) => Err(e),
            };
            proof {
                assert forall|table: Table<N>| follows(ops, table) implies r == #[trigger] undo_left(
                    operation,
                    a,
                    target,
                    table,
                ) by {
                    assert(high == answer(table, Operation::Function(UnaryFunction::Ln, target)@));
                    assert(low == answer(table, Operation::Function(UnaryFunction::Ln, a)@));
                    if let (Ok(h), Ok(l)) = (high, low) {
                        assert(r == answer(
                            table,
                            Operation::Binary(BinaryOperation::Divide, h, l)@,
                        ));
                    }
                }
            }
            r
        },
        BinaryOperation::Modulus => Err(Error::UnsupportedEquation),
    }
}

fn undo_right_with<N: Copy, F: Fn(Operation<N>) -> Option<N>>(
    operation: BinaryOperation,
    a: N,
    target: N,
    ops: &F,
) -> (r: Result<N, Error>)
    requires
        total(ops),
    ensures
        forall|table: Table<N>|
            follows(ops, table) ==> r == #[trigger] undo_right(operation, a, target, table),
{
    match operation {
        BinaryOperation::Plus => ask(ops, Operation::Binary(BinaryOperation::Minus, target, a)),
        BinaryOperation::Minus => ask(ops, Operation::Binary(BinaryOperation::Plus, target, a)),
        BinaryOperation::Times => ask(ops, Operation::Binary(BinaryOperation::Divide, target, a)),
        BinaryOperation::Divide => ask(ops, Operation::Binary(BinaryOperation::Times, a, target)),
        BinaryOperation::Exponent => {
            let one = ask(ops, Operation::Integer(1));
            let r = match one {
                Err(e) => Err(e),
                Ok(one) => {
                    let inverse = ask(ops, Operation::Binary(BinaryOperation::Divide, one, a));
                    let r = match inverse {
                        Err(e) => Err(e),
                        Ok(inverse) => ask(
                            ops,
                            Operation::Binary(BinaryOperation::Exponent, target, inverse),
                        ),
                    };
                    proof {
                        assert forall|table: Table<N>| follows(ops, table) implies r == match answer(
                            table,
                            Request::Binary(BinaryOperation::Divide, one, a),
                        ) {
                            Err(e) => Err(e),
                            Ok(inverse) => answer(
                                table,
                                Request::Binary(BinaryOperation::Exponent, target, inverse),
                            ),
                        } by {
                            assert(inverse == answer(
                                table,
                                Operation::Binary(BinaryOperation::Divide, one, a)@,
                            ));
                            if let Ok(i) = inverse {
                                assert(r == answer(
                                    table,
                                    Operation::Binary(BinaryOperation::Exponent, target, i)@,
                                ));
                            }
                        }
                    }
                    r
                },
            };
            proof {
                assert forall|table: Table<N>| follows(ops, table) implies r
                    == #[trigger] undo_right(operation, a, target, table) by {
                    assert(one == answer(table, Operation::<N>::Integer(1)@));
                }
            }
            r
        },
        BinaryOperation::Modulus => Err(Error::UnsupportedEquation),
    }
}

/// Isolates the variable of a folded tree; see [`isolate`].
fn isolate_node<N: Copy, F: Fn(Operation<N>) -> Option<N>>(side: ASTNode<N>, target: N, ops: &F) -> (r:
    Result<N, Error>)
    requires
        total(ops),
    ensures
        forall|table: Table<N>|
            follows(ops, table) ==> r == #[trigger] isolate(side@, target, table),
        r is Ok ==> occurrences(side@).len() == 1,
    decreases side,
{
    match side {
        ASTNode::Variable(_) => Ok(target),
        ASTNode::UnaryNode(a) => match a.operation {
            UnaryOperation::Parens => {
                let r = isolate_node(*a.child, target, ops);
                proof {
                    assert forall|table: Table<N>| follows(ops, table) implies r
                        == #[trigger] isolate(side@, target, table) by {
                        assert(r == isolate(a.child@, target, table));
                    }
                }
                r
            },
            UnaryOperation::Negate => {
                let negated = ask(ops, Operation::Negate(target));
                let r = match negated {
                    Err(e) => Err(e),
                    Ok(negated) => isolate_node(*a.child, negated, ops),
                };
                proof {
                    assert forall|table: Table<N>| follows(ops, table) implies r
                        == #[trigger] isolate(side@, target, table) by {
                        assert(negated == answer(table, Operation::Negate(target)@));
                        if let Ok(n) = negated {
                            assert(r == isolate(a.child@, n, table));
                        }
                    }
                }
                r
            },
        },
        ASTNode::BinaryNode(a) => {
            let ghost on_left = a.left@;
            let ghost on_right = a.right@;
            let BinaryNode { priority: _, left, right, operation } = a;
            assert(side@ matches Expr::Binary { operation: o, left: l, right: r, .. } && o == operation
                && *l == on_left && *r == on_right);
            assert(occurrences(side@) == occurrences(on_left) + occurrences(on_right));
            assert(on_left is Number ==> occurrences(on_left).len() == 0);
            assert(on_right is Number ==> occurrences(on_right).len() == 0);
            match (*left, *right) {
                (ASTNode::NumberNode(x), rest) => {
                    let next = undo_left_with(operation, x, target, ops);
                    let r = match next {
                        Err(e) => Err(e),
                        Ok(next) => isolate_node(rest, next, ops),
                    };
                    proof {
                        assert forall|table: Table<N>| follows(ops, table) implies r
                            == #[trigger] isolate(side@, target, table) by {
                            assert(on_left == Expr::Number(x) && on_right == rest@);
                            assert(next == undo_left(operation, x, target, table));
                            if let Ok(n) = next {
                                assert(r == isolate(rest@, n, table));
                            }
                        }
                    }
                    r
                },
                (rest, ASTNode::NumberNode(x)) => {
                    let next = undo_right_with(operation, x, target, ops);
                    let r = match next {
                        Err(e) => Err(e),
                        Ok(next) => isolate_node(rest, next, ops),
                    };
                    proof {
                        assert forall|table: Table<N>| follows(ops, table) implies r
                            == #[trigger] isolate(side@, target, table) by {
                            assert(!(on_left is Number) && on_left == rest@);
                            assert(on_right == Expr::Number(x));
                            assert(next == undo_right(operation, x, target, table));
                            if let Ok(n) = next {
                                assert(r == isolate(rest@, n, table));
                            }
                        }
                    }
                    r
                },
                (rest, other) => {
                    assert(!(on_left is Number) && !(on_right is Number));
                    Err(Error::UnsupportedEquation)
                },
            }
        },
        ASTNode::NumberNode(_) => Err(Error::UnsupportedEquation),
        ASTNode::FunctionCall(_) => Err(Error::FunctionInGraph),
        ASTNode::UnfinishedNode(_) => Err(Error::UnfinishedExpression),
        ASTNode::Comma => Err(Error::StrayComma),
    }
}

fn solve_side_with<N: Copy, F: Fn(Operation<N>) -> Option<N>>(
    side: ASTNode<N>,
    other: ASTNode<N>,
    ops: &F,
) -> (r: Result<N, Error>)
    requires
        total(ops),
    ensures
        forall|table: Table<N>|
            follows(ops, table) ==> r == #[trigger] solve_side(side@, other@, table),
        r is Ok ==> occurrences(side@).len() == 1 && evaluable(other@),
        settled(other@) matches Some(Err(e)) ==> r == Err::<N, Error>(e),
{
    let target = evaluate_ast(other, ops);
    let r = match target {
        Err(e) => Err(e),
        Ok(target) => {
            let folded = reduce_ast(&side, ops);
            let r = match folded {
                Err(e) => Err(e),
                Ok(folded) => isolate_node(folded, target, ops),
            };
            proof {
                assert forall|table: Table<N>| follows(ops, table) implies r == match reduce(
                    side@,
                    table,
                ) {
                    Err(e) => Err(e),
                    Ok(folded) => isolate(folded, target, table),
                } by {
                    assert(node_result(folded, reduce(side@, table)));
                    if let Ok(f) = folded {
                        assert(r == isolate(f@, target, table));
                    }
                }
            }
            r
        },
    };
    proof {
        assert forall|table: Table<N>| follows(ops, table) implies r == #[trigger] solve_side(
            side@,
            other@,
            table,
        ) by {
            assert(target == evaluate(other@, table));
        }
    }
    r
}

/// Solves `left = right` for the one variable that is left in it, with the
/// arithmetic `ops`. Whatever the arithmetic answers, only a solvable
/// equation has a solution, and a settled error of the side without the
/// variable is the result.
pub fn solve_for_variable<N: Copy, F: Fn(Operation<N>) -> Option<N>>(
    left: ASTNode<N>,
    right: ASTNode<N>,
    ops: &F,
) -> (r: Result<N, Error>)
    requires
        total(ops),
    ensures
        forall|table: Table<N>| follows(ops, table) ==> r == #[trigger] solve(left@, right@, table),
        r is Ok ==> solvable(left@, right@),
        settled(constant_side(left@, right@)) matches Some(Err(e)) ==> r == Err::<N, Error>(e),
{
    let on_left = get_variables(&left);
    let on_right = get_variables(&right);
    assert(names_of(on_left@).len() == on_left@.len());
    assert(names_of(on_right@).len() == on_right@.len());
    if on_left.len() > 0 && on_right.len() == 0 {
        solve_side_with(left, right, ops)
    } else {
        solve_side_with(right, left, ops)
    }
}

/// A point of the plane.
#[derive(Debug, PartialEq)]
pub struct Point<N> {
    pub x: N,
    pub y: N,
}

impl<N: Copy> Clone for Point<N> {
    fn clone(&self) -> (r: Self)
        ensures
            r == *self,
    {
        Point { x: self.x, y: self.y }
    }
}

impl<N: Copy> Copy for Point<N> {

}

/// The number of samples of a graph.
pub const SAMPLES: usize = 100;

/// The value of the independent variable at sample `i`: `i / 5`.
pub open spec fn sample<N>(i: int, table: Table<N>) -> Result<N, Error> {
    match answer(table, Request::Integer(i)) {
        Err(e) => Err(e),
        Ok(numerator) => match answer(table, Request::Integer(5)) {
            Err(e) => Err(e),
            Ok(denominator) => answer(
                table,
                Request::Binary(BinaryOperation::Divide, numerator, denominator),
            ),
        },
    }
}

/// The point of `left = right` at sample `i`: `x` is the sample's value of
/// `variable`, and `y` the value of the other variable that solves the
/// equation once `x` stands in place of `variable` on both sides.
pub open spec fn point_at<N>(
    left: Expr<N>,
    right: Expr<N>,
    variable: Seq<char>,
    i: int,
    table: Table<N>,
) -> Result<Point<N>, Error> {
    match sample(i, table) {
        Err(e) => Err(e),
        Ok(x) => match solve(
            substitute(left, variable, x),
            substitute(right, variable, x),
            table,
        ) {
            Err(e) => Err(e),
            Ok(y) => Ok(Point { x, y }),
        },
    }
}

/// The points of `left = right` at the samples `from`, `from + 1`, up to 49,
/// in this order, or the error of the first sample that has no point.
pub open spec fn plot<N>(
    left: Expr<N>,
    right: Expr<N>,
    variable: Seq<char>,
    from: int,
    table: Table<N>,
) -> Result<Seq<Point<N>>, Error>
    decreases 50 - from,
{
    if from >= 50 {
        Ok(Seq::empty())
    } else {
        match point_at(left, right, variable, from, table) {
            Err(e) => Err(e),
            Ok(p) => match plot(left, right, variable, from + 1, table) {
                Err(e) => Err(e),
                Ok(rest) => Ok(seq![p] + rest),
            },
        }
    }
}

/// The tokens of an equation without the `graph(` before it and the `)` after
/// it, where they are there.
pub open spec fn unwrapped<N>(tokens: Seq<Lexeme<N>>) -> Seq<Lexeme<N>> {
    let inner = if tokens.len() > 0 && tokens[0] is Graph {
        tokens.drop_first()
    } else {
        tokens
    };
    if inner.len() > 0 && inner.last() is RightParen {
        inner.drop_last()
    } else {
        inner
    }
}

/// The place of the first `=` among the tokens, or their number if there is
/// none.
pub open spec fn first_equal<N>(tokens: Seq<Lexeme<N>>) -> int
    decreases tokens.len(),
{
    if tokens.len() == 0 {
        0
    } else if tokens[0] is Equal {
        0
    } else {
        1 + first_equal(tokens.drop_first())
    }
}

/// The tokens before the first `=`.
pub open spec fn left_of_equal<N>(tokens: Seq<Lexeme<N>>) -> Seq<Lexeme<N>> {
    tokens.take(first_equal(tokens))
}

/// The tokens after the first `=`; none where there is no `=`.
pub open spec fn right_of_equal<N>(tokens: Seq<Lexeme<N>>) -> Seq<Lexeme<N>> {
    if first_equal(tokens) < tokens.len() {
        tokens.skip(first_equal(tokens) + 1)
    } else {
        Seq::empty()
    }
}

/// The graph of an equation given by its tokens.
///
/// The tokens are unwrapped and split at the first `=`, and each side is built
/// into a tree; the error of the left side comes first. Both sides must hold a
/// variable. The first variable of the right side is the independent one, and
/// the graph holds the points of the samples -50 to 49.
pub open spec fn graph_of<N>(tokens: Seq<Lexeme<N>>, table: Table<N>) -> Result<
    Seq<Point<N>>,
    Error,
> {
    let inner = unwrapped(tokens);
    match build(left_of_equal(inner)) {
        Err(e) => Err(e),
        Ok(left) => match build(right_of_equal(inner)) {
            Err(e) => Err(e),
            Ok(right) => if calls_variable(left) || calls_variable(right) {
                Err(Error::FunctionInGraph)
            } else if variables(left).len() == 0 || variables(right).len() == 0 {
                Err(Error::UnsupportedEquation)
            } else {
                plot(left, right, variables(right)[0], -50, table)
            },
        },
    }
}

proof fn lemma_first_equal_bounds<N>(tokens: Seq<Lexeme<N>>)
    ensures
        0 <= first_equal(tokens) <= tokens.len(),
        first_equal(tokens) < tokens.len() ==> tokens[first_equal(tokens)] is Equal,
        forall|j: int| 0 <= j < first_equal(tokens) ==> !(#[trigger] tokens[j] is Equal),
    decreases tokens.len(),
{
    if tokens.len() > 0 && !(tokens[0] is Equal) {
        let rest = tokens.drop_first();
        lemma_first_equal_bounds(rest);
        assert forall|j: int| 0 <= j < first_equal(tokens) implies !(#[trigger] tokens[j] is Equal) by {
            if j > 0 {
                assert(rest[j - 1] == tokens[j]);
            }
        }
    }
}

proof fn lemma_first_equal_is<N>(tokens: Seq<Lexeme<N>>, k: int)
    requires
        0 <= k <= tokens.len(),
        forall|j: int| 0 <= j < k ==> !(#[trigger] tokens[j] is Equal),
        k < tokens.len() ==> tokens[k] is Equal,
    ensures
        first_equal(tokens) == k,
{
    lemma_first_equal_bounds(tokens);
    let f = first_equal(tokens);
    if f < k {
        assert(!(tokens[f] is Equal));
    } else if f > k {
        assert(tokens[k] is Equal);
    }
}

/// The number `x` is a value that the arithmetic `ops` gives to sample `i`:
/// an answer to the division of an answer to the integer `i` by an answer to
/// the integer 5.
pub open spec fn sampled<N, F: Fn(Operation<N>) -> Option<N>>(ops: &F, i: i64, x: N) -> bool {
    exists|n: N, d: N|
        answers(ops, Operation::Integer(i), n) && answers(ops, Operation::Integer(5), d)
            && #[trigger] answers(ops, Operation::Binary(BinaryOperation::Divide, n, d), x)
}

fn sample_value<N: Copy, F: Fn(Operation<N>) -> Option<N>>(i: i64, ops: &F) -> (r: Result<N, Error>)
    requires
        total(ops),
    ensures
        forall|table: Table<N>| follows(ops, table) ==> r == #[trigger] sample(i as int, table),
        r matches Ok(x) ==> sampled(ops, i, x),
{
    let numerator = ask(ops, Operation::Integer(i));
    let denominator = ask(ops, Operation::Integer(5));
    let r = match (numerator, denominator) {
        (Ok(n), Ok(d)) => ask(ops, Operation::Binary(BinaryOperation::Divide, n, d)),
        (Err(e), _) => Err(e),
        (Ok(_), Err(e)) => Err(e),
    };
    proof {
        assert forall|table: Table<N>| follows(ops, table) implies r == #[trigger] sample(
            i as int,
            table,
        ) by {
            assert(numerator == answer(table, Operation::<N>::Integer(i)@));
            assert(denominator == answer(table, Operation::<N>::Integer(5)@));
            if let (Ok(n), Ok(d)) = (numerator, denominator) {
                assert(r == answer(table, Operation::Binary(BinaryOperation::Divide, n, d)@));
            }
        }
    }
    r
}

fn point_of<N: Copy, F: Fn(Operation<N>) -> Option<N>>(
    left: &ASTNode<N>,
    right: &ASTNode<N>,
    variable: &String,
    i: i64,
    ops: &F,
) -> (r: Result<Point<N>, Error>)
    requires
        total(ops),
    ensures
        forall|table: Table<N>|
            follows(ops, table) ==> r == #[trigger] point_at(
                left@,
                right@,
                variable@,
                i as int,
                table,
            ),
        r matches Ok(p) ==> sampled(ops, i, p.x),
{
    let x = sample_value(i, ops);
    let r = match x {
        Err(e) => Err(e),
        Ok(x) => {
            let subbed_left = replace_variables(left, variable, x);
            let subbed_right = replace_variables(right, variable, x);
            let y = solve_for_variable(subbed_left, subbed_right, ops);
            let r = match y {
                Err(e) => Err(e),
                Ok(y) => Ok(Point { x, y }),
            };
            proof {
                assert forall|table: Table<N>| follows(ops, table) implies r == match solve(
                    substitute(left@, variable@, x),
                    substitute(right@, variable@, x),
                    table,
                ) {
                    Err(e) => Err(e),
                    Ok(y) => Ok(Point { x, y }),
                } by {
                    assert(y == solve(subbed_left@, subbed_right@, table));
                }
            }
            r
        },
    };
    proof {
        assert forall|table: Table<N>| follows(ops, table) implies r == #[trigger] point_at(
            left@,
            right@,
            variable@,
            i as int,
            table,
        ) by {
            assert(x == sample(i as int, table));
        }
    }
    r
}

/// `points` followed by what `rest` holds, or the error of `rest`.
pub open spec fn followed_by<N>(points: Seq<Point<N>>, rest: Result<Seq<Point<N>>, Error>) -> Result<
    Seq<Point<N>>,
    Error,
> {
    match rest {
        Ok(more) => Ok(points + more),
        Err(e) => Err(e),
    }
}

/// What `r` says of a graph that was to be `expected`.
pub open spec fn points_result<N>(r: Result<Vec<Point<N>>, Error>, expected: Result<
    Seq<Point<N>>,
    Error,
>) -> bool {
    match r {
        Ok(points) => expected == Ok::<Seq<Point<N>>, Error>(points@),
        Err(e) => expected == Err::<Seq<Point<N>>, Error>(e),
    }
}

/// Samples the equation that `tokens` spell into 100 points, with the
/// arithmetic `ops`. Whatever the arithmetic answers, a graph has 100 points,
/// and the `x` of the point at place `k` is a value that the arithmetic gives
/// to sample `k - 50`, which is `(k - 50) / 5`.
pub fn graph<N: Copy, F: Fn(Operation<N>) -> Option<N>>(tokens: VecDeque<Token<N>>, ops: &F) -> (r:
    Result<Vec<Point<N>>, Error>)
    requires
        total(ops),
    ensures
        forall|table: Table<N>|
            follows(ops, table) ==> points_result(r, #[trigger] graph_of(lexemes_of(tokens@), table)),
        r matches Ok(points) ==> points@.len() == SAMPLES,
        r matches Ok(points) ==> forall|k: int|
            0 <= k < SAMPLES ==> sampled(ops, (k - 50) as i64, (#[trigger] points@[k]).x),
{
    let ghost all = lexemes_of(tokens@);
    let mut pending = tokens;
    let starts = pending.len() > 0 && match pending[0] {
        Token::Graph => true,
        _ => false,
    };
    if starts {
        pending.pop_front();
    }
    assert(lexemes_of(pending@) =~= if all.len() > 0 && all[0] is Graph {
        all.drop_first()
    } else {
        all
    });
    let ghost opened = lexemes_of(pending@);
    let ends = pending.len() > 0 && match pending[pending.len() - 1] {
        Token::RightParen => true,
        _ => false,
    };
    if ends {
        pending.pop_back();
    }
    assert(lexemes_of(pending@) =~= unwrapped(all));
    let ghost inner = pending@;
    let mut left_tokens: VecDeque<Token<N>> = VecDeque::new();
    let mut found_equal = false;
    while pending.len() > 0 && !found_equal
        invariant
            left_tokens@.len() + pending@.len() + (if found_equal {
                1int
            } else {
                0int
            }) == inner.len(),
            left_tokens@ == inner.take(left_tokens@.len() as int),
            pending@ == inner.skip(inner.len() - pending@.len()),
            forall|j: int| 0 <= j < left_tokens@.len() ==> !(#[trigger] lexemes_of(inner)[j] is Equal),
            found_equal ==> lexemes_of(inner)[left_tokens@.len() as int] is Equal,
        decreases pending@.len(),
    {
        let token = pending.pop_front().unwrap();
        assert(token == inner[left_tokens@.len() as int]);
        match token {
            Token::Equal => {
                found_equal = true;
            },
            other => {
                left_tokens.push_back(other);
                assert(left_tokens@ =~= inner.take(left_tokens@.len() as int));
            },
        }
        assert(pending@ =~= inner.skip(inner.len() - pending@.len()));
    }
    proof {
        lemma_first_equal_is(lexemes_of(inner), left_tokens@.len() as int);
        assert(lexemes_of(left_tokens@) =~= left_of_equal(lexemes_of(inner)));
        assert(lexemes_of(pending@) =~= right_of_equal(lexemes_of(inner)));
    }
    let left = match build_ast(left_tokens) {
        Ok(left) => left,
        Err(e) => {
            return Err(e);
        },
    };
    let right = match build_ast(pending) {
        Ok(right) => right,
        Err(e) => {
            return Err(e);
        },
    };
    if holds_call_of_variable(&left) || holds_call_of_variable(&right) {
        return Err(Error::FunctionInGraph);
    }
    let left_variables = get_variables(&left);
    let right_variables = get_variables(&right);
    assert(names_of(left_variables@).len() == left_variables@.len());
    assert(names_of(right_variables@).len() == right_variables@.len());
    if left_variables.len() == 0 || right_variables.len() == 0 {
        return Err(Error::UnsupportedEquation);
    }
    let variable = &right_variables[0];
    assert(variable@ == names_of(right_variables@)[0]);
    let mut points: Vec<Point<N>> = Vec::new();
    let mut i: i64 = -50;
    while i < 50
        invariant
            total(ops),
            -50 <= i <= 50,
            points@.len() == i + 50,
            forall|k: int|
                0 <= k < points@.len() ==> sampled(ops, (k - 50) as i64, (#[trigger] points@[k]).x),
            all == lexemes_of(tokens@),
            build(left_of_equal(unwrapped(all))) == Ok::<Expr<N>, Error>(left@),
            build(right_of_equal(unwrapped(all))) == Ok::<Expr<N>, Error>(right@),
            !calls_variable(left@),
            !calls_variable(right@),
            variables(left@).len() > 0,
            variables(right@).len() > 0,
            variable@ == variables(right@)[0],
            forall|table: Table<N>|
                follows(ops, table) ==> #[trigger] plot(left@, right@, variable@, -50, table)
                    == followed_by(points@, plot(left@, right@, variable@, i as int, table)),
        decreases 50 - i,
    {
        let ghost before = points@;
        let point = point_of(&left, &right, variable, i, ops);
        match point {
            Ok(p) => {
                points.push(p);
                proof {
                    assert forall|table: Table<N>| follows(ops, table) implies #[trigger] plot(
                        left@,
                        right@,
                        variable@,
                        -50,
                        table,
                    ) == followed_by(points@, plot(left@, right@, variable@, i + 1, table)) by {
                        assert(point == point_at(left@, right@, variable@, i as int, table));
                        let rest = plot(left@, right@, variable@, i + 1, table);
                        if let Ok(more) = rest {
                            assert(before + (seq![p] + more) =~= before.push(p) + more);
                        }
                    }
                }
            },
            Err(e) => {
                proof {
                    assert forall|table: Table<N>| follows(ops, table) implies points_result(
                        Err::<Vec<Point<N>>, Error>(e),
                        #[trigger] graph_of(all, table),
                    ) by {
                        assert(point == point_at(left@, right@, variable@, i as int, table));
                        assert(plot(left@, right@, variable@, -50, table) == followed_by(
                            points@,
                            plot(left@, right@, variable@, i as int, table),
                        ));
                    }
                }
                return Err(e);
            },
        }
        i += 1;
    }
    proof {
        assert forall|table: Table<N>| follows(ops, table) implies points_result(
            Ok::<Vec<Point<N>>, Error>(points),
            #[trigger] graph_of(all, table),
        ) by {
            assert(plot(left@, right@, variable@, -50, table) == followed_by(
                points@,
                plot(left@, right@, variable@, 50, table),
            ));
            assert(points@ + Seq::<Point<N>>::empty() =~= points@);
        }
    }
    Ok(points)
}

} // verus!
