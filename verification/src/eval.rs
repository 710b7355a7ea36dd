//! The reduction of an expression tree to one number.

use crate::arith::{
    answer, ask, follows, total, AggregateFunction, Operation, Request, Table, UnaryFunction,
};
use crate::ast::{exprs_of, ASTNode, Expr, FunctionCall, UnaryOperation};
use crate::error::Error;
use vstd::prelude::*;
use vstd::std_specs::vecdeque::VecDequeAdditionalSpecFns;
use vstd::string::StringExecFns;

verus! {

/// A built-in function with its class of arity.
#[derive(Clone, Copy, Debug, PartialEq, Eq, Structural)]
pub enum Builtin {
    /// A function of exactly one argument.
    Single(UnaryFunction),
    /// A function of any number of arguments, in any order.
    Multi(AggregateFunction),
}

/// The built-in function that a name stands for in evaluation.
pub open spec fn builtin(name: Seq<char>) -> Option<Builtin> {
    if name == "average"@ || name == "avg"@ || name == "mean"@ {
        Some(Builtin::Multi(AggregateFunction::Average))
    } else if name == "std"@ {
        Some(Builtin::Multi(AggregateFunction::StandardDeviation))
    } else if name == "median"@ {
        Some(Builtin::Multi(AggregateFunction::Median))
    } else if name == "min"@ {
        Some(Builtin::Multi(AggregateFunction::Min))
    } else if name == "max"@ {
        Some(Builtin::Multi(AggregateFunction::Max))
    } else if name == "sum"@ {
        Some(Builtin::Multi(AggregateFunction::Sum))
    } else if name == "sin"@ {
        Some(Builtin::Single(UnaryFunction::Sin))
    } else if name == "cos"@ {
        Some(Builtin::Single(UnaryFunction::Cos))
    } else if name == "tan"@ {
        Some(Builtin::Single(UnaryFunction::Tan))
    } else if name == "asin"@ {
        Some(Builtin::Single(UnaryFunction::Asin))
    } else if name == "acos"@ {
        Some(Builtin::Single(UnaryFunction::Acos))
    } else if name == "atan"@ {
        Some(Builtin::Single(UnaryFunction::Atan))
    } else if name == "sec"@ {
        Some(Builtin::Single(UnaryFunction::Sec))
    } else if name == "cot"@ {
        Some(Builtin::Single(UnaryFunction::Cot))
    } else if name == "csc"@ {
        Some(Builtin::Single(UnaryFunction::Csc))
    } else if name == "ln"@ {
        Some(Builtin::Single(UnaryFunction::Ln))
    } else if name == "abs"@ {
        Some(Builtin::Single(UnaryFunction::Abs))
    } else if name == "factorial"@ {
        Some(Builtin::Single(UnaryFunction::Factorial))
    } else {
        None
    }
}

/// Whether `name` is spelled `word`.
pub fn is_word(name: &String, word: &str) -> (r: bool)
    ensures
        r == (name@ == word@),
{
    let spelled = String::from_str(word);
    *name == spelled
}

/// Looks a name up in the table of built-in functions.
pub fn lookup_function(name: &String) -> (r: Option<Builtin>)
    ensures
        r == builtin(name@),
{
    if is_word(name, "average") || is_word(name, "avg") || is_word(name, "mean") {
        Some(Builtin::Multi(AggregateFunction::Average))
    } else if is_word(name, "std") {
        Some(Builtin::Multi(AggregateFunction::StandardDeviation))
    } else if is_word(name, "median") {
        Some(Builtin::Multi(AggregateFunction::Median))
    } else if is_word(name, "min") {
        Some(Builtin::Multi(AggregateFunction::Min))
    } else if is_word(name, "max") {
        Some(Builtin::Multi(AggregateFunction::Max))
    } else if is_word(name, "sum") {
        Some(Builtin::Multi(AggregateFunction::Sum))
    } else if is_word(name, "sin") {
        Some(Builtin::Single(UnaryFunction::Sin))
    } else if is_word(name, "cos") {
        Some(Builtin::Single(UnaryFunction::Cos))
    } else if is_word(name, "tan") {
        Some(Builtin::Single(UnaryFunction::Tan))
    } else if is_word(name, "asin") {
        Some(Builtin::Single(UnaryFunction::Asin))
    } else if is_word(name, "acos") {
        Some(Builtin::Single(UnaryFunction::Acos))
    } else if is_word(name, "atan") {
        Some(Builtin::Single(UnaryFunction::Atan))
    } else if is_word(name, "sec") {
        Some(Builtin::Single(UnaryFunction::Sec))
    } else if is_word(name, "cot") {
        Some(Builtin::Single(UnaryFunction::Cot))
    } else if is_word(name, "csc") {
        Some(Builtin::Single(UnaryFunction::Csc))
    } else if is_word(name, "ln") {
        Some(Builtin::Single(UnaryFunction::Ln))
    } else if is_word(name, "abs") {
        Some(Builtin::Single(UnaryFunction::Abs))
    } else if is_word(name, "factorial") {
        Some(Builtin::Single(UnaryFunction::Factorial))
    } else {
        None
    }
}

/// The value of a call of the function `name` whose arguments evaluated to
/// `arguments`.
///
/// A name outside the table is an unknown function, whatever the arguments
/// are. Else one failed argument fails the call. Else a function of one
/// argument takes exactly one, and a function of many takes them all.
pub open spec fn apply<N>(name: Seq<char>, arguments: Seq<Result<N, Error>>, table: Table<N>) -> Result<
    N,
    Error,
> {
    match builtin(name) {
        None => Err(Error::UnknownFunction),
        Some(function) => {
            if exists|i: int| 0 <= i < arguments.len() && (#[trigger] arguments[i]) is Err {
                Err(Error::BadArgument)
            } else {
                let values = Seq::new(arguments.len(), |i: int| arguments[i]->Ok_0);
                match function {
                    Builtin::Single(f) => {
                        if values.len() == 1 {
                            answer(table, Request::Function(f, values[0]))
                        } else {
                            Err(Error::Arity)
                        }
                    },
                    Builtin::Multi(f) => answer(table, Request::Aggregate(f, values)),
                }
            }
        },
    }
}

/// The value of an expression under the arithmetic that `table` describes.
///
/// A number is its own value. A binary node applies its operator to the
/// values of its operands, and fails with the error of the left one, or else
/// of the right one, where they fail. A change of sign negates the value of
/// its operand, a group has the value of what it holds. A function call is
/// applied to the values of its arguments. A variable, and a marker of the
/// construction, have no value.
pub open spec fn evaluate<N>(e: Expr<N>, table: Table<N>) -> Result<N, Error>
    decreases e,
{
    match e {
        Expr::Number(v) => Ok(v),
        Expr::Variable(_) => Err(Error::FreeVariable),
        Expr::Unfinished(_) => Err(Error::UnfinishedExpression),
        Expr::Comma => Err(Error::StrayComma),
        Expr::Binary { operation, left, right, .. } => match evaluate(*left, table) {
            Err(e) => Err(e),
            Ok(a) => match evaluate(*right, table) {
                Err(e) => Err(e),
                Ok(b) => answer(table, Request::Binary(operation, a, b)),
            },
        },
        Expr::Unary { operation, child, .. } => match evaluate(*child, table) {
            Err(e) => Err(e),
            Ok(a) => match operation {
                UnaryOperation::Parens => Ok(a),
                UnaryOperation::Negate => answer(table, Request::Negate(a)),
            },
        },
        Expr::Call { name, inputs } => apply(name, evaluate_each(inputs, table), table),
    }
}

/// The values of the members of a sequence of expressions, in order.
pub open spec fn evaluate_each<N>(inputs: Seq<Expr<N>>, table: Table<N>) -> Seq<Result<N, Error>>
    decreases inputs,
{
    Seq::new(
        inputs.len(),
        |i: int|
            if 0 <= i < inputs.len() {
                evaluate(inputs[i], table)
            } else {
                Err(Error::BadArgument)
            },
    )
}

/// The expression can have a value: no variable and no marker of the
/// construction stands anywhere in it, every function it calls is built in,
/// and every function of one argument is given one.
pub open spec fn evaluable<N>(e: Expr<N>) -> bool
    decreases e,
{
    match e {
        Expr::Number(_) => true,
        Expr::Variable(_) => false,
        Expr::Unfinished(_) => false,
        Expr::Comma => false,
        Expr::Binary { left, right, .. } => evaluable(*left) && evaluable(*right),
        Expr::Unary { child, .. } => evaluable(*child),
        Expr::Call { name, inputs } => {
            &&& builtin(name) is Some
            &&& builtin(name) matches Some(Builtin::Single(_)) ==> inputs.len() == 1
            &&& forall|i: int| 0 <= i < inputs.len() ==> evaluable(#[trigger] inputs[i])
        },
    }
}

/// The value of an expression where it does not depend on the arithmetic,
/// and `None` where it does.
///
/// A number is its own value; a variable and a marker fail. A binary node
/// fails with the settled error of its left operand, or with that of its right
/// operand behind a left operand of settled value. A group has the settled
/// value of what it holds; a change of sign has its settled error. A call
/// fails as an unknown function where its name is none; else as a bad
/// argument where an argument has a settled error; else with an arity error
/// where a function of one argument has another number of arguments, all of
/// them settled.
pub open spec fn settled<N>(e: Expr<N>) -> Option<Result<N, Error>>
    decreases e,
{
    match e {
        Expr::Number(v) => Some(Ok(v)),
        Expr::Variable(_) => Some(Err(Error::FreeVariable)),
        Expr::Unfinished(_) => Some(Err(Error::UnfinishedExpression)),
        Expr::Comma => Some(Err(Error::StrayComma)),
        Expr::Binary { left, right, .. } => match settled(*left) {
            Some(Err(e)) => Some(Err(e)),
            Some(Ok(_)) => match settled(*right) {
                Some(Err(e)) => Some(Err(e)),
                _ => None,
            },
            None => None,
        },
        Expr::Unary { operation, child, .. } => match settled(*child) {
            Some(Err(e)) => Some(Err(e)),
            Some(Ok(v)) => if operation == UnaryOperation::Parens {
                Some(Ok(v))
            } else {
                None
            },
            None => None,
        },
        Expr::Call { name, inputs } => match builtin(name) {
            None => Some(Err(Error::UnknownFunction)),
            Some(function) => {
                if exists|i: int|
                    0 <= i < inputs.len() && settled(#[trigger] inputs[i]) is Some && settled(
                        inputs[i],
                    )->0 is Err {
                    Some(Err(Error::BadArgument))
                } else if function is Single && inputs.len() != 1 && forall|i: int|
                    0 <= i < inputs.len() ==> settled(#[trigger] inputs[i]) is Some {
                    Some(Err(Error::Arity))
                } else {
                    None
                }
            },
        },
    }
}

/// Reduces a tree to one number with the arithmetic `ops`. Whatever the
/// arithmetic answers, the result is the settled one where there is one, and
/// only an expression that can have a value has one.
pub fn evaluate_ast<N, F: Fn(Operation<N>) -> Option<N>>(ast: ASTNode<N>, ops: &F) -> (r: Result<
    N,
    Error,
>)
    requires
        total(ops),
    ensures
        forall|table: Table<N>| follows(ops, table) ==> r == #[trigger] evaluate(ast@, table),
        settled(ast@) matches Some(out) ==> r == out,
        r is Ok ==> evaluable(ast@),
    decreases ast,
{
    match ast {
        ASTNode::BinaryNode(a) => {
            let left = evaluate_ast(*a.left, ops);
            let right = evaluate_ast(*a.right, ops);
            match (left, right) {
                (Ok(x), Ok(y)) => {
                    let r = ask(ops, Operation::Binary(a.operation, x, y));
                    proof {
                        assert forall|table: Table<N>| follows(ops, table) implies r
                            == #[trigger] evaluate(ast@, table) by {
                            assert(left == evaluate(a.left@, table));
                            assert(right == evaluate(a.right@, table));
                            assert(r == answer(table, Operation::Binary(a.operation, x, y)@));
                        }
                    }
                    r
                },
                (Err(e), _) => {
                    proof {
                        assert forall|table: Table<N>| follows(ops, table) implies Err::<N, Error>(e)
                            == #[trigger] evaluate(ast@, table) by {
                            assert(left == evaluate(a.left@, table));
                        }
                    }
                    Err(e)
                },
                (Ok(_), Err(e)) => {
                    proof {
                        assert forall|table: Table<N>| follows(ops, table) implies Err::<N, Error>(e)
                            == #[trigger] evaluate(ast@, table) by {
                            assert(left == evaluate(a.left@, table));
                            assert(right == evaluate(a.right@, table));
                        }
                    }
                    Err(e)
                },
            }
        },
        ASTNode::UnaryNode(a) => {
            let child = evaluate_ast(*a.child, ops);
            match child {
                Ok(x) => {
                    let r = match a.operation {
                        UnaryOperation::Negate => ask(ops, Operation::Negate(x)),
                        UnaryOperation::Parens => Ok(x),
                    };
                    proof {
                        assert forall|table: Table<N>| follows(ops, table) implies r
                            == #[trigger] evaluate(ast@, table) by {
                            assert(child == evaluate(a.child@, table));
                            if a.operation == UnaryOperation::Negate {
                                assert(r == answer(table, Operation::Negate(x)@));
                            }
                        }
                    }
                    r
                },
                Err(e) => {
                    proof {
                        assert forall|table: Table<N>| follows(ops, table) implies Err::<N, Error>(e)
                            == #[trigger] evaluate(ast@, table) by {
                            assert(child == evaluate(a.child@, table));
                        }
                    }
                    Err(e)
                },
            }
        },
        ASTNode::NumberNode(a) => Ok(a),
        ASTNode::UnfinishedNode(_) => Err(Error::UnfinishedExpression),
        ASTNode::FunctionCall(a) => {
            proof {
                assert(ast@->Call_inputs =~= exprs_of(a.inputs@));
            }
            evaluate_function(a, ops)
        },
        ASTNode::Comma => Err(Error::StrayComma),
        ASTNode::Variable(_) => Err(Error::FreeVariable),
    }
}

/// The value of a call as a tree holds it.
pub open spec fn call_of<N>(function_call: FunctionCall<N>) -> Expr<N> {
    Expr::Call { name: function_call.operation@, inputs: exprs_of(function_call.inputs@) }
}

/// Evaluates the call of a built-in function with the arithmetic `ops`: the
/// name is looked up, the arguments are evaluated, their number is checked,
/// and the arithmetic is asked for the function's value. Whatever the
/// arithmetic answers, a name outside the table is an unknown function, and
/// a function of one argument with another number of arguments fails, with an
/// arity error unless an argument failed before.
pub fn evaluate_function<N, F: Fn(Operation<N>) -> Option<N>>(
    function_call: FunctionCall<N>,
    ops: &F,
) -> (r: Result<N, Error>)
    requires
        total(ops),
    ensures
        forall|table: Table<N>|
            follows(ops, table) ==> r == #[trigger] evaluate(call_of(function_call), table),
        settled(call_of(function_call)) matches Some(out) ==> r == out,
        r is Ok ==> evaluable(call_of(function_call)),
        builtin(function_call.operation@) is None ==> r == Err::<N, Error>(Error::UnknownFunction),
        builtin(function_call.operation@) matches Some(Builtin::Single(_))
            && function_call.inputs@.len() != 1 ==> r == Err::<N, Error>(Error::Arity) || r
            == Err::<N, Error>(Error::BadArgument),
    decreases function_call,
{
    let ghost whole = call_of(function_call);
    let ghost inputs = function_call.inputs@;
    let function = match lookup_function(&function_call.operation) {
        Some(function) => function,
        None => {
            return Err(Error::UnknownFunction);
        },
    };
    let FunctionCall { inputs: arguments, operation: _ } = function_call;
    let mut arguments = arguments;
    let mut parameters: Vec<N> = Vec::new();
    while arguments.len() > 0
        invariant
            total(ops),
            parameters@.len() + arguments@.len() == inputs.len(),
            arguments@ == inputs.subrange(parameters@.len() as int, inputs.len() as int),
            inputs == function_call.inputs@,
            whole == call_of(function_call),
            builtin(function_call.operation@) == Some(function),
            forall|j: int|
                0 <= j < parameters@.len() ==> !(settled((#[trigger] inputs[j])@) is Some
                    && settled(inputs[j]@)->0 is Err),
            forall|j: int| 0 <= j < parameters@.len() ==> evaluable((#[trigger] inputs[j])@),
            forall|table: Table<N>, j: int|
                follows(ops, table) && 0 <= j < parameters@.len() ==> #[trigger] evaluate(
                    inputs[j]@,
                    table,
                ) == Ok::<N, Error>(parameters@[j]),
        decreases arguments@.len(),
    {
        let ghost k = parameters@.len() as int;
        let child = arguments.pop_front().unwrap();
        assert(child == inputs[k]);
        assert(function_call.inputs[k] == child);
        match evaluate_ast(child, ops) {
            Ok(a) => {
                parameters.push(a);
            },
            Err(e) => {
                proof {
                    assert forall|table: Table<N>| follows(ops, table) implies Err::<N, Error>(
                        Error::BadArgument,
                    ) == #[trigger] evaluate(whole, table) by {
                        assert(evaluate(inputs[k]@, table) is Err);
                        let results = evaluate_each(whole->Call_inputs, table);
                        assert(results[k] is Err);
                    }
                    assert(whole->Call_inputs[k] == inputs[k]@);
                    assert(settled(whole->Call_inputs[k]) is Some ==> settled(
                        whole->Call_inputs[k],
                    )->0 is Err);
                    assert(whole matches Expr::Call { name, inputs: all } && builtin(name) == Some(
                        function,
                    ));
                    if settled(whole) is Some && settled(whole) != Some(
                        Err::<N, Error>(Error::BadArgument),
                    ) {
                        assert(settled(whole->Call_inputs[k]) is Some);
                        assert(false);
                    }
                }
                return Err(Error::BadArgument);
            },
        }
    }
    let ghost values = parameters@;
    let r = match function {
        Builtin::Single(f) => {
            if parameters.len() == 1 {
                let x = parameters.pop().unwrap();
                ask(ops, Operation::Function(f, x))
            } else {
                Err(Error::Arity)
            }
        },
        Builtin::Multi(f) => ask(ops, Operation::Aggregate(f, parameters)),
    };
    proof {
        assert forall|i: int| 0 <= i < whole->Call_inputs.len() implies !(settled(
            #[trigger] whole->Call_inputs[i],
        ) is Some && settled(whole->Call_inputs[i])->0 is Err) && evaluable(
            whole->Call_inputs[i],
        ) by {
            assert(whole->Call_inputs[i] == inputs[i]@);
        }
        assert(whole matches Expr::Call { name, inputs: all } && builtin(name) == Some(function));
        assert(whole->Call_inputs.len() == inputs.len());
        assert forall|table: Table<N>| follows(ops, table) implies r == #[trigger] evaluate(
            whole,
            table,
        ) by {
            let results = evaluate_each(whole->Call_inputs, table);
            assert forall|i: int| 0 <= i < results.len() implies !((#[trigger] results[i]) is Err) by {
                assert(evaluate(inputs[i]@, table) == Ok::<N, Error>(values[i]));
            }
            let found = Seq::new(results.len(), |i: int| results[i]->Ok_0);
            assert forall|i: int| 0 <= i < found.len() implies found[i] == values[i] by {
                assert(whole->Call_inputs[i] == inputs[i]@);
                assert(evaluate(inputs[i]@, table) == Ok::<N, Error>(values[i]));
            }
            assert(found =~= values);
            match function {
                Builtin::Single(f) => {
                    if values.len() == 1 {
                        assert(r == answer(table, Request::Function(f, values[0])));
                    }
                },
                Builtin::Multi(f) => {
                    assert(r == answer(table, Request::Aggregate(f, values)));
                },
            }
        }
    }
    r
}

} // verus!
