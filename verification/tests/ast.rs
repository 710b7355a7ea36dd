use calculator::arith::{AggregateFunction, Operation, UnaryFunction};
use calculator::ast::{
    apply_priority, build_ast, combine_finished_val, ASTNode, BinaryNode, BinaryOperation,
    FunctionCall, UnaryNode, UnaryOperation, UnfinishedNode,
};
use calculator::error::{Error, ErrorKind};
use calculator::tokens::{tokenize, Token};
use std::collections::VecDeque;

fn factorial(n: f64) -> Option<f64> {
    if n < 0.0 || n.fract() != 0.0 || !n.is_finite() {
        return None;
    }
    let mut product = 1.0;
    let mut k = n;
    while k > 0.0 {
        product *= k;
        k -= 1.0;
    }
    Some(product)
}

fn average(nums: &[f64]) -> f64 {
    let mut sum = 0.;
    for num in nums {
        sum += *num;
    }
    sum / nums.len() as f64
}

fn aggregate(f: AggregateFunction, nums: Vec<f64>) -> Option<f64> {
    match f {
        AggregateFunction::Sum => Some(nums.iter().sum()),
        AggregateFunction::Average => Some(average(&nums)),
        AggregateFunction::StandardDeviation => {
            let mean = average(&nums);
            let mut sum_of_squares = 0.;
            for num in &nums {
                sum_of_squares += (num - mean) * (num - mean);
            }
            Some((sum_of_squares / nums.len() as f64).sqrt())
        }
        AggregateFunction::Max => {
            let mut max = *nums.first()?;
            for num in nums {
                if num > max {
                    max = num;
                }
            }
            Some(max)
        }
        AggregateFunction::Min => {
            let mut min = *nums.first()?;
            for num in nums {
                if num < min {
                    min = num;
                }
            }
            Some(min)
        }
        AggregateFunction::Median => {
            if nums.is_empty() || nums.iter().any(|x| x.is_nan()) {
                return None;
            }
            let mut v = nums.clone();
            v.sort_by(|a, b| a.total_cmp(b));
            Some(v[v.len() / 2])
        }
    }
}

fn arithmetic(op: Operation<f64>) -> Option<f64> {
    match op {
        Operation::Literal(text) => text.parse::<f64>().ok(),
        Operation::Integer(i) => Some(i as f64),
        Operation::Binary(o, a, b) => Some(match o {
            BinaryOperation::Plus => a + b,
            BinaryOperation::Minus => a - b,
            BinaryOperation::Times => a * b,
            BinaryOperation::Divide => a / b,
            BinaryOperation::Exponent => a.powf(b),
            BinaryOperation::Modulus => a % b,
        }),
        Operation::Negate(a) => Some(-1.0 * a),
        Operation::Function(f, a) => match f {
            UnaryFunction::Sin => Some(a.sin()),
            UnaryFunction::Cos => Some(a.cos()),
            UnaryFunction::Tan => Some(a.tan()),
            UnaryFunction::Asin => Some(a.asin()),
            UnaryFunction::Acos => Some(a.acos()),
            UnaryFunction::Atan => Some(a.atan()),
            UnaryFunction::Sec => Some(1. / a.cos()),
            UnaryFunction::Csc => Some(1. / a.sin()),
            UnaryFunction::Cot => Some(1. / a.tan()),
            UnaryFunction::Ln => Some(a.ln()),
            UnaryFunction::Abs => Some(a.abs()),
            UnaryFunction::Factorial => factorial(a),
        },
        Operation::Aggregate(f, nums) => aggregate(f, nums),
    }
}

fn parse(text: &str) -> Result<ASTNode<f64>, Error> {
    build_ast(tokenize(text.to_string(), &arithmetic)?)
}

fn number(v: f64) -> Box<ASTNode<f64>> {
    Box::new(ASTNode::NumberNode(v))
}

fn variable(name: &str) -> Box<ASTNode<f64>> {
    Box::new(ASTNode::Variable(name.to_string()))
}

fn binary(
    priority: u64,
    left: Box<ASTNode<f64>>,
    operation: BinaryOperation,
    right: Box<ASTNode<f64>>,
) -> Box<ASTNode<f64>> {
    Box::new(ASTNode::BinaryNode(BinaryNode { priority, left, right, operation }))
}

fn negate(child: Box<ASTNode<f64>>) -> Box<ASTNode<f64>> {
    Box::new(ASTNode::UnaryNode(UnaryNode {
        priority: 9,
        child,
        operation: UnaryOperation::Negate,
    }))
}

fn parens(child: Box<ASTNode<f64>>) -> Box<ASTNode<f64>> {
    Box::new(ASTNode::UnaryNode(UnaryNode {
        priority: 10,
        child,
        operation: UnaryOperation::Parens,
    }))
}

fn call(name: &str, inputs: Vec<ASTNode<f64>>) -> Box<ASTNode<f64>> {
    Box::new(ASTNode::FunctionCall(FunctionCall {
        inputs: VecDeque::from(inputs),
        operation: name.to_string(),
    }))
}

#[test]
fn addition_ast() {
    let tokens = tokenize("1+2".to_string(), &arithmetic);
    let ast = build_ast(tokens.unwrap());
    assert_eq!(
        ast,
        Ok(ASTNode::BinaryNode(BinaryNode {
            priority: 1,
            left: Box::new(ASTNode::NumberNode(1.0)),
            right: Box::new(ASTNode::NumberNode(2.0)),
            operation: BinaryOperation::Plus,
        }))
    );
}

#[test]
fn subtraction_ast() {
    let tokens = tokenize("1-2".to_string(), &arithmetic);
    let ast = build_ast(tokens.unwrap());
    assert_eq!(
        ast,
        Ok(ASTNode::BinaryNode(BinaryNode {
            priority: 1,
            left: Box::new(ASTNode::NumberNode(1.0)),
            right: Box::new(ASTNode::NumberNode(2.0)),
            operation: BinaryOperation::Minus,
        }))
    );
}

#[test]
fn multiplication_ast() {
    let tokens = tokenize("1 * 2".to_string(), &arithmetic);
    let ast = build_ast(tokens.unwrap());
    assert_eq!(
        ast,
        Ok(ASTNode::BinaryNode(BinaryNode {
            priority: 2,
            left: Box::new(ASTNode::NumberNode(1.0)),
            right: Box::new(ASTNode::NumberNode(2.0)),
            operation: BinaryOperation::Times,
        }))
    );
}

#[test]
fn addition_and_multiplication_ast() {
    let tokens = tokenize("1 + 2 * 3 + 4".to_string(), &arithmetic);
    let ast = build_ast(tokens.unwrap());
    assert_eq!(
        ast,
        Ok(ASTNode::BinaryNode(BinaryNode {
            priority: 1,
            left: Box::new(ASTNode::BinaryNode(BinaryNode {
                priority: 1,
                left: Box::new(ASTNode::NumberNode(1.0)),
                right: Box::new(ASTNode::BinaryNode(BinaryNode {
                    priority: 2,
                    left: Box::new(ASTNode::NumberNode(2.0)),
                    right: Box::new(ASTNode::NumberNode(3.0)),
                    operation: BinaryOperation::Times,
                })),
                operation: BinaryOperation::Plus,
            })),
            right: Box::new(ASTNode::NumberNode(4.0)),
            operation: BinaryOperation::Plus,
        }))
    );
}

#[test]
fn parenthetical_test_ast() {
    let tokens = tokenize(" 1 + 2 * 3 + ( 4 - 5 ) * 6 ".to_string(), &arithmetic);
    let ast = build_ast(tokens.unwrap());
    assert_eq!(
        ast,
        Ok(ASTNode::BinaryNode(BinaryNode {
            priority: 1,
            left: Box::new(ASTNode::BinaryNode(BinaryNode {
                priority: 1,
                left: Box::new(ASTNode::NumberNode(1.0)),
                right: Box::new(ASTNode::BinaryNode(BinaryNode {
                    priority: 2,
                    left: Box::new(ASTNode::NumberNode(2.0)),
                    right: Box::new(ASTNode::NumberNode(3.0)),
                    operation: BinaryOperation::Times,
                })),
                operation: BinaryOperation::Plus,
            })),
            right: Box::new(ASTNode::BinaryNode(BinaryNode {
                priority: 2,
                left: Box::new(ASTNode::UnaryNode(UnaryNode {
                    priority: 10,
                    child: Box::new(ASTNode::BinaryNode(BinaryNode {
                        priority: 1,
                        left: Box::new(ASTNode::NumberNode(4.0)),
                        right: Box::new(ASTNode::NumberNode(5.0)),
                        operation: BinaryOperation::Minus,
                    })),
                    operation: UnaryOperation::Parens,
                })),
                right: Box::new(ASTNode::NumberNode(6.0)),
                operation: BinaryOperation::Times,
            })),
            operation: BinaryOperation::Plus,
        }))
    );
}

#[test]
fn op_then_negate() {
    let input = build_ast(tokenize("-2".to_string(), &arithmetic).unwrap()).unwrap();
    assert_eq!(
        input,
        ASTNode::UnaryNode(UnaryNode {
            priority: 9,
            child: Box::new(ASTNode::NumberNode(2.0)),
            operation: UnaryOperation::Negate,
        })
    );
    let input = build_ast(tokenize("--2".to_string(), &arithmetic).unwrap()).unwrap();
    assert_eq!(
        input,
        ASTNode::UnaryNode(UnaryNode {
            priority: 9,
            child: Box::new(ASTNode::UnaryNode(UnaryNode {
                priority: 9,
                child: Box::new(ASTNode::NumberNode(2.0)),
                operation: UnaryOperation::Negate,
            })),
            operation: UnaryOperation::Negate,
        })
    );
    let input = build_ast(tokenize("3*-2".to_string(), &arithmetic).unwrap()).unwrap();
    assert_eq!(
        input,
        ASTNode::BinaryNode(BinaryNode {
            priority: 2,
            left: Box::new(ASTNode::NumberNode(3.0)),
            right: Box::new(ASTNode::UnaryNode(UnaryNode {
                priority: 9,
                child: Box::new(ASTNode::NumberNode(2.0)),
                operation: UnaryOperation::Negate,
            })),
            operation: BinaryOperation::Times,
        })
    );
}

#[test]
fn exponent_ast() {
    let tokens = tokenize("10^2".to_string(), &arithmetic);
    let ast = build_ast(tokens.unwrap());
    assert_eq!(
        ast,
        Ok(ASTNode::BinaryNode(BinaryNode {
            priority: 3,
            left: Box::new(ASTNode::NumberNode(10.0)),
            right: Box::new(ASTNode::NumberNode(2.0)),
            operation: BinaryOperation::Exponent,
        }))
    );
}

#[test]
fn modulus_ast() {
    let tokens = tokenize("10%5".to_string(), &arithmetic);
    let ast = build_ast(tokens.unwrap()).unwrap();
    assert_eq!(
        ast,
        ASTNode::BinaryNode(BinaryNode {
            priority: 2,
            left: Box::new(ASTNode::NumberNode(10.0)),
            right: Box::new(ASTNode::NumberNode(5.0)),
            operation: BinaryOperation::Modulus,
        })
    );
}

#[test]
fn average_ast() {
    let tokens = tokenize("average(1)".to_string(), &arithmetic).unwrap();
    let ast = build_ast(tokens).unwrap();
    let mut children = VecDeque::new();
    children.push_front(ASTNode::NumberNode(1.0));
    assert_eq!(
        ast,
        ASTNode::FunctionCall(FunctionCall {
            inputs: children,
            operation: "average".to_string(),
        })
    );
    let ast = build_ast(tokenize("average(1,2,3)".to_string(), &arithmetic).unwrap()).unwrap();
    let mut children = VecDeque::new();
    children.push_front(ASTNode::NumberNode(1.0));
    children.push_front(ASTNode::NumberNode(2.0));
    children.push_front(ASTNode::NumberNode(3.0));
    assert_eq!(
        ast,
        ASTNode::FunctionCall(FunctionCall {
            inputs: children,
            operation: "average".to_string(),
        })
    );
}

#[test]
fn expressions_with_variables_ast() {
    let tokens = tokenize("2x+5y-10".to_string(), &arithmetic).unwrap();
    let ast = build_ast(tokens).unwrap();
    assert_eq!(
        ast,
        ASTNode::BinaryNode(BinaryNode {
            priority: 1,
            left: Box::new(ASTNode::BinaryNode(BinaryNode {
                priority: 1,
                left: Box::new(ASTNode::BinaryNode(BinaryNode {
                    priority: 2,
                    left: Box::new(ASTNode::NumberNode(2.0)),
                    right: Box::new(ASTNode::Variable("x".to_string())),
                    operation: BinaryOperation::Times,
                })),
                right: Box::new(ASTNode::BinaryNode(BinaryNode {
                    priority: 2,
                    left: Box::new(ASTNode::NumberNode(5.0)),
                    right: Box::new(ASTNode::Variable("y".to_string())),
                    operation: BinaryOperation::Times,
                })),
                operation: BinaryOperation::Plus,
            })),
            right: Box::new(ASTNode::NumberNode(10.0)),
            operation: BinaryOperation::Minus,
        })
    )
}

#[test]
fn priorities_of_the_six_operators() {
    let cases = [
        ("1+2", 1, BinaryOperation::Plus),
        ("1-2", 1, BinaryOperation::Minus),
        ("1*2", 2, BinaryOperation::Times),
        ("1/2", 2, BinaryOperation::Divide),
        ("1%2", 2, BinaryOperation::Modulus),
        ("1^2", 3, BinaryOperation::Exponent),
    ];
    for (text, priority, operation) in cases {
        assert_eq!(parse(text), Ok(*binary(priority, number(1.0), operation, number(2.0))));
    }
}

#[test]
fn tighter_operator_goes_down_to_the_right() {
    assert_eq!(
        parse("1+2*3^4"),
        Ok(*binary(
            1,
            number(1.0),
            BinaryOperation::Plus,
            binary(
                2,
                number(2.0),
                BinaryOperation::Times,
                binary(3, number(3.0), BinaryOperation::Exponent, number(4.0))
            )
        ))
    );
    assert_eq!(
        parse("1*2+3"),
        Ok(*binary(
            1,
            binary(2, number(1.0), BinaryOperation::Times, number(2.0)),
            BinaryOperation::Plus,
            number(3.0)
        ))
    );
    assert_eq!(
        parse("8-4-2"),
        Ok(*binary(
            1,
            binary(1, number(8.0), BinaryOperation::Minus, number(4.0)),
            BinaryOperation::Minus,
            number(2.0)
        ))
    );
}

#[test]
fn apply_priority_rotates_only_over_a_weaker_left_child() {
    let wrong = binary(
        2,
        binary(1, number(1.0), BinaryOperation::Plus, number(2.0)),
        BinaryOperation::Times,
        number(3.0),
    );
    assert_eq!(
        apply_priority(*wrong),
        *binary(
            1,
            number(1.0),
            BinaryOperation::Plus,
            binary(2, number(2.0), BinaryOperation::Times, number(3.0))
        )
    );
    let equal = binary(
        1,
        binary(1, number(1.0), BinaryOperation::Plus, number(2.0)),
        BinaryOperation::Minus,
        number(3.0),
    );
    assert_eq!(
        apply_priority(*equal),
        *binary(
            1,
            binary(1, number(1.0), BinaryOperation::Plus, number(2.0)),
            BinaryOperation::Minus,
            number(3.0),
        )
    );
    let on_the_right = binary(
        2,
        number(3.0),
        BinaryOperation::Times,
        binary(1, number(1.0), BinaryOperation::Plus, number(2.0)),
    );
    assert_eq!(
        apply_priority(*on_the_right),
        *binary(
            2,
            number(3.0),
            BinaryOperation::Times,
            binary(1, number(1.0), BinaryOperation::Plus, number(2.0)),
        )
    );
    assert_eq!(apply_priority(*number(1.0)), *number(1.0));
    assert_eq!(apply_priority(*negate(number(1.0))), *negate(number(1.0)));
}

#[test]
fn implicit_multiplication() {
    assert_eq!(
        parse("2x"),
        Ok(*binary(2, number(2.0), BinaryOperation::Times, variable("x")))
    );
    assert_eq!(
        parse("3(4)"),
        Ok(*binary(2, number(3.0), BinaryOperation::Times, parens(number(4.0))))
    );
    assert_eq!(
        parse("(2)(3)"),
        Ok(*binary(2, parens(number(2.0)), BinaryOperation::Times, parens(number(3.0))))
    );
    assert_eq!(
        parse("x(y)"),
        Ok(*binary(2, variable("x"), BinaryOperation::Times, parens(variable("y"))))
    );
    assert_eq!(
        parse("1+2x"),
        Ok(*binary(
            1,
            number(1.0),
            BinaryOperation::Plus,
            binary(2, number(2.0), BinaryOperation::Times, variable("x"))
        ))
    );
    assert_eq!(
        parse("sin(1)(2)"),
        Ok(*binary(
            2,
            call("sin", vec![ASTNode::NumberNode(1.0)]),
            BinaryOperation::Times,
            parens(number(2.0))
        ))
    );
}

#[test]
fn leading_plus_is_dropped_and_minus_negates() {
    assert_eq!(parse("+2"), Ok(*number(2.0)));
    assert_eq!(parse("(-2)"), Ok(*parens(negate(number(2.0)))));
    assert_eq!(
        parse("1--2"),
        Ok(*binary(1, number(1.0), BinaryOperation::Minus, negate(number(2.0))))
    );
    assert_eq!(
        parse("-x+1"),
        Ok(*binary(1, negate(variable("x")), BinaryOperation::Plus, number(1.0)))
    );
}

#[test]
fn function_calls_nest_and_combine() {
    assert_eq!(
        parse("1+ln(2)"),
        Ok(*binary(
            1,
            number(1.0),
            BinaryOperation::Plus,
            call("ln", vec![ASTNode::NumberNode(2.0)])
        ))
    );
    assert_eq!(
        parse("max(1,min(2,3))"),
        Ok(*call(
            "max",
            vec![
                *call("min", vec![ASTNode::NumberNode(3.0), ASTNode::NumberNode(2.0)]),
                ASTNode::NumberNode(1.0)
            ]
        ))
    );
    assert_eq!(
        parse("sum(1+2,3)"),
        Ok(*call(
            "sum",
            vec![
                ASTNode::NumberNode(3.0),
                *binary(1, number(1.0), BinaryOperation::Plus, number(2.0))
            ]
        ))
    );
}

#[test]
fn dangling_operators_are_rejected() {
    for text in ["1+", "1-", "2*", "2/", "2%", "2^", "-", "+", "1+2*", "(1+2)-"] {
        assert_eq!(parse(text), Err(Error::Incomplete), "{}", text);
    }
    for text in ["*2", "/2", "^2", "%2", "1+*2", "2*/3"] {
        assert_eq!(parse(text), Err(Error::InvalidSequence), "{}", text);
    }
    assert_eq!(Error::Incomplete.kind(), ErrorKind::Syntax);
    assert_eq!(Error::InvalidSequence.kind(), ErrorKind::Syntax);
}

#[test]
fn unmatched_parentheses_are_rejected() {
    assert_eq!(parse("(1+2"), Err(Error::UnmatchedParenthesis));
    assert_eq!(parse("((1)"), Err(Error::UnmatchedParenthesis));
    assert_eq!(parse("sin(1"), Err(Error::UnmatchedParenthesis));
    assert_eq!(parse("("), Err(Error::UnmatchedParenthesis));
    assert_eq!(parse("(1+"), Err(Error::UnmatchedParenthesis));
    assert_eq!(parse("1+2)"), Err(Error::UnmatchedParenthesis));
    assert_eq!(parse(")"), Err(Error::UnmatchedParenthesis));
    assert_eq!(parse("(1))"), Err(Error::UnmatchedParenthesis));
    assert_eq!(parse("()"), Err(Error::UnmatchedParenthesis));
    assert_eq!(parse("(1+)"), Err(Error::InvalidSequence));
    assert_eq!(parse("sin()"), Err(Error::UnmatchedParenthesis));
    assert_eq!(Error::UnmatchedParenthesis.kind(), ErrorKind::Syntax);
}

#[test]
fn misplaced_commas_are_rejected() {
    assert_eq!(parse("(1,2)"), Err(Error::StrayComma));
    assert_eq!(parse("1,2)"), Err(Error::StrayComma));
    assert_eq!(parse("sum(1,)"), Err(Error::StrayComma));
    assert_eq!(parse("sum(,1)"), Err(Error::StrayComma));
    assert_eq!(parse("1,2"), Err(Error::Incomplete));
    assert_eq!(parse("max(1,-2)"), Err(Error::InvalidSequence));
    assert_eq!(Error::StrayComma.kind(), ErrorKind::Syntax);
}

#[test]
fn values_side_by_side_are_rejected() {
    assert_eq!(parse("1 2"), Err(Error::InvalidSequence));
    assert_eq!(parse("x 2"), Err(Error::InvalidSequence));
    assert_eq!(parse("(1)2"), Err(Error::InvalidSequence));
    assert_eq!(parse("-2x"), Err(Error::InvalidSequence));
    assert_eq!(parse("2sin(3)"), Err(Error::InvalidSequence));
}

#[test]
fn keywords_inside_an_expression_are_rejected() {
    assert_eq!(parse("1+help"), Err(Error::EmbeddedHelp));
    assert_eq!(parse("help"), Err(Error::EmbeddedHelp));
    assert_eq!(parse("y=2"), Err(Error::EmbeddedEquation));
    assert_eq!(parse("graph(y=2)"), Err(Error::EmbeddedEquation));
    assert_eq!(Error::EmbeddedHelp.kind(), ErrorKind::Syntax);
    assert_eq!(Error::EmbeddedEquation.kind(), ErrorKind::Syntax);
}

#[test]
fn no_tokens_build_nothing() {
    let none: VecDeque<Token<f64>> = VecDeque::new();
    assert_eq!(build_ast(none), Err(Error::Incomplete));
}

#[test]
fn combine_merges_down_to_the_open_parenthesis() {
    let mut stack = vec![
        ASTNode::UnfinishedNode(UnfinishedNode::LeftParen),
        ASTNode::NumberNode(1.0),
        ASTNode::UnfinishedNode(UnfinishedNode::Plus),
        ASTNode::NumberNode(2.0),
    ];
    assert_eq!(combine_finished_val(&mut stack), Ok(()));
    assert_eq!(
        stack,
        vec![
            ASTNode::UnfinishedNode(UnfinishedNode::LeftParen),
            *binary(1, number(1.0), BinaryOperation::Plus, number(2.0)),
        ]
    );
    let mut single = vec![ASTNode::NumberNode(1.0)];
    assert_eq!(combine_finished_val(&mut single), Ok(()));
    assert_eq!(single, vec![ASTNode::NumberNode(1.0)]);
    let mut after_comma = vec![
        ASTNode::UnfinishedNode(UnfinishedNode::FunctionCall("sum".to_string())),
        ASTNode::NumberNode(1.0),
        ASTNode::Comma,
        ASTNode::NumberNode(2.0),
    ];
    assert_eq!(combine_finished_val(&mut after_comma), Ok(()));
    assert_eq!(after_comma.len(), 4);
    let mut bare = vec![ASTNode::UnfinishedNode(UnfinishedNode::Times), ASTNode::NumberNode(2.0)];
    assert_eq!(combine_finished_val(&mut bare), Err(Error::InvalidSequence));
}

#[test]
fn trees_and_tokens_can_be_copied() {
    for text in ["1+2*3", "-(x)", "sum(1,y,max(2,3))", "2x^2"] {
        let tree = parse(text).unwrap();
        assert_eq!(tree.clone(), tree);
    }
    let marker = ASTNode::<f64>::UnfinishedNode(UnfinishedNode::FunctionCall("sin".to_string()));
    assert_eq!(marker.clone(), marker);
    assert_eq!(ASTNode::<f64>::Comma.clone(), ASTNode::Comma);
    let tokens = tokenize("avg(1,x)=2".to_string(), &arithmetic).unwrap();
    assert_eq!(tokens.clone(), tokens);
    let call = FunctionCall { inputs: VecDeque::from(vec![ASTNode::NumberNode(1.0)]), operation: "ln".to_string() };
    assert_eq!(call.clone(), call);
}
