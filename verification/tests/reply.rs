use calculator::arith::{AggregateFunction, Operation, UnaryFunction};
use calculator::ast::BinaryOperation;
use calculator::error::Error;
use calculator::graph::Point;
use calculator::reply::{reply, respond, Reply};
use calculator::tokens::{tokenize, Token};
use std::collections::VecDeque;

fn factorial(n: f64) -> Option<f64> {
    if n < 0.0 || n.fract() != 0.0 || !n.is_finite() {
        return None;
    }
    let mut product = 1.0;
    let mut k = n;
    while k > 0.0 {
        product *= k;
        k -= 1.0;
    }
    Some(product)
}

fn average(nums: &[f64]) -> f64 {
    let mut sum = 0.;
    for num in nums {
        sum += *num;
    }
    sum / nums.len() as f64
}

fn aggregate(f: AggregateFunction, nums: Vec<f64>) -> Option<f64> {
    match f {
        AggregateFunction::Sum => Some(nums.iter().sum()),
        AggregateFunction::Average => Some(average(&nums)),
        AggregateFunction::StandardDeviation => {
            let mean = average(&nums);
            let mut sum_of_squares = 0.;
            for num in &nums {
                sum_of_squares += (num - mean) * (num - mean);
            }
            Some((sum_of_squares / nums.len() as f64).sqrt())
        }
        AggregateFunction::Max => {
            let mut max = *nums.first()?;
            for num in nums {
                if num > max {
                    max = num;
                }
            }
            Some(max)
        }
        AggregateFunction::Min => {
            let mut min = *nums.first()?;
            for num in nums {
                if num < min {
                    min = num;
                }
            }
            Some(min)
        }
        AggregateFunction::Median => {
            if nums.is_empty() || nums.iter().any(|x| x.is_nan()) {
                return None;
            }
            let mut v = nums.clone();
            v.sort_by(|a, b| a.total_cmp(b));
            Some(v[v.len() / 2])
        }
    }
}

fn arithmetic(op: Operation<f64>) -> Option<f64> {
    match op {
        Operation::Literal(text) => text.parse::<f64>().ok(),
        Operation::Integer(i) => Some(i as f64),
        Operation::Binary(o, a, b) => Some(match o {
            BinaryOperation::Plus => a + b,
            BinaryOperation::Minus => a - b,
            BinaryOperation::Times => a * b,
            BinaryOperation::Divide => a / b,
            BinaryOperation::Exponent => a.powf(b),
            BinaryOperation::Modulus => a % b,
        }),
        Operation::Negate(a) => Some(-1.0 * a),
        Operation::Function(f, a) => match f {
            UnaryFunction::Sin => Some(a.sin()),
            UnaryFunction::Cos => Some(a.cos()),
            UnaryFunction::Tan => Some(a.tan()),
            UnaryFunction::Asin => Some(a.asin()),
            UnaryFunction::Acos => Some(a.acos()),
            UnaryFunction::Atan => Some(a.atan()),
            UnaryFunction::Sec => Some(1. / a.cos()),
            UnaryFunction::Csc => Some(1. / a.sin()),
            UnaryFunction::Cot => Some(1. / a.tan()),
            UnaryFunction::Ln => Some(a.ln()),
            UnaryFunction::Abs => Some(a.abs()),
            UnaryFunction::Factorial => factorial(a),
        },
        Operation::Aggregate(f, nums) => aggregate(f, nums),
    }
}

fn ask(text: &str) -> Result<Reply<f64>, Error> {
    reply(text.to_string(), &arithmetic)
}

#[test]
fn expression_is_answered_with_its_value() {
    assert_eq!(ask("1+2*3+4"), Ok(Reply::Value(11.0)));
    assert_eq!(ask("10^2"), Ok(Reply::Value(100.0)));
    assert_eq!(ask("10%5"), Ok(Reply::Value(0.0)));
    assert_eq!(ask("-2"), Ok(Reply::Value(-2.0)));
    assert_eq!(ask("--2"), Ok(Reply::Value(2.0)));
    assert_eq!(ask("3*-2"), Ok(Reply::Value(-6.0)));
    assert_eq!(ask("factorial(8)"), Ok(Reply::Value(40320.0)));
    assert_eq!(ask("average(1,2,3)"), Ok(Reply::Value(2.0)));
    assert_eq!(ask(" ( 1 + 2 ) * 3 "), Ok(Reply::Value(9.0)));
}

#[test]
fn help_is_recognized_only_alone() {
    assert_eq!(ask("help"), Ok(Reply::Help));
    assert_eq!(ask("  help  "), Ok(Reply::Help));
    assert_eq!(ask("help+1"), Err(Error::EmbeddedHelp));
    assert_eq!(ask("1+help"), Err(Error::EmbeddedHelp));
    assert_eq!(ask("helphelp"), Err(Error::EmbeddedHelp));
}

#[test]
fn equation_is_answered_with_its_points() {
    let mut expected = vec![];
    for i in -50..50 {
        expected.push(Point { x: i as f64 / 5.0, y: i as f64 });
    }
    assert_eq!(ask("graph(y=5x)"), Ok(Reply::Points(expected)));
    match ask("graph(y=(x))") {
        Ok(Reply::Points(points)) => {
            assert_eq!(points.len(), 100);
            for p in points {
                assert_eq!(p.x, p.y);
            }
        }
        other => panic!("{:?}", other),
    }
}

#[test]
fn errors_of_every_stage_come_back() {
    assert_eq!(ask(""), Err(Error::EmptyInput));
    assert_eq!(ask("1 + ?"), Err(Error::Unrecognized { at: 4 }));
    assert_eq!(ask("1 +"), Err(Error::Incomplete));
    assert_eq!(ask("(1"), Err(Error::UnmatchedParenthesis));
    assert_eq!(ask("1)"), Err(Error::UnmatchedParenthesis));
    assert_eq!(ask("2x"), Err(Error::FreeVariable));
    assert_eq!(ask("sin(1,2)"), Err(Error::Arity));
    assert_eq!(ask("mode(1)"), Err(Error::UnknownFunction));
    assert_eq!(ask("factorial(1.5)"), Err(Error::Domain));
    assert_eq!(ask("y=5x"), Err(Error::EmbeddedEquation));
    assert_eq!(ask("graph(1=2)"), Err(Error::UnsupportedEquation));
    assert_eq!(ask("graph(x=x*ln(y))"), Err(Error::FunctionInGraph));
}

#[test]
fn tokens_are_answered_like_their_text() {
    let tokens = tokenize("2*(3+4)".to_string(), &arithmetic).unwrap();
    assert_eq!(respond(tokens, &arithmetic), Ok(Reply::Value(14.0)));
    let none: VecDeque<Token<f64>> = VecDeque::new();
    assert_eq!(respond(none, &arithmetic), Err(Error::Incomplete));
    let help: VecDeque<Token<f64>> = VecDeque::from(vec![Token::Help]);
    assert_eq!(respond(help, &arithmetic), Ok(Reply::Help));
}
