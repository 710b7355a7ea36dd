use calculator::arith::{AggregateFunction, Operation, UnaryFunction};
use calculator::ast::BinaryOperation;
use calculator::error::{Error, ErrorKind};
use calculator::tokens::{is_function, remaining_text, tokenize, Token};

fn factorial(n: f64) -> Option<f64> {
    if n < 0.0 || n.fract() != 0.0 || !n.is_finite() {
        return None;
    }
    let mut product = 1.0;
    let mut k = n;
    while k > 0.0 {
        product *= k;
        k -= 1.0;
    }
    Some(product)
}

fn average(nums: &[f64]) -> f64 {
    let mut sum = 0.;
    for num in nums {
        sum += *num;
    }
    sum / nums.len() as f64
}

fn aggregate(f: AggregateFunction, nums: Vec<f64>) -> Option<f64> {
    match f {
        AggregateFunction::Sum => Some(nums.iter().sum()),
        AggregateFunction::Average => Some(average(&nums)),
        AggregateFunction::StandardDeviation => {
            let mean = average(&nums);
            let mut sum_of_squares = 0.;
            for num in &nums {
                sum_of_squares += (num - mean) * (num - mean);
            }
            Some((sum_of_squares / nums.len() as f64).sqrt())
        }
        AggregateFunction::Max => {
            let mut max = *nums.first()?;
            for num in nums {
                if num > max {
                    max = num;
                }
            }
            Some(max)
        }
        AggregateFunction::Min => {
            let mut min = *nums.first()?;
            for num in nums {
                if num < min {
                    min = num;
                }
            }
            Some(min)
        }
        AggregateFunction::Median => {
            if nums.is_empty() || nums.iter().any(|x| x.is_nan()) {
                return None;
            }
            let mut v = nums.clone();
            v.sort_by(|a, b| a.total_cmp(b));
            Some(v[v.len() / 2])
        }
    }
}

fn arithmetic(op: Operation<f64>) -> Option<f64> {
    match op {
        Operation::Literal(text) => text.parse::<f64>().ok(),
        Operation::Integer(i) => Some(i as f64),
        Operation::Binary(o, a, b) => Some(match o {
            BinaryOperation::Plus => a + b,
            BinaryOperation::Minus => a - b,
            BinaryOperation::Times => a * b,
            BinaryOperation::Divide => a / b,
            BinaryOperation::Exponent => a.powf(b),
            BinaryOperation::Modulus => a % b,
        }),
        Operation::Negate(a) => Some(-1.0 * a),
        Operation::Function(f, a) => match f {
            UnaryFunction::Sin => Some(a.sin()),
            UnaryFunction::Cos => Some(a.cos()),
            UnaryFunction::Tan => Some(a.tan()),
            UnaryFunction::Asin => Some(a.asin()),
            UnaryFunction::Acos => Some(a.acos()),
            UnaryFunction::Atan => Some(a.atan()),
            UnaryFunction::Sec => Some(1. / a.cos()),
            UnaryFunction::Csc => Some(1. / a.sin()),
            UnaryFunction::Cot => Some(1. / a.tan()),
            UnaryFunction::Ln => Some(a.ln()),
            UnaryFunction::Abs => Some(a.abs()),
            UnaryFunction::Factorial => factorial(a),
        },
        Operation::Aggregate(f, nums) => aggregate(f, nums),
    }
}

fn lex(text: &str) -> Result<Vec<Token<f64>>, Error> {
    tokenize(text.to_string(), &arithmetic).map(Vec::from)
}

#[test]
fn numbers_tokenize_correctly() {
    assert_eq!(tokenize("123".to_string(), &arithmetic).unwrap(), vec![Token::Number(123.0)]);
    assert_eq!(tokenize("123.456".to_string(), &arithmetic).unwrap(), vec![Token::Number(123.456)]);
}

#[test]
fn simple_expression() {
    assert_eq!(
        tokenize("1+2".to_string(), &arithmetic).unwrap(),
        vec![Token::Number(1.0), Token::Plus, Token::Number(2.0)]
    )
}

#[test]
fn symbols_tokenize_correctly() {
    let input = "+ - * / ( 123 )".to_string();
    let input = tokenize(input, &arithmetic).unwrap();
    assert_eq!(
        input,
        vec![
            Token::Plus,
            Token::Minus,
            Token::Times,
            Token::Divide,
            Token::LeftParen,
            Token::Number(123.0),
            Token::RightParen
        ]
    );
}

#[test]
fn negatives_tokenize_correctly() {
    let input = tokenize("-2".to_string(), &arithmetic).unwrap();
    assert_eq!(input, vec![Token::Minus, Token::Number(2.0)]);
    let input = tokenize("--2".to_string(), &arithmetic).unwrap();
    assert_eq!(input, vec![Token::Minus, Token::Minus, Token::Number(2.0)]);
    let input = tokenize("3*-2".to_string(), &arithmetic).unwrap();
    assert_eq!(
        input,
        vec![Token::Number(3.0), Token::Times, Token::Minus, Token::Number(2.0)]
    );
}

#[test]
fn carrot_test() {
    let input = "5^5".to_string();
    let input = tokenize(input, &arithmetic).unwrap();
    assert_eq!(input, vec![Token::Number(5.0), Token::Exponent, Token::Number(5.0)])
}

#[test]
fn average_test() {
    let input = "average(1,2,3)".to_string();
    let input = tokenize(input, &arithmetic).unwrap();
    assert_eq!(
        input,
        vec![
            Token::FunctionCall("average".to_string()),
            Token::Number(1.0),
            Token::Comma,
            Token::Number(2.0),
            Token::Comma,
            Token::Number(3.0),
            Token::RightParen
        ]
    )
}

#[test]
fn graph_tokenizes_correctly() {
    let tokens = tokenize("graph(y=5x)".to_string(), &arithmetic).unwrap();
    assert_eq!(
        tokens,
        vec![
            Token::Graph,
            Token::Variable("y".to_string()),
            Token::Equal,
            Token::Number(5.0),
            Token::Variable("x".to_string()),
            Token::RightParen
        ]
    );
}

#[test]
fn one_plus_ln() {
    let tokens = tokenize("1+ln(2)".to_string(), &arithmetic).unwrap();
    assert_eq!(
        tokens,
        vec![
            Token::Number(1.),
            Token::Plus,
            Token::FunctionCall("ln".to_string()),
            Token::Number(2.),
            Token::RightParen
        ]
    );
}

#[test]
fn blank_input_is_a_lex_error() {
    assert_eq!(lex(""), Err(Error::EmptyInput));
    assert_eq!(lex("   "), Err(Error::EmptyInput));
    assert_eq!(lex(" \t\r\n"), Err(Error::EmptyInput));
    assert_eq!(lex("\u{a0}\u{2003}\u{3000}"), Err(Error::EmptyInput));
    assert_eq!(Error::EmptyInput.kind(), ErrorKind::Lex);
}

#[test]
fn unrecognized_text_is_a_syntax_error_at_its_place() {
    assert_eq!(lex("1 + $3"), Err(Error::Unrecognized { at: 4 }));
    assert_eq!(lex("#"), Err(Error::Unrecognized { at: 0 }));
    assert_eq!(lex("2 X"), Err(Error::Unrecognized { at: 2 }));
    assert_eq!(lex("1.x"), Err(Error::Unrecognized { at: 1 }));
    assert_eq!(lex(".5"), Err(Error::Unrecognized { at: 0 }));
    assert_eq!(lex("\u{a0}1 + \u{e9}"), Err(Error::Unrecognized { at: 5 }));
    assert_eq!(lex("\u{663}"), Err(Error::Unrecognized { at: 0 }));
    assert_eq!(Error::Unrecognized { at: 4 }.kind(), ErrorKind::Syntax);
}

#[test]
fn a_literal_without_a_number_is_not_recognized() {
    fn no_literals(op: Operation<f64>) -> Option<f64> {
        match op {
            Operation::Literal(_) => None,
            other => arithmetic(other),
        }
    }
    assert_eq!(
        tokenize("x + 12".to_string(), &no_literals).map(Vec::from),
        Err(Error::Unrecognized { at: 4 })
    );
}

#[test]
fn whitespace_between_tokens_is_passed_over() {
    assert_eq!(lex("  1\t+\n2  "), lex("1+2"));
    assert_eq!(lex("1\u{a0}+\u{2009}2"), lex("1+2"));
    assert_eq!(
        lex("1 2"),
        Ok(vec![Token::Number(1.0), Token::Number(2.0)])
    );
}

#[test]
fn number_next_to_letter_gives_two_tokens() {
    assert_eq!(
        lex("2x"),
        Ok(vec![Token::Number(2.0), Token::Variable("x".to_string())])
    );
    assert_eq!(
        lex("2.5xy"),
        Ok(vec![Token::Number(2.5), Token::Variable("xy".to_string())])
    );
}

#[test]
fn literal_takes_point_only_before_a_digit() {
    assert_eq!(lex("1.5.2"), Err(Error::Unrecognized { at: 3 }));
    assert_eq!(lex("12."), Err(Error::Unrecognized { at: 2 }));
    assert_eq!(lex("007.250"), Ok(vec![Token::Number(7.25)]));
}

#[test]
fn only_listed_names_are_function_calls() {
    assert_eq!(
        lex("sin(x)"),
        Ok(vec![
            Token::FunctionCall("sin".to_string()),
            Token::Variable("x".to_string()),
            Token::RightParen
        ])
    );
    assert_eq!(
        lex("foo(x)"),
        Ok(vec![
            Token::Variable("foo".to_string()),
            Token::LeftParen,
            Token::Variable("x".to_string()),
            Token::RightParen
        ])
    );
    assert_eq!(
        lex("mode(1)"),
        Ok(vec![
            Token::FunctionCall("mode".to_string()),
            Token::Number(1.0),
            Token::RightParen
        ])
    );
    assert_eq!(
        lex("sin (x)"),
        Ok(vec![
            Token::Variable("sin".to_string()),
            Token::LeftParen,
            Token::Variable("x".to_string()),
            Token::RightParen
        ])
    );
    for name in [
        "sum", "average", "avg", "mean", "sin", "cos", "tan", "asin", "acos", "atan", "sec", "csc",
        "cot", "ln", "factorial", "median", "mode", "abs", "max", "min", "std",
    ] {
        assert_eq!(
            lex(&format!("{}(", name)),
            Ok(vec![Token::FunctionCall(name.to_string())])
        );
    }
}

#[test]
fn keywords_come_before_variables() {
    assert_eq!(lex("help"), Ok(vec![Token::Help]));
    assert_eq!(
        lex("helper"),
        Ok(vec![Token::Help, Token::Variable("er".to_string())])
    );
    assert_eq!(lex("hel"), Ok(vec![Token::Variable("hel".to_string())]));
    assert_eq!(lex("graph"), Ok(vec![Token::Variable("graph".to_string())]));
    assert_eq!(lex("graph("), Ok(vec![Token::Graph]));
    assert_eq!(
        lex("a=b,c%d"),
        Ok(vec![
            Token::Variable("a".to_string()),
            Token::Equal,
            Token::Variable("b".to_string()),
            Token::Comma,
            Token::Variable("c".to_string()),
            Token::Modulus,
            Token::Variable("d".to_string())
        ])
    );
}

#[test]
fn remaining_text_is_what_was_not_recognized() {
    assert_eq!(remaining_text("1 + $3 ", 4), "$3");
    assert_eq!(remaining_text("  #  \t", 2), "#");
    assert_eq!(remaining_text("abc", 0), "abc");
    assert_eq!(remaining_text("abc", 3), "");
    assert_eq!(remaining_text("abc", 7), "");
    assert_eq!(remaining_text("a \u{e9}\u{a0}", 2), "\u{e9}");
    assert_eq!(remaining_text("   ", 0), "");
    let text = "2 * (3 ! 4)";
    match lex(text) {
        Err(Error::Unrecognized { at }) => assert_eq!(remaining_text(text, at), "! 4)"),
        other => panic!("{:?}", other),
    }
}

#[test]
fn function_names_of_the_tokenizer() {
    assert!(is_function(&"sum".to_string()));
    assert!(is_function(&"mode".to_string()));
    assert!(is_function(&"std".to_string()));
    assert!(!is_function(&"graph".to_string()));
    assert!(!is_function(&"help".to_string()));
    assert!(!is_function(&"sqrt".to_string()));
    assert!(!is_function(&"".to_string()));
}
