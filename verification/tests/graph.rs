use calculator::arith::{AggregateFunction, Operation, UnaryFunction};
use calculator::ast::{
    build_ast, ASTNode, BinaryNode, BinaryOperation, FunctionCall, UnaryNode, UnaryOperation,
    UnfinishedNode,
};
use calculator::error::{Error, ErrorKind};
use calculator::eval::evaluate_ast;
use calculator::graph::{
    get_variables, graph, holds_call_of_variable, reduce_ast, replace_variables,
    solve_for_variable, Point, SAMPLES,
};
use calculator::tokens::tokenize;
use std::collections::VecDeque;

fn factorial(n: f64) -> Option<f64> {
    if n < 0.0 || n.fract() != 0.0 || !n.is_finite() {
        return None;
    }
    let mut product = 1.0;
    let mut k = n;
    while k > 0.0 {
        product *= k;
        k -= 1.0;
    }
    Some(product)
}

fn average(nums: &[f64]) -> f64 {
    let mut sum = 0.;
    for num in nums {
        sum += *num;
    }
    sum / nums.len() as f64
}

fn aggregate(f: AggregateFunction, nums: Vec<f64>) -> Option<f64> {
    match f {
        AggregateFunction::Sum => Some(nums.iter().sum()),
        AggregateFunction::Average => Some(average(&nums)),
        AggregateFunction::StandardDeviation => {
            let mean = average(&nums);
            let mut sum_of_squares = 0.;
            for num in &nums {
                sum_of_squares += (num - mean) * (num - mean);
            }
            Some((sum_of_squares / nums.len() as f64).sqrt())
        }
        AggregateFunction::Max => {
            let mut max = *nums.first()?;
            for num in nums {
                if num > max {
                    max = num;
                }
            }
            Some(max)
        }
        AggregateFunction::Min => {
            let mut min = *nums.first()?;
            for num in nums {
                if num < min {
                    min = num;
                }
            }
            Some(min)
        }
        AggregateFunction::Median => {
            if nums.is_empty() || nums.iter().any(|x| x.is_nan()) {
                return None;
            }
            let mut v = nums.clone();
            v.sort_by(|a, b| a.total_cmp(b));
            Some(v[v.len() / 2])
        }
    }
}

fn arithmetic(op: Operation<f64>) -> Option<f64> {
    match op {
        Operation::Literal(text) => text.parse::<f64>().ok(),
        Operation::Integer(i) => Some(i as f64),
        Operation::Binary(o, a, b) => Some(match o {
            BinaryOperation::Plus => a + b,
            BinaryOperation::Minus => a - b,
            BinaryOperation::Times => a * b,
            BinaryOperation::Divide => a / b,
            BinaryOperation::Exponent => a.powf(b),
            BinaryOperation::Modulus => a % b,
        }),
        Operation::Negate(a) => Some(-1.0 * a),
        Operation::Function(f, a) => match f {
            UnaryFunction::Sin => Some(a.sin()),
            UnaryFunction::Cos => Some(a.cos()),
            UnaryFunction::Tan => Some(a.tan()),
            UnaryFunction::Asin => Some(a.asin()),
            UnaryFunction::Acos => Some(a.acos()),
            UnaryFunction::Atan => Some(a.atan()),
            UnaryFunction::Sec => Some(1. / a.cos()),
            UnaryFunction::Csc => Some(1. / a.sin()),
            UnaryFunction::Cot => Some(1. / a.tan()),
            UnaryFunction::Ln => Some(a.ln()),
            UnaryFunction::Abs => Some(a.abs()),
            UnaryFunction::Factorial => factorial(a),
        },
        Operation::Aggregate(f, nums) => aggregate(f, nums),
    }
}

fn parse(text: &str) -> ASTNode<f64> {
    build_ast(tokenize(text.to_string(), &arithmetic).unwrap()).unwrap()
}

fn plot(text: &str) -> Result<Vec<Point<f64>>, Error> {
    graph(tokenize(text.to_string(), &arithmetic)?, &arithmetic)
}

fn solve(left: &str, right: &str) -> Result<f64, Error> {
    solve_for_variable(parse(left), parse(right), &arithmetic)
}

fn close(a: f64, b: f64) -> bool {
    (a - b).abs() < 1e-9
}

#[test]
fn graph_of_linear_equation_works() {
    let input = tokenize("graph(y=5x)".to_string(), &arithmetic).unwrap();
    let output = graph(input, &arithmetic);
    let mut expected_results = vec![];
    for i in -50..50 {
        expected_results.push(Point { x: i as f64 / 5.0, y: i as f64 });
    }
    assert_eq!(output, Ok(expected_results));
}

#[test]
fn graph_has_one_point_for_each_sample() {
    let points = plot("graph(y=x^2+1)").unwrap();
    assert_eq!(points.len(), SAMPLES);
    assert_eq!(points.len(), 100);
    for (k, p) in points.iter().enumerate() {
        let x = (k as i64 - 50) as f64 / 5.0;
        assert_eq!(p.x, x);
        assert_eq!(p.y, x.powf(2.0) + 1.0);
    }
    assert_eq!(points[0].x, -10.0);
    assert_eq!(points[99].x, 9.8);
}

#[test]
fn graph_solves_for_the_variable_on_the_left() {
    let points = plot("graph(2y+1=x)").unwrap();
    for p in &points {
        assert!(close(p.y, (p.x - 1.0) / 2.0));
    }
    let points = plot("graph(-(y)=x)").unwrap();
    for p in &points {
        assert_eq!(p.y, -1.0 * p.x);
    }
    let points = plot("graph(y-3=2x)").unwrap();
    for p in &points {
        assert!(close(p.y, 2.0 * p.x + 3.0));
    }
}

#[test]
fn graph_takes_tokens_with_or_without_the_wrapping() {
    let wrapped = plot("graph(y=5x)").unwrap();
    let bare = plot("y=5x").unwrap();
    assert_eq!(wrapped, bare);
}

#[test]
fn graph_rejects_equations_it_cannot_solve() {
    assert_eq!(plot("graph(1=2)"), Err(Error::UnsupportedEquation));
    assert_eq!(plot("graph(y=2)"), Err(Error::UnsupportedEquation));
    assert_eq!(plot("graph(2=x)"), Err(Error::UnsupportedEquation));
    assert_eq!(plot("graph(y*y=x)"), Err(Error::UnsupportedEquation));
    assert_eq!(plot("graph(y%2=x)"), Err(Error::UnsupportedEquation));
    assert_eq!(plot("graph(y=sin(x))"), Err(Error::FunctionInGraph));
    assert_eq!(plot("graph(sin(y)=x)"), Err(Error::FunctionInGraph));
    assert_eq!(plot("graph(x=x*sin(y))"), Err(Error::FunctionInGraph));
    assert_eq!(plot("graph(y=x+sin(y))"), Err(Error::FunctionInGraph));
    assert_eq!(plot("graph(y=sin(y)+x)"), Err(Error::FunctionInGraph));
    assert_eq!(plot("graph(y=x+max(1,ln(x)))"), Err(Error::FunctionInGraph));
    assert_eq!(plot("graph(sin(1)=cos(2))"), Err(Error::UnsupportedEquation));
    assert_eq!(Error::UnsupportedEquation.kind(), ErrorKind::Graph);
    assert_eq!(Error::FunctionInGraph.kind(), ErrorKind::Graph);
}

#[test]
fn graph_needs_one_equals_sign() {
    assert_eq!(plot("graph(y)"), Err(Error::Incomplete));
    assert_eq!(plot("graph(y=x=2)"), Err(Error::EmbeddedEquation));
    assert_eq!(plot("graph(=x)"), Err(Error::Incomplete));
    assert_eq!(plot("graph(y+=x)"), Err(Error::Incomplete));
    assert_eq!(plot("graph(y=x+)"), Err(Error::Incomplete));
    assert_eq!(graph(VecDeque::new(), &arithmetic), Err(Error::Incomplete));
}

#[test]
fn constant_functions_are_folded_in_a_graph() {
    let points = plot("graph(y=x+max(1,2))").unwrap();
    for p in &points {
        assert_eq!(p.y, p.x + 2.0);
    }
}

#[test]
fn solve_applies_the_inverse_of_each_operation() {
    assert_eq!(solve("y+2", "10"), Ok(8.0));
    assert_eq!(solve("2+y", "10"), Ok(8.0));
    assert_eq!(solve("y-2", "10"), Ok(12.0));
    assert_eq!(solve("2-y", "10"), Ok(-8.0));
    assert_eq!(solve("y*2", "10"), Ok(5.0));
    assert_eq!(solve("2y", "10"), Ok(5.0));
    assert_eq!(solve("y/2", "10"), Ok(20.0));
    assert_eq!(solve("20/y", "10"), Ok(2.0));
    assert_eq!(solve("y^2", "9"), Ok(3.0));
    assert!(close(solve("2^y", "8").unwrap(), 3.0));
    assert_eq!(solve("-y", "10"), Ok(-10.0));
    assert_eq!(solve("(y)", "10"), Ok(10.0));
    assert_eq!(solve("10", "y+2"), Ok(8.0));
    assert_eq!(solve("2*(y+1)", "3+3"), Ok(2.0));
    assert_eq!(solve("(1+1)*y+4", "10"), Ok(3.0));
}

#[test]
fn solve_fails_on_other_shapes() {
    assert_eq!(solve("y%2", "1"), Err(Error::UnsupportedEquation));
    assert_eq!(solve("y*y", "4"), Err(Error::UnsupportedEquation));
    assert_eq!(solve("1+1", "2"), Err(Error::UnsupportedEquation));
    assert_eq!(solve("1", "2*sin(y)"), Err(Error::FunctionInGraph));
    assert_eq!(solve("sin(y)", "1"), Err(Error::FunctionInGraph));
    assert_eq!(solve("y", "x"), Err(Error::FreeVariable));
    assert_eq!(solve("1", "sin(1,2)"), Err(Error::Arity));
}

#[test]
fn variables_are_listed_from_left_to_right() {
    assert_eq!(get_variables(&parse("2x+5y-10")), vec!["x".to_string(), "y".to_string()]);
    assert_eq!(get_variables(&parse("x*(y+x)")), vec!["x".to_string(), "y".to_string()]);
    assert_eq!(get_variables(&parse("1+2")), Vec::<String>::new());
    assert_eq!(get_variables(&parse("-abc")), vec!["abc".to_string()]);
}

#[test]
fn each_variable_is_listed_once() {
    let x = || Box::new(ASTNode::<f64>::Variable("x".to_string()));
    let square = ASTNode::BinaryNode(BinaryNode {
        priority: 2,
        left: x(),
        right: x(),
        operation: BinaryOperation::Times,
    });
    assert_eq!(get_variables(&square), vec!["x".to_string()]);
    assert_eq!(
        get_variables(&parse("y+x*y-x+z+y")),
        vec!["y".to_string(), "x".to_string(), "z".to_string()]
    );
}

#[test]
fn variables_in_function_arguments_are_listed() {
    assert_eq!(get_variables(&parse("sin(x)")), vec!["x".to_string()]);
    assert_eq!(get_variables(&parse("y+sin(x+y)")), vec!["y".to_string(), "x".to_string()]);
    assert_eq!(get_variables(&parse("max(1,min(2,t))")), vec!["t".to_string()]);
    assert_eq!(get_variables(&parse("sum(1,2)")), Vec::<String>::new());
    assert_eq!(holds_call_of_variable(&parse("1+sin(x)")), true);
    assert_eq!(holds_call_of_variable(&parse("x+sin(1)")), false);
    assert_eq!(holds_call_of_variable(&parse("-(max(1,min(2,t)))")), true);
    assert_eq!(holds_call_of_variable(&parse("x+y")), false);
}

#[test]
fn substitution_replaces_every_occurrence() {
    let x = "x".to_string();
    assert_eq!(replace_variables(&parse("2x"), &x, 3.0), parse("2*3"));
    assert_eq!(evaluate_ast(replace_variables(&parse("2x"), &x, 3.0), &arithmetic), Ok(6.0));
    assert_eq!(replace_variables(&parse("x+y*x"), &x, 1.5), parse("1.5+y*1.5"));
    assert_eq!(replace_variables(&parse("sum(x,y,x)"), &x, 2.0), parse("sum(2,y,2)"));
    assert_eq!(replace_variables(&parse("-(x)"), &x, 2.0), parse("-(2)"));
    assert_eq!(replace_variables(&parse("xx+1"), &x, 2.0), parse("xx+1"));
    assert_eq!(replace_variables(&ASTNode::Comma, &x, 2.0), ASTNode::Comma);
    assert_eq!(
        replace_variables(&ASTNode::UnfinishedNode(UnfinishedNode::FunctionCall(x.clone())), &x, 2.0),
        ASTNode::UnfinishedNode(UnfinishedNode::FunctionCall(x.clone()))
    );
}

#[test]
fn reduction_folds_constants_and_keeps_variables() {
    assert_eq!(reduce_ast(&parse("1+2*3"), &arithmetic), Ok(ASTNode::NumberNode(7.0)));
    assert_eq!(reduce_ast(&parse("x"), &arithmetic), Ok(parse("x")));
    assert_eq!(reduce_ast(&parse("(1+2)*x"), &arithmetic), Ok(parse("3*x")));
    assert_eq!(reduce_ast(&parse("x+2*3"), &arithmetic), Ok(parse("x+6")));
    assert_eq!(reduce_ast(&parse("-(2)"), &arithmetic), Ok(ASTNode::NumberNode(-2.0)));
    assert_eq!(reduce_ast(&parse("(x)"), &arithmetic), Ok(parse("(x)")));
    assert_eq!(reduce_ast(&parse("-x"), &arithmetic), Ok(parse("-x")));
    assert_eq!(reduce_ast(&parse("max(1,2)+x"), &arithmetic), Ok(parse("2+x")));
    assert_eq!(reduce_ast(&parse("sum(1+1,x)"), &arithmetic), Ok(parse("sum(2,x)")));
    assert_eq!(reduce_ast(&parse("foo+1"), &arithmetic), Ok(parse("foo+1")));
}

#[test]
fn reduction_is_idempotent() {
    for text in ["1+2*3", "x", "(1+2)*x", "x+2*3", "sum(1+1,x)", "-(x+1*1)", "2^3^y"] {
        let once = reduce_ast(&parse(text), &arithmetic).unwrap();
        let twice = reduce_ast(&once, &arithmetic).unwrap();
        assert_eq!(once, twice, "{}", text);
    }
}

#[test]
fn reduction_agrees_with_evaluation() {
    for text in ["1+2*3", "10^2", "-(4)", "max(1,2)*3", "factorial(4)/2"] {
        let reduced = reduce_ast(&parse(text), &arithmetic).unwrap();
        let value = evaluate_ast(parse(text), &arithmetic).unwrap();
        assert_eq!(reduced, ASTNode::NumberNode(value), "{}", text);
    }
}

#[test]
fn reduction_fails_where_nothing_can_be_folded() {
    assert_eq!(reduce_ast(&ASTNode::<f64>::Comma, &arithmetic), Err(Error::StrayComma));
    assert_eq!(
        reduce_ast(&ASTNode::<f64>::UnfinishedNode(UnfinishedNode::Minus), &arithmetic),
        Err(Error::UnfinishedExpression)
    );
    assert_eq!(reduce_ast(&parse("sin(1,2)"), &arithmetic), Err(Error::Arity));
    assert_eq!(reduce_ast(&parse("mode(1)"), &arithmetic), Err(Error::UnknownFunction));
    assert_eq!(reduce_ast(&parse("mode(x)"), &arithmetic), Ok(parse("mode(x)")));
    assert_eq!(reduce_ast(&parse("factorial(0-1)"), &arithmetic), Err(Error::Domain));
    let call = ASTNode::FunctionCall(FunctionCall {
        inputs: VecDeque::from(vec![ASTNode::<f64>::Comma]),
        operation: "sum".to_string(),
    });
    assert_eq!(reduce_ast(&call, &arithmetic), Err(Error::BadArgument));
    let nested = ASTNode::BinaryNode(BinaryNode {
        priority: 1,
        left: Box::new(ASTNode::NumberNode(1.0)),
        right: Box::new(ASTNode::UnaryNode(UnaryNode {
            priority: 9,
            child: Box::new(ASTNode::Comma),
            operation: UnaryOperation::Negate,
        })),
        operation: BinaryOperation::Plus,
    });
    assert_eq!(reduce_ast(&nested, &arithmetic), Err(Error::StrayComma));
}

#[test]
fn folded_trees_come_back_whatever_the_arithmetic_answers() {
    fn silent(_: Operation<f64>) -> Option<f64> {
        None
    }
    let tokens = |text: &str| build_ast(tokenize(text.to_string(), &arithmetic).unwrap()).unwrap();
    for text in ["x", "3*x", "x+6", "sum(2,x)", "-(x)", "2^(y+1)"] {
        let tree = reduce_ast(&tokens(text), &arithmetic).unwrap();
        assert_eq!(reduce_ast(&tree, &silent), Ok(parse_folded(text)), "{}", text);
    }
    assert_eq!(reduce_ast(&ASTNode::NumberNode(3.5), &silent), Ok(ASTNode::NumberNode(3.5)));
    assert_eq!(reduce_ast(&parse("1+2"), &silent), Err(Error::Domain));
}

fn parse_folded(text: &str) -> ASTNode<f64> {
    reduce_ast(&parse(text), &arithmetic).unwrap()
}

#[test]
fn nodes_above_a_variable_survive_folding() {
    let folded = reduce_ast(&parse("(1+2)*x-4/2"), &arithmetic).unwrap();
    assert_eq!(folded, parse("3*x-2"));
    assert_eq!(get_variables(&folded), get_variables(&parse("(1+2)*x-4/2")));
    let folded = reduce_ast(&parse("-(2*3+y)^(1+1)"), &arithmetic).unwrap();
    assert_eq!(get_variables(&folded), vec!["y".to_string()]);
}

#[test]
fn solution_needs_the_variable_once() {
    assert_eq!(solve("y+y", "4"), Err(Error::UnsupportedEquation));
    assert_eq!(solve("y", "4"), Ok(4.0));
    assert_eq!(solve("4", "y"), Ok(4.0));
    assert_eq!(solve("y+1", "x"), Err(Error::FreeVariable));
    assert_eq!(solve("1", "2"), Err(Error::UnsupportedEquation));
}
