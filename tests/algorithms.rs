use expression_engine::algorithms::{binary_tree_algorithm, shunting_yard_algorithm, ParseError};
use expression_engine::equations::{Equation, Operator};
use expression_engine::number::Number;

fn variable(name: &str) -> Equation {
    Equation::new(Operator::Variable(name.to_string()))
}

#[test]
fn test_conversions() {
    let out = shunting_yard_algorithm("(a+b)/c".to_string()).unwrap();
    assert_eq!(out, vec!["a", "b", "+", "c", "/"]);
    let tree: Equation = binary_tree_algorithm(out).unwrap();
    let expected: Equation = Equation {
        root: Operator::Divide,
        left: Some(Box::new(Equation {
            root: Operator::Add,
            left: Some(Box::new(variable("a"))),
            right: Some(Box::new(variable("b"))),
        })),
        right: Some(Box::new(variable("c"))),
    };
    assert_eq!(tree, expected);

    let out = shunting_yard_algorithm("A+B*C-D".to_string()).unwrap();
    assert_eq!(out, vec!["A", "B", "C", "*", "+", "D", "-"]);

    let out = shunting_yard_algorithm("4+4*2/(1-5)".to_string()).unwrap();
    assert_eq!(out, vec!["4", "4", "2", "*", "1", "5", "-", "/", "+"]);

    let out = shunting_yard_algorithm("(3+4)*5".to_string()).unwrap();
    assert_eq!(out, vec!["3", "4", "+", "5", "*"]);

    let out = shunting_yard_algorithm("{-1}/c".to_string()).unwrap();
    assert_eq!(out, vec!["-1", "c", "/"]);
}

#[test]
fn unmatched_closing_parenthesis_is_an_error() {
    assert_eq!(shunting_yard_algorithm("a+b)".to_string()), Err(ParseError::MismatchedParentheses));
    assert_eq!(shunting_yard_algorithm(")".to_string()), Err(ParseError::MismatchedParentheses));
    assert_eq!(shunting_yard_algorithm("(a+b))*c".to_string()), Err(ParseError::MismatchedParentheses));
}

#[test]
fn unclosed_opening_parenthesis_is_an_error() {
    assert_eq!(shunting_yard_algorithm("(a+b".to_string()), Err(ParseError::MismatchedParentheses));
    assert_eq!(shunting_yard_algorithm("((a)".to_string()), Err(ParseError::MismatchedParentheses));
}

#[test]
fn unclosed_brace_is_an_error() {
    assert_eq!(shunting_yard_algorithm("a+{v_1".to_string()), Err(ParseError::UnclosedBrace));
}

#[test]
fn brace_group_keeps_its_braces_unless_numeric() {
    let out = shunting_yard_algorithm("{v_1}*{2.50}".to_string()).unwrap();
    assert_eq!(out, vec!["{v_1}", "2.50", "*"]);
}

#[test]
fn power_binds_tighter_and_spaces_are_dropped() {
    let out = shunting_yard_algorithm("a * b ^ c".to_string()).unwrap();
    assert_eq!(out, vec!["a", "b", "c", "^", "*"]);
    let out = shunting_yard_algorithm("a-b-c".to_string()).unwrap();
    assert_eq!(out, vec!["a", "b", "-", "c", "-"]);
}

#[test]
fn empty_or_surplus_postfix_is_malformed() {
    assert_eq!(binary_tree_algorithm(Vec::new()), Err(ParseError::MalformedExpression));
    let tokens = vec!["a".to_string(), "b".to_string()];
    assert_eq!(binary_tree_algorithm(tokens), Err(ParseError::MalformedExpression));
}

#[test]
fn numeric_tokens_become_numbers() {
    let tree = binary_tree_algorithm(vec!["2.5".to_string()]).unwrap();
    assert_eq!(tree, Equation::new(Operator::Value(Number::ratio(5, 2))));
    let tree = binary_tree_algorithm(vec!["x".to_string(), "-".to_string()]).unwrap();
    let expected = Equation { root: Operator::Subtract, left: None, right: Some(Box::new(variable("x"))) };
    assert_eq!(tree, expected);
}

#[test]
fn exponent_literals_in_braces_are_numbers() {
    let out = shunting_yard_algorithm("{1e3}*x".to_string()).unwrap();
    assert_eq!(out, vec!["1e3", "x", "*"]);
    let tree = binary_tree_algorithm(vec!["1e3".to_string()]).unwrap();
    assert_eq!(tree, Equation::new(Operator::Value(Number::integer(1000))));
}
