use expression_engine::algorithms::{shunting_yard_algorithm, ParseError};
use expression_engine::equations::{Equation, Malleable, Operator};
use expression_engine::math;
use expression_engine::number::Number;
use expression_engine::operations::Operation;

fn parse(s: &str) -> Equation {
    Equation::parse(s.to_string()).unwrap()
}

fn simplified(s: &str) -> Equation {
    let mut e = parse(s);
    e.simplify()
}

#[test]
fn rendering_a_parse_gives_the_text_back() {
    assert_eq!(parse("(a+b)/c").equation_repr(), "(a+b)/c");
    assert_eq!(parse("a/c").equation_repr(), "a/c");
    assert_eq!(parse("(a-b)*c").equation_repr(), "(a-b)*c");
}

#[test]
fn constants_fold() {
    assert_eq!(simplified("(0+1)/c"), parse("1/c"));
    assert_eq!(simplified("0*{v_1}"), parse("0"));
    assert_eq!(simplified("2*3+4"), parse("{10}"));
    assert_eq!(simplified("x/1"), parse("x"));
}

#[test]
fn signs_are_kept() {
    assert_eq!(simplified("(0-1)/c"), parse("{-1}/c"));
    assert_eq!(simplified("-(a)"), parse("{-1}*a"));
    assert_eq!(simplified("0-a"), parse("0-a"));
}

#[test]
fn variables_in_order() {
    let vars = parse("(a+b)/c").get_variables();
    assert_eq!(vars, vec!["a".to_string(), "b".to_string(), "c".to_string()]);
}

#[test]
fn text_and_number_match_structurally_but_differ() {
    let x = Operation::Text("x".to_string());
    let one = Operation::Value(Number::integer(1));
    assert!(x.compare_structure(&one) && one.compare_structure(&x));
    assert!(x != one);
}

#[test]
fn mismatched_parentheses_never_give_tokens() {
    for text in ["(", ")", "a)", "(a", "((a)", "(a))", ")(", "a+(b*c"] {
        assert_eq!(shunting_yard_algorithm(text.to_string()), Err(ParseError::MismatchedParentheses));
    }
    assert_eq!(shunting_yard_algorithm("({a)".to_string()), Err(ParseError::UnclosedBrace));
    assert!(shunting_yard_algorithm("{(}".to_string()).is_ok());
}

#[test]
fn declaration_text() {
    let e = parse("x*2");
    assert_eq!(
        e.declaration(),
        "Equation {root: Multiply,left: Some(Box::new(Equation {root: Variable(\"x\".parse().unwrap()),left: None,right: None,})),right: Some(Box::new(Equation {root: Value(2),left: None,right: None,})),}"
    );
}

#[test]
fn from_str_reads_and_reports() {
    let e: Equation = "a+b".parse().unwrap();
    assert_eq!(e, parse("a+b"));
    let unary: Equation = "a+".parse().unwrap();
    assert_eq!(unary, Equation { root: Operator::Add, left: None, right: Some(Box::new(parse("a"))) });
    assert_eq!(")".parse::<Equation>(), Err(ParseError::MismatchedParentheses));
    assert_eq!("".parse::<Equation>(), Err(ParseError::MalformedExpression));
}

#[test]
fn adding_terms() {
    let a = Operation::Text("a".to_string());
    let b = Operation::Text("b".to_string());
    let s = a.clone() + b.clone();
    assert_eq!(s, Operation::Sum(vec![a.clone(), b.clone()]));
    let s2 = s.clone() + Operation::Sum(vec![Operation::Text("c".to_string())]);
    assert_eq!(s2.equation_repr(), "a + b + c");
    let n = Operation::Value(Number::integer(2)).plus(Operation::Value(Number::integer(3)));
    assert_eq!(n, Operation::Value(Number::integer(5)));
    let front = a.plus(Operation::Sum(vec![b]));
    assert_eq!(front.equation_repr(), "a + b");
}

#[test]
fn equation_between_terms() {
    let e = math::Equation::new(Operation::Value(Number::integer(5)), Operation::Text("x".to_string()));
    assert_eq!(e.equation_repr(), "5 = x");
    assert_eq!(e.value(), Number::integer(4));
}

#[test]
fn leaf_with_operator_root_renders_its_sign() {
    let e = Equation { root: Operator::Subtract, left: None, right: Some(Box::new(parse("a"))) };
    assert_eq!(e.equation_repr(), "-a");
}
