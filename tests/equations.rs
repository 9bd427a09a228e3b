use expression_engine::equations::{Equation, Malleable, Operator};
use expression_engine::number::Number;

fn parse(s: &str) -> Equation {
    Equation::parse(s.to_string()).unwrap()
}

fn leaf(root: Operator) -> Option<Box<Equation>> {
    Some(Box::new(Equation::new(root)))
}

#[test]
fn test_eq() {
    let a: Equation = parse("(a+b)/c");
    let b: Equation = parse("(a+b)/c");
    assert_eq!(a, b);
    let b: Equation = parse("(a+b)/d");
    assert_ne!(a, b);
}

#[test]
fn test_strings() {
    let a: Equation = parse("(a+b)/c");
    assert_eq!(a.equation_repr(), "(a+b)/c".to_string());
}

#[test]
fn test_get_variables() {
    let a: Equation = parse("(a+b)/c");
    let mut b: Vec<String> = Vec::new();
    b.push("a".to_string());
    b.push("b".to_string());
    b.push("c".to_string());
    for i in 0..b.len() {
        assert_eq!(a.get_variables()[i], b[i]);
    }
    assert_eq!(a.get_variables().len(), 3);
}

#[test]
fn test_replace_variable() {
    let mut a: Equation = parse("(a+b)/c");
    a.replace_variable("a".to_string(), "d".to_string());
    assert_eq!(a, parse("(d+b)/c"));
}

#[test]
fn replacing_with_a_number_makes_a_number_leaf() {
    let mut a: Equation = parse("(a+b)/c");
    a.replace_variable("c".to_string(), "4".to_string());
    assert_eq!(a, parse("(a+b)/4"));
}

#[test]
fn equations_test_compare_structure() {
    let a: Equation = parse("(a+b)/c");
    let b: Equation = parse("(a+b)/c");
    assert!(a.compare_structure(b));
    let b: Equation = parse("(a+b)/d");
    assert!(a.compare_structure(b));
    let b: Equation = parse("(a*b)/d");
    assert!(!a.compare_structure(b));
}

#[test]
fn test_basic_simplification() {
    let mut a: Equation = parse("(a+0)/c");
    a.simplify();
    assert_eq!(a, parse("a/c"));

    let mut a: Equation = parse("(a-0)/c");
    a.simplify();
    assert_eq!(a, parse("a/c"));

    let mut a: Equation = parse("(0+1)/c");
    a.simplify();
    assert_eq!(a, parse("1/c"));

    let mut a: Equation = parse("(0-1)/c");
    a.simplify();
    assert_eq!(a, parse("{-1}/c"));

    let mut a: Equation = Equation {
        root: Operator::Add,
        left: Some(Box::new(Equation {
            root: Operator::Divide,
            left: leaf(Operator::Variable("{v_1}".to_string())),
            right: leaf(Operator::Value(Number::integer(2))),
        })),
        right: leaf(Operator::Value(Number::integer(0))),
    };
    a.simplify();
    assert_eq!(a, parse("{v_1}/2"));

    let mut a: Equation = parse("0*{v_1}");
    a.simplify();
    assert_eq!(a, parse("0"));

    let mut a: Equation = Equation {
        root: Operator::Subtract,
        left: None,
        right: Some(Box::new(Equation {
            root: Operator::Divide,
            left: Some(Box::new(Equation {
                root: Operator::Multiply,
                left: leaf(Operator::Variable("{v_1}".to_string())),
                right: leaf(Operator::Value(Number::integer(0))),
            })),
            right: leaf(Operator::Value(Number::integer(2))),
        })),
    };
    a.simplify();
    assert_eq!(a, parse("0"));

    let mut a: Equation = parse("-(a)");
    a.simplify();
    assert_eq!(a, parse("{-1}*a"));

    let mut a: Equation = parse("-(({v_1}-0)/2)");
    a.simplify();
    assert_eq!(a, parse("{-1}*({v_1}/{2.0}) "));
}

#[test]
fn simplifying_twice_changes_nothing_more() {
    for text in ["(a+0)/c", "-(({v_1}-0)/2)", "(1+2)*(x-0)", "a*1+0*b", "-(a)"] {
        let mut once = parse(text);
        let first = once.simplify();
        let mut twice = first.duplicate();
        let second = twice.simplify();
        assert_eq!(first, second);
        assert_eq!(first.equation_repr(), second.equation_repr());
    }
}

#[test]
fn simplify_returns_the_new_value() {
    let mut a = parse("(2+3)*x");
    let r = a.simplify();
    assert_eq!(r, parse("5*x"));
    assert_eq!(a, r);
    assert!(a.malleable());
}

#[test]
fn simplifying_a_list_simplifies_each() {
    let mut v: Vec<Equation> = vec![parse("x*1"), parse("4/2")];
    let r = v.simplify();
    assert_eq!(r, vec![parse("x"), parse("2")]);
    assert_eq!(v, r);
}

#[test]
fn summations_are_collected_right_first() {
    let a = parse("a+b-c");
    let terms = a.collect_summations();
    assert_eq!(terms.len(), 3);
    assert_eq!(terms[0], parse("{-1}*c"));
    assert_eq!(terms[1], parse("b"));
    assert_eq!(terms[2], parse("a"));
    assert!(a.is_summation());
    assert!(!parse("a*b").is_summation());
}

#[test]
fn rendering_wraps_compound_operands() {
    assert_eq!(parse("a*(b+c)").equation_repr(), "a*(b+c)");
    assert_eq!(parse("(a+b)*c").equation_repr(), "(a+b)*c");
    assert_eq!(parse("A+B*C-D").equation_repr(), "(A+(B*C))-D");
    assert!(parse("x").leaf());
}

#[test]
fn variables_are_listed_once() {
    let a: Equation = parse("(a+b)/a");
    assert_eq!(a.get_variables(), vec!["a".to_string(), "b".to_string()]);
    let a: Equation = parse("(x*2)+(2*y)");
    assert_eq!(a.get_variables(), vec!["x".to_string(), "2".to_string(), "y".to_string()]);
}

#[test]
fn compound_renderings_read_back_as_the_same_tree() {
    for text in ["a*(b+c)", "(a+b)*c", "a/(b-c)", "(A+(B*C))-D"] {
        let tree = parse(text);
        assert_eq!(tree.equation_repr(), text);
        assert_eq!(parse(&tree.equation_repr()), tree);
    }
}
