use expression_engine::mappings::{create_mapping_index, expand, expansions, apply_mapping};
use expression_engine::number::Number;
use expression_engine::operations::Operation;
use expression_engine::operations::Operation::{Divide, Mapping, Multiply, Negate, Sum, Text, Value};

fn t(s: &str) -> Operation {
    Text(s.to_string())
}

fn v(n: i64) -> Operation {
    Value(Number::integer(n))
}

fn b(o: Operation) -> Option<Box<Operation>> {
    Some(Box::new(o))
}

#[test]
fn test_mapping() {
    let a: Operation = Divide(b(Sum(vec![Mapping(0), Mapping(1)])), b(Mapping(4)));
    let r: Operation = Sum(vec![Divide(b(Mapping(0)), b(Mapping(4))), Divide(b(Mapping(1)), b(Mapping(4)))]);
    assert_eq!(expand(a), Ok(r));

    let a: Operation = Divide(b(Sum(vec![t("x"), t("y")])), b(t("z")));
    let r: Operation = Sum(vec![Divide(b(t("x")), b(t("z"))), Divide(b(t("y")), b(t("z")))]);
    assert_eq!(expand(a), Ok(r));

    let a: Operation = Divide(b(Sum(vec![t("x"), t("y")])), b(v(8)));
    let r: Operation = Sum(vec![Divide(b(t("x")), b(v(8))), Divide(b(t("y")), b(v(8)))]);
    assert_eq!(expand(a), Ok(r));

    let a: Operation = Divide(b(Sum(vec![t("x"), t("y"), t("z")])), b(v(8)));
    let r: Operation = Sum(vec![
        Divide(b(t("x")), b(v(8))),
        Divide(b(t("y")), b(v(8))),
        Divide(b(t("z")), b(v(8))),
    ]);
    assert_eq!(expand(a), Ok(r));

    let a: Operation = Divide(b(Sum(vec![Negate(b(t("x"))), Negate(b(t("y"))), Negate(b(t("z")))])), b(v(8)));
    let r: Operation = Sum(vec![
        Divide(b(Negate(b(t("x")))), b(v(8))),
        Divide(b(Negate(b(t("y")))), b(v(8))),
        Divide(b(Negate(b(t("z")))), b(v(8))),
    ]);
    assert_eq!(expand(a), Ok(r));

    let a: Operation = Negate(b(Divide(b(Sum(vec![t("N1"), Negate(b(t("N2")))])), b(t("R2")))));
    let r: Operation = Negate(b(Sum(vec![
        Divide(b(t("N1")), b(t("R2"))),
        Divide(b(Negate(b(t("N2")))), b(t("R2"))),
    ])));
    assert_eq!(expand(a), Ok(r));
}

#[test]
fn expand_without_a_matching_rule_returns_the_input() {
    let a: Operation = Divide(b(t("x")), b(t("y")));
    let r = expand(a.clone());
    assert!(r.is_err());
    let back = r.unwrap_err();
    assert_eq!(back, a);
    assert_eq!(back.equation_repr(), "x/y");
}

#[test]
fn test_create_mapping_index() {
    let a: Operation = Divide(b(Sum(vec![Mapping(0), Mapping(1)])), b(Mapping(2)));
    let r: Vec<Operation> = vec![Mapping(0), Mapping(1), Mapping(2)];
    assert_eq!(create_mapping_index(&a), r);

    let a: Operation = Divide(b(Sum(vec![t("x"), t("y")])), b(t("z")));
    let r: Vec<Operation> = vec![t("x"), t("y"), t("z")];
    assert_eq!(create_mapping_index(&a), r);

    let a: Operation = Divide(b(Sum(vec![t("x"), t("y")])), b(v(1)));
    let r: Vec<Operation> = vec![t("x"), t("y"), v(1)];
    assert_eq!(create_mapping_index(&a), r);

    let a: Operation = Multiply(vec![t("x"), t("y")]);
    let r: Vec<Operation> = vec![t("x"), t("y")];
    assert_eq!(create_mapping_index(&a), r);
}

#[test]
fn substitution_fills_wildcards_and_neutralises_constants() {
    let template = Sum(vec![Mapping(1), v(5), Mapping(7)]);
    let filled = apply_mapping(&template, &vec![t("a"), t("b")]);
    assert_eq!(filled, Sum(vec![t("b"), v(0), v(0)]));
    assert_eq!(expansions().len(), 2);
}

#[test]
fn mappings_test_compare_structure() {
    let a: Operation = Divide(b(Sum(vec![Mapping(0), Mapping(1)])), b(Mapping(2)));
    let c: Operation = Divide(b(Sum(vec![Mapping(0), Mapping(1)])), b(Mapping(2)));
    assert!(a.compare_structure(&c));

    let c: Operation = Divide(b(Sum(vec![t("x"), t("y")])), b(t("z")));
    assert!(a.compare_structure(&c));

    let c: Operation = Divide(b(Sum(vec![t("x"), t("y")])), b(v(1)));
    assert!(a.compare_structure(&c));

    let c: Operation = Divide(b(Multiply(vec![t("x"), t("y")])), b(v(2)));
    assert!(!a.compare_structure(&c));

    let a: Operation = Multiply(vec![t("x"), t("y")]);
    let c: Operation = Multiply(vec![t("x"), t("y"), t("z")]);
    assert!(!a.compare_structure(&c));

    let a: Operation = Negate(b(Divide(b(t("x")), b(t("y")))));
    let c: Operation = Divide(b(Sum(vec![Mapping(0), Mapping(1)])), b(Mapping(2)));
    assert!(!a.compare_structure(&c));

    let a: Operation = Divide(b(Sum(vec![Negate(b(t("x"))), Negate(b(t("y"))), Negate(b(t("z")))])), b(v(8)));
    let c: Operation = Divide(b(Sum(vec![Mapping(0), Mapping(1), Mapping(2)])), b(Mapping(3)));
    assert!(a.compare_structure(&c));
}

#[test]
fn leaves_match_in_either_direction_but_are_not_equal() {
    let x = t("x");
    let n = v(3);
    assert!(x.compare_structure(&n));
    assert!(n.compare_structure(&x));
    assert_ne!(x, n);
    assert!(x.matches(&n));
}

#[test]
fn depth_bound_limits_the_comparison() {
    let a: Operation = Divide(b(Sum(vec![t("x"), t("y")])), b(t("z")));
    let c: Operation = Divide(b(Multiply(vec![t("x"), t("y")])), b(t("z")));
    assert!(!a.compare_structure(&c));
    assert!(a.compare_structure_within(&c, 1));
    assert!(!a.compare_structure_within(&c, 2));
    assert!(a.compare_structure_within(&c, 0));
}

#[test]
fn substitution_reaches_inside_negations() {
    let template = Negate(b(Sum(vec![Negate(b(Mapping(0))), Mapping(1)])));
    let filled = apply_mapping(&template, &vec![t("a"), t("b")]);
    assert_eq!(filled, Negate(b(Sum(vec![Negate(b(t("a"))), t("b")]))));
    let filled = apply_mapping(&Negate(b(t("q"))), &vec![t("a")]);
    assert_eq!(filled, Negate(b(v(0))));
}
