use expression_engine::math::EquationRepr;
use expression_engine::number::Number;
use expression_engine::operations::Operation;
use expression_engine::operations::Operation::{Divide, Equal, Mapping, Multiply, Negate, Sum, Text, Value, Variable};

fn t(s: &str) -> Operation {
    Text(s.to_string())
}

fn v(n: i64) -> Operation {
    Value(Number::integer(n))
}

fn b(o: Operation) -> Option<Box<Operation>> {
    Some(Box::new(o))
}

#[test]
fn test_multiplication_simplification() {
    let a: Operation = Multiply(vec![v(2), v(3)]);
    assert_eq!(a.simplify(), Some(v(6)));

    let a: Operation = Multiply(vec![v(2), v(3), v(4)]);
    assert_eq!(a.simplify(), Some(v(24)));

    let a: Operation = Multiply(vec![v(2), v(3), t("x")]);
    assert_eq!(a.simplify(), Some(Multiply(vec![v(6), t("x")])));

    let a: Operation = Multiply(vec![v(3), v(2), t("x"), t("y")]);
    assert_eq!(a.simplify(), Some(Multiply(vec![v(6), t("x"), t("y")])));
}

#[test]
fn test_negation_simplification() {
    let a: Operation = Negate(b(v(2)));
    assert_eq!(a.simplify(), Some(v(-2)));

    let a: Operation = Negate(b(Negate(b(v(2)))));
    assert_eq!(a.simplify(), Some(v(2)));

    let a: Operation = Negate(b(Multiply(vec![v(2), v(3)])));
    assert_eq!(a.simplify(), Some(v(-6)));

    let a: Operation = Negate(b(Multiply(vec![v(2)])));
    assert_eq!(a.simplify(), Some(v(-2)));
}

#[test]
fn negation_distributes_over_a_sum() {
    let a: Operation = Negate(b(Sum(vec![t("a"), t("b")])));
    assert_eq!(a.simplify(), Some(Sum(vec![Negate(b(t("a"))), Negate(b(t("b")))])));
}

#[test]
fn test_division_simplification() {
    let a: Operation = Divide(b(v(2)), b(v(3)));
    assert_eq!(a.simplify(), Some(Value(Number::ratio(2, 3))));

    let a: Operation = Divide(b(t("x")), b(v(3)));
    assert_eq!(a.simplify(), Some(Divide(b(t("x")), b(v(3)))));

    let a: Operation = Divide(b(v(2)), b(t("x")));
    assert_eq!(a.simplify(), Some(Divide(b(v(2)), b(t("x")))));

    // There is no simplification for x/y thus return None
    let a: Operation = Divide(b(t("x")), b(t("y")));
    assert_eq!(a.simplify(), None);

    let a: Operation = Divide(b(Negate(b(Multiply(vec![v(2), v(3)])))), b(t("x")));
    assert_eq!(a.simplify(), Some(Divide(b(v(-6)), b(t("x")))));

    let a: Operation = Divide(b(Negate(b(Multiply(vec![v(2), v(3)])))), b(Negate(b(v(2)))));
    assert_eq!(a.simplify(), Some(v(3)));

    let a: Operation = Divide(b(Negate(b(Multiply(vec![t("x"), v(2)])))), b(Negate(b(v(2)))));
    assert_eq!(
        a.simplify(),
        Some(Divide(b(Negate(b(Multiply(vec![t("x"), v(2)])))), b(v(-2))))
    );
}

#[test]
fn test_summation_simplification() {
    let a: Operation = Sum(vec![v(2), v(3)]);
    assert_eq!(a.simplify(), Some(v(5)));

    let a: Operation = Sum(vec![v(2), v(3), v(4)]);
    assert_eq!(a.simplify(), Some(v(9)));

    let a: Operation = Sum(vec![v(2), v(3), t("x")]);
    assert_eq!(a.simplify(), Some(Sum(vec![v(5), t("x")])));

    let a: Operation = Sum(vec![v(2), v(3), t("x"), t("y")]);
    assert_eq!(a.simplify(), Some(Sum(vec![v(5), t("x"), t("y")])));

    let a: Operation = Sum(vec![v(2), v(3), t("x"), t("y"), v(4)]);
    assert_eq!(a.simplify(), Some(Sum(vec![v(9), t("x"), t("y")])));

    let a: Operation = Sum(vec![v(0), t("x"), t("y")]);
    assert_eq!(a.simplify(), Some(Sum(vec![t("x"), t("y")])));

    let a: Operation = Sum(vec![v(0), t("x")]);
    assert_eq!(a.simplify(), Some(t("x")));
}

#[test]
fn nested_sums_are_flattened_one_level() {
    let a: Operation = Sum(vec![Sum(vec![t("a"), t("b")]), t("c")]);
    assert_eq!(a.simplify(), Some(Sum(vec![t("a"), t("b"), t("c")])));
}

#[test]
fn equation_sides_simplify_independently() {
    let a: Operation = Equal(b(Sum(vec![v(1), v(2)])), b(t("x")));
    assert_eq!(a.simplify().unwrap().equation_repr(), "3 = x");
    let a: Operation = Equal(b(t("y")), b(t("x")));
    assert!(a.simplify().is_none());
}

#[test]
fn test_get_coefficient() {
    let a: Operation = Divide(b(t("x")), b(v(3)));
    assert_eq!(a.get_coefficient(), Some(Number::ratio(1, 3)));

    let a: Operation = Divide(b(v(2)), b(t("x")));
    assert_eq!(a.get_coefficient(), Some(Number::integer(2)));

    let a: Operation = Divide(b(Negate(b(Multiply(vec![v(2), v(3)])))), b(t("x")));
    assert_eq!(a.get_coefficient(), Some(Number::integer(-6)));

    let a: Operation = Multiply(vec![v(2), v(3), t("x")]);
    assert_eq!(a.get_coefficient(), Some(Number::integer(6)));
}

#[test]
fn text_rendering() {
    let a: Operation = Divide(b(Sum(vec![t("a"), t("b")])), b(t("c")));
    assert_eq!(a.equation_repr(), "{a + b}/c");
    let a: Operation = Multiply(vec![v(2), t("x")]);
    assert_eq!(a.equation_repr(), "2 * x");
    let a: Operation = Negate(b(Negate(b(t("x")))));
    assert_eq!(a.equation_repr(), "x");
    assert_eq!(Negate(b(t("x"))).equation_repr(), "-x");
    assert_eq!(Mapping(3).equation_repr(), "Map(3)");
    assert_eq!(Value(Number::ratio(2, 3)).equation_repr(), "0.667");
}

#[test]
fn latex_rendering() {
    let a: Operation = Sum(vec![t("a"), Negate(b(t("b"))), Multiply(vec![v(2), t("c")])]);
    assert_eq!(a.latex_string(), "{$a$ - $b$ + {2 \\cdot $c$}}");
    let a: Operation = Divide(b(t("x")), b(v(2)));
    assert_eq!(a.latex_string(), "\\frac{$x$}{2}");
    assert_eq!(Negate(b(t("x"))).latex_string(), "-{$x$}");
    assert_eq!(Negate(None).latex_string(), "$Not implemented$");
}

#[test]
fn values_of_terms() {
    let a: Operation = Sum(vec![v(2), Multiply(vec![v(3), t("x")]), Negate(b(v(1)))]);
    assert_eq!(a.value(), Number::integer(4));
    let a: Operation = Divide(b(v(1)), b(v(0)));
    assert!(!a.value().is_defined_value());
}

fn bound(name: &str, value: Number) -> Operation {
    Variable(EquationRepr::new(name.to_string(), value))
}

#[test]
fn bound_leaves_are_listed_once() {
    let a: Operation = Sum(vec![bound("r", Number::integer(2)), Divide(b(bound("s", Number::nan())), b(bound("r", Number::integer(2))))]);
    let vars = a.get_variables();
    assert_eq!(vars.len(), 2);
    assert_eq!(vars[0].equation_repr(), "r");
    assert_eq!(vars[1].equation_repr(), "s");
    assert!(a.contains_variable(bound("s", Number::nan())));
    assert!(!a.contains_variable(t("q")));
}

#[test]
fn bound_values_are_applied() {
    let mut a: Operation = Sum(vec![bound("r", Number::integer(2)), bound("s", Number::nan())]);
    a.apply_variables();
    assert_eq!(a.equation_repr(), "2 + s");
    assert!(bound("z", Number::integer(0)).is_zero());
    assert!(Operation::zero().is_zero());
    assert!(!t("z").is_zero());
}

#[test]
fn cleanup_removes_double_negation() {
    let mut a: Operation = Sum(vec![Negate(b(Negate(b(t("a"))))), t("b")]);
    a.cleanup();
    assert_eq!(a, Sum(vec![t("a"), t("b")]));
    assert_eq!(a.print_operation_type(), "Sum");
    assert_eq!(a.index(1).equation_repr(), "b");
}

#[test]
fn passes_repeat_until_the_text_settles() {
    let a: Operation = Negate(b(Sum(vec![t("a"), v(2), v(3)])));
    let r = a.simplify_fully(10);
    assert_eq!(r, Sum(vec![Negate(b(t("a"))), v(-5)]));
    assert_eq!(r.equation_repr(), "-a + -5");
    let again = r.simplify_fully(10);
    assert_eq!(again, r);
    let m: Operation = Multiply(vec![t("x"), t("y")]);
    assert_eq!(m.simplify_fully(5).equation_repr(), "x * y * 1");
    assert_eq!(a.simplify_fully(0), a);
    assert_eq!(a.simplify_fully(1).equation_repr(), "-a + -2 + -3");
}

#[test]
fn compound_terms_survive_a_step() {
    let a: Operation = Sum(vec![t("a"), Multiply(vec![t("x"), t("y")])]);
    assert_eq!(a.simplify(), Some(Sum(vec![t("a"), Multiply(vec![t("x"), t("y"), v(1)])])));
    let a: Operation = Multiply(vec![t("a"), Sum(vec![t("x"), v(2), v(3)]), v(4)]);
    assert_eq!(a.simplify(), Some(Multiply(vec![t("a"), Sum(vec![t("x"), v(5)]), v(4)])));
    let a: Operation = Sum(vec![Multiply(vec![v(2), v(3)]), t("x")]);
    assert_eq!(a.simplify(), Some(Sum(vec![t("x"), v(6)])));
}

#[test]
fn sums_compare_as_multisets() {
    assert_eq!(Sum(vec![t("x"), t("y")]), Sum(vec![t("y"), t("x")]));
    assert_ne!(Sum(vec![t("x"), t("x"), t("y")]), Sum(vec![t("x"), t("y"), t("y")]));
    assert_ne!(Multiply(vec![t("x"), t("y")]), Multiply(vec![t("x")]));
    assert_eq!(Multiply(vec![v(2), t("x"), v(2)]), Multiply(vec![t("x"), v(2), v(2)]));
    assert_ne!(Sum(vec![Value(Number::nan())]), Sum(vec![Value(Number::nan())]));
}

#[test]
fn equations_inside_terms_are_simplified_too() {
    let a: Operation = Negate(b(Equal(b(Sum(vec![v(1), v(1)])), b(t("x")))));
    assert_eq!(a.simplify().unwrap().equation_repr(), "-2 = x");
    assert!(a.is_complete());
    assert!(!Negate(None).is_complete());
}
