use expression_engine::math::EquationRepr;
use expression_engine::number::Number;
use expression_engine::operations::Operation;

#[test]
fn test() {}

#[test]
fn bound_leaf_renders_its_own_text() {
    let v = EquationRepr::new_with_latex("R1".to_string(), "R_1".to_string(), Number::integer(4));
    assert_eq!(v.equation_repr(), "R1");
    assert_eq!(v.latex_string(), "R_1");
    let plain = EquationRepr::new("k".to_string(), Number::nan());
    assert_eq!(plain.latex_string(), "k");
    let op = Operation::Variable(v);
    assert_eq!(op.latex_string(), "R_1");
    assert_eq!(op.equation_repr(), "R1");
}

#[test]
fn number_text_is_rounded_to_three_places() {
    assert_eq!(Number::ratio(2, 3).to_text(), "0.667");
    assert_eq!(Number::ratio(-3, 2).to_text(), "-1.5");
    assert_eq!(Number::integer(24).to_text(), "24");
    assert_eq!(Number::ratio(1, 2000).to_text(), "0.001");
    assert_eq!(Number::ratio(1, 0).to_text(), "NaN");
}

#[test]
fn number_literals() {
    assert_eq!(Number::parse("2.0"), Some(Number::integer(2)));
    assert_eq!(Number::parse("-1"), Some(Number::integer(-1)));
    assert_eq!(Number::parse("+.5"), Some(Number::ratio(1, 2)));
    assert_eq!(Number::parse("x"), None);
    assert_eq!(Number::parse("1.2.3"), None);
    assert_eq!(Number::parse("-"), None);
    assert_eq!(Number::parse("1e3"), Some(Number::integer(1000)));
    assert_eq!(Number::parse("2.5E-2"), Some(Number::ratio(1, 40)));
    assert_eq!(Number::parse("-4e+1"), Some(Number::integer(-40)));
    assert_eq!(Number::parse("e3"), None);
    assert_eq!(Number::parse("1e"), None);
    assert_eq!(Number::parse("1e99"), None);
    assert_eq!(Number::parse("9e18"), Some(Number::integer(9_000_000_000_000_000_000)));
    assert!(!Number::parse("90e18").unwrap().is_defined_value());
}

#[test]
fn number_arithmetic() {
    let a = Number::ratio(1, 3);
    let b = Number::ratio(1, 6);
    assert_eq!(a.add(&b), Number::ratio(1, 2));
    assert_eq!(a.sub(&b), Number::ratio(1, 6));
    assert_eq!(a.mul(&b), Number::ratio(1, 18));
    assert_eq!(a.div(&b), Number::integer(2));
    assert!(!a.div(&Number::integer(0)).is_defined_value());
    assert_eq!(a.neg(), Number::ratio(-1, 3));
}
