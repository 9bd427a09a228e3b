use expression_engine::matrix::{matrix_to_latex, ExprMatrix};
use expression_engine::number::Number;
use expression_engine::operations::Operation;

fn t(s: &str) -> Operation {
    Operation::Text(s.to_string())
}

#[test]
fn matrix_latex_lists_rows_and_columns() {
    let rows = vec![
        vec![t("a"), Operation::Value(Number::integer(2))],
        vec![Operation::Negate(Some(Box::new(t("b")))), t("c")],
    ];
    let m = ExprMatrix::from_rows(rows).unwrap();
    assert_eq!(
        matrix_to_latex(m),
        "\\begin{bmatrix}$a$ & 2\\\\-{$b$} & $c$\\\\\\end{bmatrix}"
    );
}

#[test]
fn single_column_and_empty_matrices() {
    let m = ExprMatrix::from_rows(vec![vec![t("x")], vec![t("y")]]).unwrap();
    assert_eq!(matrix_to_latex(m), "\\begin{bmatrix}$x$\\\\$y$\\\\\\end{bmatrix}");
    let m = ExprMatrix::from_rows(Vec::new()).unwrap();
    assert_eq!(matrix_to_latex(m), "\\begin{bmatrix}\\end{bmatrix}");
}

#[test]
fn ragged_rows_are_refused() {
    assert!(ExprMatrix::from_rows(vec![vec![t("x"), t("y")], vec![t("z")]]).is_none());
}
