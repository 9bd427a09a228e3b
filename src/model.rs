use vstd::prelude::*;
use crate::number::{Number, undefined, decimal_digits};

verus! {

/// The mathematical model of an `Operation`: the same tree, with text as
/// character sequences and child lists as sequences.
pub enum Expr {
    Multiply(Seq<Expr>),
    Negate(Option<Box<Expr>>),
    Divide(Option<Box<Expr>>, Option<Box<Expr>>),
    Sum(Seq<Expr>),
    Value(Number),
    Text(Seq<char>),
    Mapping(usize),
    Equal(Option<Box<Expr>>, Option<Box<Expr>>),
    /// A bound leaf: its text, its LaTeX text and its value.
    Variable(Seq<char>, Seq<char>, Number),
}

pub open spec fn one() -> Number {
    Number { num: 1, den: 1 }
}

pub open spec fn zero() -> Number {
    Number { num: 0, den: 1 }
}

/// The first `n` terms are complete.
pub open spec fn all_complete(l: Seq<Expr>, n: int) -> bool
    decreases l, n,
{
    if n <= 0 || n > l.len() {
        true
    } else {
        all_complete(l, n - 1) && complete(l[n - 1])
    }
}

pub proof fn lemma_all_complete(l: Seq<Expr>, n: int)
    requires
        0 <= n <= l.len(),
    ensures
        all_complete(l, n) <==> forall|j: int| 0 <= j < n ==> complete(#[trigger] l[j]),
    decreases n,
{
    if n > 0 {
        lemma_all_complete(l, n - 1);
    }
}

/// Every optional child is present, at every depth.
pub open spec fn complete(e: Expr) -> bool
    decreases e, 0int,
{
    match e {
        Expr::Multiply(l) => all_complete(l, l.len() as int),
        Expr::Sum(l) => all_complete(l, l.len() as int),
        Expr::Negate(Some(a)) => complete(*a),
        Expr::Divide(Some(a), Some(b)) => complete(*a) && complete(*b),
        Expr::Equal(Some(a), Some(b)) => complete(*a) && complete(*b),
        Expr::Negate(None) => false,
        Expr::Divide(_, _) => false,
        Expr::Equal(_, _) => false,
        _ => true,
    }
}

/// The product of the values of the first `n` terms, starting from one.
pub open spec fn product_of(l: Seq<Expr>, n: int) -> Number
    decreases l, n,
{
    if n <= 0 || n > l.len() {
        one()
    } else {
        product_of(l, n - 1).product_spec(value_of(l[n - 1]))
    }
}

/// The sum of the values of the first `n` terms, starting from zero.
pub open spec fn sum_of(l: Seq<Expr>, n: int) -> Number
    decreases l, n,
{
    if n <= 0 || n > l.len() {
        zero()
    } else {
        sum_of(l, n - 1).sum_spec(value_of(l[n - 1]))
    }
}

/// The numeric value of a term: wildcards and symbols count as one, a bound
/// leaf as its own value.
pub open spec fn value_of(e: Expr) -> Number
    decreases e, 0int,
{
    match e {
        Expr::Multiply(l) => product_of(l, l.len() as int),
        Expr::Sum(l) => sum_of(l, l.len() as int),
        Expr::Negate(Some(a)) => value_of(*a).negation_spec(),
        Expr::Divide(Some(a), Some(b)) => value_of(*a).quotient_spec(value_of(*b)),
        Expr::Value(n) => n,
        Expr::Mapping(_) => one(),
        Expr::Text(_) => one(),
        Expr::Variable(_, _, v) => v,
        _ => undefined(),
    }
}

/// Wraps `s` in braces when `e` is a sum or product of more than one term.
pub open spec fn braced_if_compound(e: Expr, s: Seq<char>) -> Seq<char> {
    match e {
        Expr::Multiply(l) => if l.len() > 1 { seq!['{'] + s + seq!['}'] } else { s },
        Expr::Sum(l) => if l.len() > 1 { seq!['{'] + s + seq!['}'] } else { s },
        _ => s,
    }
}

/// The text of a wildcard: `Map(i)`.
pub open spec fn mapping_text(i: usize) -> Seq<char> {
    map_open() + decimal_digits(i as nat) + seq![')']
}

pub open spec fn map_open() -> Seq<char> {
    seq!['M', 'a', 'p', '(']
}

pub open spec fn times_sep() -> Seq<char> {
    seq![' ', '*', ' ']
}

pub open spec fn plus_sep() -> Seq<char> {
    seq![' ', '+', ' ']
}

pub open spec fn minus_sep() -> Seq<char> {
    seq![' ', '-', ' ']
}

pub open spec fn equals_sep() -> Seq<char> {
    seq![' ', '=', ' ']
}

pub open spec fn cdot_sep() -> Seq<char> {
    seq![' ', '\\', 'c', 'd', 'o', 't', ' ']
}

pub open spec fn frac_open() -> Seq<char> {
    seq!['\\', 'f', 'r', 'a', 'c', '{']
}

pub open spec fn not_implemented() -> Seq<char> {
    seq!['$', 'N', 'o', 't', ' ', 'i', 'm', 'p', 'l', 'e', 'm', 'e', 'n', 't', 'e', 'd', '$']
}


/// The texts of the first `n` terms, each followed by `sep` but the last
/// term of the list.
pub open spec fn joined_repr(l: Seq<Expr>, n: int, sep: Seq<char>) -> Seq<char>
    decreases l, n,
{
    if n <= 0 || n > l.len() {
        seq![]
    } else {
        joined_repr(l, n - 1, sep) + repr_of(l[n - 1]) + (if n < l.len() { sep } else { seq![] })
    }
}

/// The plain-text rendering.
pub open spec fn repr_of(e: Expr) -> Seq<char>
    decreases e, 0int,
{
    match e {
        Expr::Multiply(l) => joined_repr(l, l.len() as int, times_sep()),
        Expr::Negate(Some(a)) => match *a {
            Expr::Negate(Some(x)) => repr_of(*x),
            _ => seq!['-'] + repr_of(*a),
        },
        Expr::Divide(Some(a), Some(b)) => braced_if_compound(*a, repr_of(*a)) + seq!['/']
            + braced_if_compound(*b, repr_of(*b)),
        Expr::Sum(l) => joined_repr(l, l.len() as int, plus_sep()),
        Expr::Value(n) => n.text_spec(),
        Expr::Mapping(i) => mapping_text(i),
        Expr::Text(s) => s,
        Expr::Equal(Some(a), Some(b)) => repr_of(*a) + equals_sep() + repr_of(*b),
        Expr::Variable(s, _, _) => s,
        _ => seq![],
    }
}

/// The LaTeX texts of the first `n` terms, each followed by `sep` but the
/// last term of the list.
pub open spec fn joined_latex(l: Seq<Expr>, n: int, sep: Seq<char>) -> Seq<char>
    decreases l, n,
{
    if n <= 0 || n > l.len() {
        seq![]
    } else {
        joined_latex(l, n - 1, sep) + latex_of(l[n - 1]) + (if n < l.len() { sep } else { seq![] })
    }
}

/// A sum or a product.
pub open spec fn is_compound(e: Expr) -> bool {
    e is Sum || e is Multiply
}

/// The LaTeX of term `i` of a sum, with the operator that follows it: a
/// negated term after the first is written without its sign, which the
/// operator before it carries.
pub open spec fn sum_term_latex(l: Seq<Expr>, i: int) -> Seq<char>
    decreases l, i,
{
    if 0 <= i < l.len() {
        let x = l[i];
        let body = match x {
            Expr::Negate(Some(a)) => if i != 0 { latex_of(*a) } else { latex_of(x) },
            _ => latex_of(x),
        };
        let sep = if i != l.len() - 1 {
            if l[i + 1] is Negate { minus_sep() } else { plus_sep() }
        } else {
            seq![]
        };
        (if is_compound(x) { seq!['{'] } else { seq![] }) + body + sep + (if is_compound(x) {
            seq!['}']
        } else {
            seq![]
        })
    } else {
        seq![]
    }
}

/// The LaTeX of the first `n` terms of a sum.
pub open spec fn sum_terms_latex(l: Seq<Expr>, n: int) -> Seq<char>
    decreases l, n,
{
    if n <= 0 || n > l.len() {
        seq![]
    } else {
        sum_terms_latex(l, n - 1) + sum_term_latex(l, n - 1)
    }
}

/// The LaTeX rendering.
pub open spec fn latex_of(e: Expr) -> Seq<char>
    decreases e, 0int,
{
    match e {
        Expr::Multiply(l) => joined_latex(l, l.len() as int, cdot_sep()),
        Expr::Negate(Some(a)) => seq!['-', '{'] + latex_of(*a) + seq!['}'],
        Expr::Sum(l) => seq!['{'] + sum_terms_latex(l, l.len() as int) + seq!['}'],
        Expr::Divide(Some(a), Some(b)) => frac_open() + latex_of(*a) + seq!['}', '{'] + latex_of(*b) + seq!['}'],
        Expr::Equal(Some(a), Some(b)) => latex_of(*a) + equals_sep() + latex_of(*b),
        Expr::Value(n) => n.text_spec(),
        Expr::Mapping(i) => mapping_text(i),
        Expr::Variable(_, l, _) => l,
        Expr::Text(s) => seq!['$'] + s + seq!['$'],
        _ => not_implemented(),
    }
}

/// Folds the first `n` terms of a product: the coefficient gathered from
/// the numbers (and from terms that simplify to numbers), and the other
/// terms, simplified where they simplify.
pub open spec fn product_fold(l: Seq<Expr>, n: int) -> (Number, Seq<Expr>)
    decreases l, n,
{
    if n <= 0 || n > l.len() {
        (one(), seq![])
    } else {
        let (c, r) = product_fold(l, n - 1);
        let x = l[n - 1];
        match x {
            Expr::Value(a) => (c.product_spec(a), r),
            Expr::Mapping(_) => (c, r.push(x)),
            Expr::Text(_) => (c, r.push(x)),
            _ => match simplify_of(x) {
                Some(Expr::Value(a)) => (c.product_spec(a), r),
                Some(y) => (c, r.push(y)),
                None => (c, r.push(x)),
            },
        }
    }
}

/// Folds the first `n` terms of a sum: the total gathered from the numbers
/// (and from terms that simplify to numbers), and the other terms,
/// simplified where they simplify, nested sums flattened by one level.
pub open spec fn sum_fold(l: Seq<Expr>, n: int) -> (Number, Seq<Expr>)
    decreases l, n,
{
    if n <= 0 || n > l.len() {
        (zero(), seq![])
    } else {
        let (t, r) = sum_fold(l, n - 1);
        let x = l[n - 1];
        match x {
            Expr::Value(a) => (t.sum_spec(a), r),
            Expr::Mapping(_) => (t, r.push(x)),
            Expr::Text(_) => (t, r.push(x)),
            Expr::Variable(_, _, _) => (t, r.push(x)),
            Expr::Sum(v) => (t, r + v),
            _ => match simplify_of(x) {
                Some(Expr::Value(a)) => (t.sum_spec(a), r),
                Some(y) => (t, r.push(y)),
                None => (t, r.push(x)),
            },
        }
    }
}

/// Each term of `v` negated.
pub open spec fn negated_terms(v: Seq<Expr>) -> Seq<Expr> {
    Seq::new(v.len(), |i: int| Expr::Negate(Some(Box::new(v[i]))))
}

/// One simplification step, applied bottom-up; `None` when nothing is to be
/// done.
pub open spec fn simplify_of(e: Expr) -> Option<Expr>
    decreases e, 0int,
{
    match e {
        Expr::Multiply(l) => {
            let (c, r) = product_fold(l, l.len() as int);
            let terms = r.push(Expr::Value(c));
            if terms.len() == 1 {
                Some(terms[0])
            } else {
                Some(Expr::Multiply(terms))
            }
        },
        Expr::Sum(l) => {
            let (t, r) = sum_fold(l, l.len() as int);
            let terms = if t.is_zero_spec() { r } else { r.push(Expr::Value(t)) };
            if terms.len() == 1 {
                Some(terms[0])
            } else {
                Some(Expr::Sum(terms))
            }
        },
        Expr::Negate(Some(a)) => match *a {
            Expr::Negate(Some(x)) => Some(*x),
            Expr::Negate(None) => None,
            Expr::Value(n) => Some(Expr::Value(n.negation_spec())),
            Expr::Sum(v) => Some(Expr::Sum(negated_terms(v))),
            _ => match simplify_of(*a) {
                None => None,
                Some(Expr::Value(n)) => Some(Expr::Value(n.negation_spec())),
                Some(Expr::Negate(Some(x))) => Some(*x),
                Some(y) => Some(Expr::Negate(Some(Box::new(y)))),
            },
        },
        Expr::Divide(Some(n), Some(d)) => {
            let sn = simplify_of(*n);
            let sd = simplify_of(*d);
            if sn matches Some(Expr::Value(_)) && sd matches Some(Expr::Value(_)) {
                Some(Expr::Value(sn->0->Value_0.quotient_spec(sd->0->Value_0)))
            } else if sn is None && sd is None {
                None
            } else {
                Some(Expr::Divide(
                    Some(Box::new(if sn is Some { sn->0 } else { *n })),
                    Some(Box::new(if sd is Some { sd->0 } else { *d })),
                ))
            }
        },
        Expr::Equal(Some(a), Some(b)) => {
            let sa = simplify_of(*a);
            let sb = simplify_of(*b);
            if sa is None && sb is None {
                None
            } else {
                Some(Expr::Equal(
                    Some(Box::new(if sa is Some { sa->0 } else { *a })),
                    Some(Box::new(if sb is Some { sb->0 } else { *b })),
                ))
            }
        },
        Expr::Value(_) => Some(e),
        _ => None,
    }
}

} // verus!
