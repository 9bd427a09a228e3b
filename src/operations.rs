use vstd::prelude::*;
use crate::math::EquationRepr;
use crate::number::Number;
use crate::model::{Expr, lemma_all_complete, complete, value_of, product_of, sum_of, repr_of, joined_repr, latex_of, joined_latex, sum_terms_latex, sum_term_latex, braced_if_compound, mapping_text, map_open, times_sep, plus_sep, minus_sep, equals_sep, cdot_sep, frac_open, not_implemented, one};
use crate::text::{push_char, push_text, copy_text};
use vstd::string::*;

verus! {

/// An expression tree. `Sum` and `Multiply` are n-ary; subtraction is a
/// `Sum` holding a `Negate`. The optional children are absent only while a
/// tree is being assembled. `Mapping(i)` is the wildcard of rewrite patterns.
#[derive(Debug)]
pub enum Operation {
    Multiply(Vec<Operation>),
    Negate(Option<Box<Operation>>),
    Divide(Option<Box<Operation>>, Option<Box<Operation>>),
    Sum(Vec<Operation>),
    Value(Number),
    Text(String),
    Mapping(usize),
    Equal(Option<Box<Operation>>, Option<Box<Operation>>),
    Variable(EquationRepr),
}

pub open spec fn child_view(c: Option<Box<Operation>>) -> Option<Box<Expr>>
    decreases c,
{
    match c {
        Some(b) => Some(Box::new(view_of(*b))),
        None => None,
    }
}

pub open spec fn views_of(list: Seq<Operation>) -> Seq<Expr>
    decreases list,
{
    Seq::new(list.len(), |i: int| if 0 <= i < list.len() { view_of(list[i]) } else { Expr::Mapping(0) })
}

pub open spec fn view_of(op: Operation) -> Expr
    decreases op,
{
    match op {
        Operation::Multiply(list) => Expr::Multiply(views_of(list@)),
        Operation::Negate(a) => Expr::Negate(child_view(a)),
        Operation::Divide(a, b) => Expr::Divide(child_view(a), child_view(b)),
        Operation::Sum(list) => Expr::Sum(views_of(list@)),
        Operation::Value(n) => Expr::Value(n),
        Operation::Text(s) => Expr::Text(s@),
        Operation::Mapping(i) => Expr::Mapping(i),
        Operation::Equal(a, b) => Expr::Equal(child_view(a), child_view(b)),
        Operation::Variable(v) => Expr::Variable(v.string@, v.latex_spec(), v.value),
    }
}

/// The model of an optional tree.
pub open spec fn opt_view(o: Option<Operation>) -> Option<Expr> {
    match o {
        Some(x) => Some(x@),
        None => None,
    }
}

impl View for Operation {
    type V = Expr;

    open spec fn view(&self) -> Expr {
        view_of(*self)
    }
}

/// Appends the characters of a literal.
pub(crate) fn push_str(s: &mut String, t: &str)
    ensures
        final(s)@ == old(s)@ + t@,
{
    let n = t.unicode_len();
    let mut i: usize = 0;
    while i < n
        invariant
            n == t@.len(),
            i <= n,
            s@ == old(s)@ + t@.subrange(0, i as int),
        decreases n - i,
    {
        let c = t.get_char(i);
        push_char(s, c);
        i = i + 1;
        assert(t@.subrange(0, i as int) =~= t@.subrange(0, (i - 1) as int).push(c));
    }
    assert(t@.subrange(0, n as int) =~= t@);
}

pub(crate) fn copy_child(c: &Option<Box<Operation>>) -> (r: Option<Box<Operation>>)
    ensures
        child_view(*c) == child_view(r),
    decreases c,
{
    match c {
        Some(b) => Some(Box::new((**b).duplicate())),
        None => None,
    }
}

pub(crate) fn copy_list(list: &Vec<Operation>) -> (r: Vec<Operation>)
    ensures
        views_of(r@) == views_of(list@),
    decreases list,
{
    let mut out: Vec<Operation> = Vec::new();
    let mut i: usize = 0;
    while i < list.len()
        invariant
            i <= list.len(),
            out@.len() == i,
            forall|j: int| 0 <= j < i ==> (#[trigger] out@[j])@ == list@[j]@,
        decreases list.len() - i,
    {
        out.push(list[i].duplicate());
        i = i + 1;
    }
    assert(views_of(out@) =~= views_of(list@));
    out
}

impl Operation {
    /// A copy of the whole tree.
    pub fn duplicate(&self) -> (r: Operation)
        ensures
            r@ == self@,
        decreases self,
    {
        match self {
            Operation::Multiply(list) => Operation::Multiply(copy_list(list)),
            Operation::Negate(a) => Operation::Negate(copy_child(a)),
            Operation::Divide(a, b) => Operation::Divide(copy_child(a), copy_child(b)),
            Operation::Sum(list) => Operation::Sum(copy_list(list)),
            Operation::Value(n) => Operation::Value(*n),
            Operation::Text(t) => Operation::Text(copy_text(t)),
            Operation::Mapping(i) => Operation::Mapping(*i),
            Operation::Equal(a, b) => Operation::Equal(copy_child(a), copy_child(b)),
            Operation::Variable(v) => Operation::Variable(v.duplicate()),
        }
    }
}

impl Clone for Operation {
    fn clone(&self) -> (r: Operation)
        ensures
            r@ == self@,
    {
        self.duplicate()
    }
}

impl Operation {
    /// The numeric value: wildcards and symbols count as one, a bound leaf
    /// gives its own value.
    pub fn value(&self) -> (r: Number)
        requires
            complete(self@),
        ensures
            r == value_of(self@),
        decreases self,
    {
        match self {
            Operation::Multiply(list) => {
                let ghost l = views_of(list@);
                assert(self@ == Expr::Multiply(l));
                proof {
                    lemma_all_complete(l, l.len() as int);
                }
                let mut p = Number::integer(1);
                let mut i: usize = 0;
                #[verifier::loop_isolation(false)]
                while i < list.len()
                    invariant
                        i <= list.len(),
                        l == views_of(list@),
                        forall|j: int| 0 <= j < l.len() ==> complete(#[trigger] l[j]),
                        p == product_of(l, i as int),
                    decreases list.len() - i,
                {
                    assert(l[i as int] == list@[i as int]@);
                    proof {
                        assert(decreases_to!(*list => list[i as int]));
                    }
                    let v = list[i].value();
                    p = p.mul(&v);
                    i = i + 1;
                }
                p
            },
            Operation::Sum(list) => {
                let ghost l = views_of(list@);
                assert(self@ == Expr::Sum(l));
                proof {
                    lemma_all_complete(l, l.len() as int);
                }
                let mut t = Number::integer(0);
                let mut i: usize = 0;
                #[verifier::loop_isolation(false)]
                while i < list.len()
                    invariant
                        i <= list.len(),
                        l == views_of(list@),
                        forall|j: int| 0 <= j < l.len() ==> complete(#[trigger] l[j]),
                        t == sum_of(l, i as int),
                    decreases list.len() - i,
                {
                    assert(l[i as int] == list@[i as int]@);
                    proof {
                        assert(decreases_to!(*list => list[i as int]));
                    }
                    let v = list[i].value();
                    t = t.add(&v);
                    i = i + 1;
                }
                t
            },
            Operation::Negate(Some(a)) => a.value().neg(),
            Operation::Divide(Some(a), Some(b)) => {
                let x = a.value();
                let y = b.value();
                x.div(&y)
            },
            Operation::Value(n) => *n,
            Operation::Mapping(_) => Number::integer(1),
            Operation::Text(_) => Number::integer(1),
            Operation::Variable(v) => v.value,
            _ => Number::nan(),
        }
    }
}

/// Appends the renderings of the terms, `sep` between two of them.
fn push_joined_repr(s: &mut String, list: &Vec<Operation>, sep: &str)
    requires
        forall|j: int| 0 <= j < list@.len() ==> complete(#[trigger] views_of(list@)[j]),
    ensures
        final(s)@ == old(s)@ + joined_repr(views_of(list@), list@.len() as int, sep@),
    decreases list, 0int,
{
    let ghost l = views_of(list@);
    let mut i: usize = 0;
    while i < list.len()
        invariant
            i <= list.len(),
            l == views_of(list@),
            forall|j: int| 0 <= j < l.len() ==> complete(#[trigger] l[j]),
            s@ == old(s)@ + joined_repr(l, i as int, sep@),
        decreases list.len() - i,
    {
        assert(l[i as int] == list@[i as int]@);
        proof {
            assert(decreases_to!(list => list[i as int]));
        }
        let r = list[i].equation_repr();
        push_text(s, &r);
        if i != list.len() - 1 {
            push_str(s, sep);
        }
        i = i + 1;
        assert(s@ =~= old(s)@ + joined_repr(l, i as int, sep@));
    }
}

impl Operation {
    /// The plain-text rendering: `a * b`, `a + b`, `-a`, `a/b` (a sum or
    /// product of several terms braced), `a = b`, numbers to three decimals.
    pub fn equation_repr(&self) -> (r: String)
        requires
            complete(self@),
        ensures
            r@ == repr_of(self@),
        decreases self, 1int,
    {
        let mut s = String::new();
        match self {
            Operation::Multiply(list) => {
                assert(self@ == Expr::Multiply(views_of(list@)));
                proof {
                    lemma_all_complete(views_of(list@), list@.len() as int);
                }
                proof { reveal_strlit(" * "); }
                push_joined_repr(&mut s, list, " * ");
                assert(" * "@ =~= times_sep());
            },
            Operation::Sum(list) => {
                assert(self@ == Expr::Sum(views_of(list@)));
                proof {
                    lemma_all_complete(views_of(list@), list@.len() as int);
                }
                proof { reveal_strlit(" + "); }
                push_joined_repr(&mut s, list, " + ");
                assert(" + "@ =~= plus_sep());
            },
            Operation::Negate(Some(a)) => {
                match &**a {
                    Operation::Negate(Some(x)) => {
                        assert(a@ == Expr::Negate(Some(Box::new(x@))));
                        assert(self@ == Expr::Negate(Some(Box::new(a@))));
                        assert(complete(a@));
                        let t = x.equation_repr();
                        push_text(&mut s, &t);
                    },
                    _ => {
                        push_char(&mut s, '-');
                        let t = a.equation_repr();
                        push_text(&mut s, &t);
                    },
                }
            },
            Operation::Divide(Some(a), Some(b)) => {
                let n = a.equation_repr();
                a.push_braced(&mut s, &n);
                push_char(&mut s, '/');
                let d = b.equation_repr();
                b.push_braced(&mut s, &d);
            },
            Operation::Value(n) => {
                let t = n.to_text();
                push_text(&mut s, &t);
            },
            Operation::Mapping(i) => {
                push_mapping_text(&mut s, *i);
            },
            Operation::Text(t) => {
                push_text(&mut s, t);
            },
            Operation::Equal(Some(a), Some(b)) => {
                let l = a.equation_repr();
                push_text(&mut s, &l);
                proof { reveal_strlit(" = "); }
                push_str(&mut s, " = ");
                let r = b.equation_repr();
                push_text(&mut s, &r);
                assert(" = "@ =~= equals_sep());
            },
            Operation::Variable(v) => {
                push_text(&mut s, &v.string);
            },
            _ => {},
        }
        assert(s@ =~= repr_of(self@));
        s
    }

    /// Appends `t`, braced when this is a sum or product of several terms.
    fn push_braced(&self, s: &mut String, t: &String)
        ensures
            final(s)@ == old(s)@ + braced_if_compound(self@, t@),
    {
        let compound = match self {
            Operation::Multiply(l) => l.len() > 1,
            Operation::Sum(l) => l.len() > 1,
            _ => false,
        };
        if compound {
            push_char(s, '{');
        }
        push_text(s, t);
        if compound {
            push_char(s, '}');
        }
        assert(final(s)@ =~= old(s)@ + braced_if_compound(self@, t@));
    }
}

/// Appends `Map(i)`.
fn push_mapping_text(s: &mut String, i: usize)
    ensures
        final(s)@ == old(s)@ + mapping_text(i),
{
    proof { reveal_strlit("Map("); }
    push_str(s, "Map(");
    crate::number::push_digits(s, i as u128);
    push_char(s, ')');
    assert("Map("@ =~= map_open());
    assert(final(s)@ =~= old(s)@ + mapping_text(i));
}

/// Appends the LaTeX of the terms, `sep` between two of them.
fn push_joined_latex(s: &mut String, list: &Vec<Operation>, sep: &str)
    ensures
        final(s)@ == old(s)@ + joined_latex(views_of(list@), list@.len() as int, sep@),
    decreases list, 0int,
{
    let ghost l = views_of(list@);
    let mut i: usize = 0;
    while i < list.len()
        invariant
            i <= list.len(),
            l == views_of(list@),
            s@ == old(s)@ + joined_latex(l, i as int, sep@),
        decreases list.len() - i,
    {
        assert(l[i as int] == list@[i as int]@);
        proof {
            assert(decreases_to!(*list => list[i as int]));
        }
        let r = list[i].latex_string();
        push_text(s, &r);
        if i != list.len() - 1 {
            push_str(s, sep);
        }
        i = i + 1;
        assert(s@ =~= old(s)@ + joined_latex(l, i as int, sep@));
    }
}

/// Appends the LaTeX of the terms of a sum.
fn push_sum_terms_latex(s: &mut String, list: &Vec<Operation>)
    ensures
        final(s)@ == old(s)@ + sum_terms_latex(views_of(list@), list@.len() as int),
    decreases list, 2int,
{
    let ghost l = views_of(list@);
    let mut i: usize = 0;
    proof {
        reveal_strlit(" - ");
        reveal_strlit(" + ");
    }
    assert(" - "@ =~= minus_sep());
    assert(" + "@ =~= plus_sep());
    while i < list.len()
        invariant
            i <= list.len(),
            l == views_of(list@),
            s@ == old(s)@ + sum_terms_latex(l, i as int),
            " - "@ == minus_sep(),
            " + "@ == plus_sep(),
        decreases list.len() - i,
    {
        let t = sum_term_latex_exec(list, i);
        push_text(s, &t);
        i = i + 1;
    }
}

/// The LaTeX of term `i` of a sum, with the operator that follows it.
fn sum_term_latex_exec(list: &Vec<Operation>, i: usize) -> (r: String)
    requires
        i < list@.len(),
    ensures
        r@ == sum_term_latex(views_of(list@), i as int),
    decreases list, 1int,
{
    let ghost l = views_of(list@);
    proof {
        reveal_strlit(" - ");
        reveal_strlit(" + ");
    }
    assert(" - "@ =~= minus_sep());
    assert(" + "@ =~= plus_sep());
    let mut s = String::new();
    let item = &list[i];
    assert(l[i as int] == item@);
    proof {
        assert(decreases_to!(*list => list[i as int]));
    }
    let compound = match item {
        Operation::Sum(_) => true,
        Operation::Multiply(_) => true,
        _ => false,
    };
    if compound {
        push_char(&mut s, '{');
    }
    let body = match item {
        Operation::Negate(Some(a)) => {
            if i != 0 {
                assert(item@ == Expr::Negate(Some(Box::new(a@))));
                a.latex_string()
            } else {
                item.latex_string()
            }
        },
        _ => item.latex_string(),
    };
    push_text(&mut s, &body);
    if i != list.len() - 1 {
        assert(l[i + 1] == list@[i + 1]@);
        let next_negated = match &list[i + 1] {
            Operation::Negate(_) => true,
            _ => false,
        };
        if next_negated {
            push_str(&mut s, " - ");
        } else {
            push_str(&mut s, " + ");
        }
    }
    if compound {
        push_char(&mut s, '}');
    }
    assert(s@ =~= sum_term_latex(l, i as int));
    s
}

impl Operation {
    /// The LaTeX rendering: `a \cdot b`, `{a + b - c}`, `-{a}`,
    /// `\frac{a}{b}`, `a = b`, symbols as `$x$`.
    pub fn latex_string(&self) -> (r: String)
        ensures
            r@ == latex_of(self@),
        decreases self, 1int,
    {
        let mut s = String::new();
        match self {
            Operation::Multiply(list) => {
                assert(self@ == Expr::Multiply(views_of(list@)));
                proof { reveal_strlit(" \\cdot "); }
                push_joined_latex(&mut s, list, " \\cdot ");
                assert(" \\cdot "@ =~= cdot_sep());
            },
            Operation::Sum(list) => {
                assert(self@ == Expr::Sum(views_of(list@)));
                push_char(&mut s, '{');
                push_sum_terms_latex(&mut s, list);
                push_char(&mut s, '}');
            },
            Operation::Negate(Some(a)) => {
                push_char(&mut s, '-');
                push_char(&mut s, '{');
                let t = a.latex_string();
                push_text(&mut s, &t);
                push_char(&mut s, '}');
            },
            Operation::Divide(Some(a), Some(b)) => {
                proof { reveal_strlit("\\frac{"); }
                push_str(&mut s, "\\frac{");
                assert("\\frac{"@ =~= frac_open());
                let n = a.latex_string();
                push_text(&mut s, &n);
                push_char(&mut s, '}');
                push_char(&mut s, '{');
                let d = b.latex_string();
                push_text(&mut s, &d);
                push_char(&mut s, '}');
            },
            Operation::Equal(Some(a), Some(b)) => {
                let l = a.latex_string();
                push_text(&mut s, &l);
                proof { reveal_strlit(" = "); }
                push_str(&mut s, " = ");
                assert(" = "@ =~= equals_sep());
                let r = b.latex_string();
                push_text(&mut s, &r);
            },
            Operation::Value(n) => {
                let t = n.to_text();
                push_text(&mut s, &t);
            },
            Operation::Mapping(i) => {
                push_mapping_text(&mut s, *i);
            },
            Operation::Variable(v) => {
                let t = v.latex_string();
                push_text(&mut s, &t);
            },
            Operation::Text(t) => {
                push_char(&mut s, '$');
                push_text(&mut s, t);
                push_char(&mut s, '$');
            },
            _ => {
                proof { reveal_strlit("$Not implemented$"); }
                push_str(&mut s, "$Not implemented$");
                assert("$Not implemented$"@ =~= not_implemented());
            },
        }
        assert(s@ =~= latex_of(self@));
        s
    }
}

impl Operation {
    /// Whether every optional child is present, at every depth.
    pub fn is_complete(&self) -> (r: bool)
        ensures
            r == complete(self@),
        decreases self,
    {
        match self {
            Operation::Multiply(list) | Operation::Sum(list) => {
                let ghost l = views_of(list@);
                assert(self@ == Expr::Multiply(l) || self@ == Expr::Sum(l));
                proof {
                    lemma_all_complete(l, l.len() as int);
                }
                let mut i: usize = 0;
                #[verifier::loop_isolation(false)]
                while i < list.len()
                    invariant
                        i <= list.len(),
                        forall|j: int| 0 <= j < i ==> complete(#[trigger] l[j]),
                    decreases list.len() - i,
                {
                    assert(l[i as int] == list@[i as int]@);
                    proof {
                        assert(decreases_to!(*list => list[i as int]));
                    }
                    if !list[i].is_complete() {
                        return false;
                    }
                    i = i + 1;
                }
                true
            },
            Operation::Negate(Some(a)) => {
                assert(self@ == Expr::Negate(Some(Box::new(a@))));
                a.is_complete()
            },
            Operation::Divide(Some(a), Some(b)) => {
                assert(self@ == Expr::Divide(Some(Box::new(a@)), Some(Box::new(b@))));
                a.is_complete() && b.is_complete()
            },
            Operation::Equal(Some(a), Some(b)) => {
                assert(self@ == Expr::Equal(Some(Box::new(a@)), Some(Box::new(b@))));
                a.is_complete() && b.is_complete()
            },
            Operation::Negate(None) | Operation::Divide(_, _) | Operation::Equal(_, _) => false,
            _ => true,
        }
    }
}

} // verus!
