use vstd::prelude::*;
use crate::model::Expr;
use crate::number::Number;
use crate::operations::{Operation, views_of};
use crate::text::same_text;

verus! {

/// The index of the first term of `b`, from `j` on, that equals `x`.
pub open spec fn find_equal(x: Expr, b: Seq<Expr>, j: int) -> Option<int>
    decreases x, b.len() - j,
{
    if j < 0 || j >= b.len() {
        None
    } else if ops_equal(x, b[j]) {
        Some(j)
    } else {
        find_equal(x, b, j + 1)
    }
}

/// Whether the terms of `a` pair one to one with equal terms of `b`: each
/// term of `a` in turn takes the first term of `b` not yet taken that
/// equals it, and none of `b` is left over. Since term equality is
/// symmetric and transitive, this is equality of the two lists as
/// multisets.
pub open spec fn paired(a: Seq<Expr>, b: Seq<Expr>) -> bool
    decreases a, 1int,
{
    if a.len() == 0 {
        b.len() == 0
    } else {
        match find_equal(a[0], b, 0) {
            Some(j) => paired(a.subrange(1, a.len() as int), b.remove(j)),
            None => false,
        }
    }
}

pub open spec fn options_equal(a: Option<Box<Expr>>, b: Option<Box<Expr>>) -> bool
    decreases a, 0int,
{
    match (a, b) {
        (Some(x), Some(y)) => ops_equal(*x, *y),
        (None, None) => true,
        _ => false,
    }
}

/// Equality of trees: numbers by value; sums and products as multisets of
/// terms (see `paired`); negations and
/// quotients by their operands; symbols and wildcards by name. Equations and
/// bound leaves equal nothing.
pub open spec fn ops_equal(x: Expr, y: Expr) -> bool
    decreases x, 0int,
{
    match (x, y) {
        (Expr::Value(a), Expr::Value(b)) => a.same_value(b),
        (Expr::Text(a), Expr::Text(b)) => a == b,
        (Expr::Multiply(a), Expr::Multiply(b)) => paired(a, b),
        (Expr::Negate(a), Expr::Negate(b)) => options_equal(a, b),
        (Expr::Divide(a, b), Expr::Divide(c, d)) => options_equal(a, c) && options_equal(b, d),
        (Expr::Sum(a), Expr::Sum(b)) => paired(a, b),
        (Expr::Mapping(a), Expr::Mapping(b)) => a == b,
        _ => false,
    }
}

pub open spec fn picked(b: Seq<Expr>, rest: Seq<usize>) -> Seq<Expr> {
    Seq::new(rest.len(), |k: int| b[rest[k] as int])
}

/// Whether the terms of `a` pair one to one with equal terms of `b` (see
/// `paired`).
fn paired_exec(a: &Vec<Operation>, b: &Vec<Operation>) -> (r: bool)
    ensures
        r == paired(views_of(a@), views_of(b@)),
    decreases a, 4int,
{
    let ghost av = views_of(a@);
    let ghost bv = views_of(b@);
    let mut rest: Vec<usize> = Vec::new();
    let mut k: usize = 0;
    while k < b.len()
        invariant
            k <= b@.len(),
            rest@.len() == k,
            forall|q: int| 0 <= q < k ==> rest@[q] == q,
        decreases b@.len() - k,
    {
        rest.push(k);
        k = k + 1;
    }
    assert(picked(bv, rest@) =~= bv);
    assert(av.subrange(0, av.len() as int) =~= av);
    let mut i: usize = 0;
    while i < a.len()
        invariant
            i <= a@.len(),
            av == views_of(a@),
            bv == views_of(b@),
            forall|q: int| 0 <= q < rest@.len() ==> rest@[q] < b@.len(),
            paired(av, bv) == paired(av.subrange(i as int, av.len() as int), picked(bv, rest@)),
        decreases a@.len() - i,
    {
        let ghost rv = picked(bv, rest@);
        assert(av[i as int] == a@[i as int]@);
        proof {
            assert(decreases_to!(*a => a[i as int]));
        }
        let mut j: usize = 0;
        let mut found: Option<usize> = None;
        #[verifier::loop_isolation(false)]
        while j < rest.len()
            invariant
                j <= rest@.len(),
                rv == picked(bv, rest@),
                bv == views_of(b@),
                forall|q: int| 0 <= q < rest@.len() ==> rest@[q] < b@.len(),
                found is None ==> find_equal(av[i as int], rv, 0) == find_equal(av[i as int], rv, j as int),
                found matches Some(f) ==> f < rest@.len() && find_equal(av[i as int], rv, 0) == Some(f as int),
            decreases rest@.len() - j, if found is None { 1int } else { 0int },
        {
            if found.is_some() {
                break;
            }
            assert(rv[j as int] == b@[rest@[j as int] as int]@);
            if equal_exec(&a[i], &b[rest[j]]) {
                found = Some(j);
            } else {
                j = j + 1;
            }
        }
        let ghost tail = av.subrange(i as int, av.len() as int);
        assert(tail[0] == av[i as int]);
        assert(tail.subrange(1, tail.len() as int) =~= av.subrange(i + 1, av.len() as int));
        match found {
            None => {
                return false;
            },
            Some(f) => {
                let ghost before = rest@;
                rest.remove(f);
                assert(picked(bv, rest@) =~= rv.remove(f as int));
            },
        }
        i = i + 1;
    }
    rest.len() == 0
}

fn options_equal_exec(a: &Option<Box<Operation>>, b: &Option<Box<Operation>>) -> (r: bool)
    ensures
        r == options_equal(crate::operations::child_view(*a), crate::operations::child_view(*b)),
    decreases a, 3int,
{
    match (a, b) {
        (Some(x), Some(y)) => equal_exec(x, y),
        (None, None) => true,
        _ => false,
    }
}

fn equal_exec(x: &Operation, y: &Operation) -> (r: bool)
    ensures
        r == ops_equal(x@, y@),
    decreases x, 2int,
{
    match (x, y) {
        (Operation::Value(a), Operation::Value(b)) => a.same(b),
        (Operation::Text(a), Operation::Text(b)) => same_text(a, b),
        (Operation::Multiply(a), Operation::Multiply(b)) => {
            assert(x@ == Expr::Multiply(views_of(a@)));
            assert(y@ == Expr::Multiply(views_of(b@)));
            paired_exec(a, b)
        },
        (Operation::Negate(a), Operation::Negate(b)) => options_equal_exec(a, b),
        (Operation::Divide(a, b), Operation::Divide(c, d)) => {
            let first = options_equal_exec(a, c);
            let second = options_equal_exec(b, d);
            first && second
        },
        (Operation::Sum(a), Operation::Sum(b)) => {
            assert(x@ == Expr::Sum(views_of(a@)));
            assert(y@ == Expr::Sum(views_of(b@)));
            paired_exec(a, b)
        },
        (Operation::Mapping(a), Operation::Mapping(b)) => *a == *b,
        _ => false,
    }
}

impl PartialEq for Operation {
    fn eq(&self, other: &Operation) -> (r: bool) {
        equal_exec(self, other)
    }
}

impl vstd::std_specs::cmp::PartialEqSpecImpl for Operation {
    open spec fn obeys_eq_spec() -> bool {
        true
    }

    open spec fn eq_spec(&self, other: &Operation) -> bool {
        ops_equal(self@, other@)
    }
}

impl PartialEq for Number {
    fn eq(&self, other: &Number) -> (r: bool) {
        self.same(other)
    }
}

impl vstd::std_specs::cmp::PartialEqSpecImpl for Number {
    open spec fn obeys_eq_spec() -> bool {
        true
    }

    open spec fn eq_spec(&self, other: &Number) -> bool {
        self.same_value(*other)
    }
}

} // verus!
