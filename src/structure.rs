use vstd::prelude::*;
use crate::model::Expr;
use crate::operations::{Operation, views_of};

verus! {

/// A leaf: a number, a symbol, a wildcard or a bound leaf.
pub open spec fn is_leaf(e: Expr) -> bool {
    e is Value || e is Text || e is Mapping || e is Variable
}

/// The two nodes are of one kind; all leaf kinds count as one kind.
pub open spec fn same_kind(a: Expr, b: Expr) -> bool {
    ||| a is Sum && b is Sum
    ||| a is Multiply && b is Multiply
    ||| a is Negate && b is Negate
    ||| a is Divide && b is Divide
    ||| a is Equal && b is Equal
    ||| is_leaf(a) && is_leaf(b)
}

pub open spec fn next_depth(d: Option<nat>) -> Option<nat> {
    match d {
        Some(k) => Some((k - 1) as nat),
        None => None,
    }
}

/// The first `n` pairs of terms match.
pub open spec fn terms_match(ls: Seq<Expr>, rs: Seq<Expr>, n: int, depth: Option<nat>) -> bool
    decreases ls, rs, n,
{
    if n <= 0 || n > ls.len() || n > rs.len() {
        true
    } else {
        terms_match(ls, rs, n - 1, depth) && structure_match(ls[n - 1], rs[n - 1], depth)
    }
}

/// Shape-level equivalence: a negation on either side is seen through, a
/// wildcard matches anything, leaves match leaves whatever they hold, and
/// sums, products and quotients match term by term. With `Some(k)`, trees
/// are compared `k` levels deep; below that anything matches.
pub open spec fn structure_match(a: Expr, b: Expr, depth: Option<nat>) -> bool
    decreases a, b, 0int,
{
    if depth == Some(0nat) {
        true
    } else {
        match (a, b) {
            (Expr::Sum(ls), Expr::Sum(rs)) => ls.len() == rs.len() && terms_match(
                ls,
                rs,
                ls.len() as int,
                next_depth(depth),
            ),
            (Expr::Multiply(ls), Expr::Multiply(rs)) => ls.len() == rs.len() && terms_match(
                ls,
                rs,
                ls.len() as int,
                next_depth(depth),
            ),
            (Expr::Negate(Some(l)), Expr::Negate(Some(r))) => structure_match(*l, *r, depth),
            (Expr::Negate(Some(l)), _) => structure_match(*l, b, depth),
            (_, Expr::Negate(Some(r))) => structure_match(a, *r, depth),
            (Expr::Divide(Some(an), Some(ad)), Expr::Divide(Some(bn), Some(bd))) => structure_match(
                *ad,
                *bd,
                next_depth(depth),
            ) && structure_match(*an, *bn, next_depth(depth)),
            (_, Expr::Mapping(_)) => true,
            (Expr::Mapping(_), _) => true,
            _ => same_kind(a, b),
        }
    }
}

impl Operation {
    /// Whether the two nodes are of one kind; all leaf kinds (numbers,
    /// symbols, wildcards, bound leaves) count as one kind.
    pub fn matches(&self, rs: &Operation) -> (r: bool)
        ensures
            r == same_kind(self@, rs@),
    {
        let a = match self {
            Operation::Sum(_) => 0u8,
            Operation::Multiply(_) => 1u8,
            Operation::Negate(_) => 2u8,
            Operation::Divide(_, _) => 3u8,
            Operation::Equal(_, _) => 4u8,
            _ => 5u8,
        };
        let b = match rs {
            Operation::Sum(_) => 0u8,
            Operation::Multiply(_) => 1u8,
            Operation::Negate(_) => 2u8,
            Operation::Divide(_, _) => 3u8,
            Operation::Equal(_, _) => 4u8,
            _ => 5u8,
        };
        a == b
    }

    /// Structural match over the whole depth of both trees.
    pub fn compare_structure(&self, rs: &Operation) -> (r: bool)
        ensures
            r == structure_match(self@, rs@, None),
    {
        compare_within(self, rs, None)
    }

    /// Structural match down to `depth` levels; at depth zero anything
    /// matches.
    pub fn compare_structure_within(&self, rs: &Operation, depth: usize) -> (r: bool)
        ensures
            r == structure_match(self@, rs@, Some(depth as nat)),
    {
        compare_within(self, rs, Some(depth))
    }
}

pub open spec fn depth_view(d: Option<usize>) -> Option<nat> {
    match d {
        Some(k) => Some(k as nat),
        None => None,
    }
}

fn lower(d: Option<usize>) -> (r: Option<usize>)
    requires
        d != Some(0usize),
    ensures
        depth_view(r) == next_depth(depth_view(d)),
{
    match d {
        Some(k) => Some(k - 1),
        None => None,
    }
}

fn terms_within(ls: &Vec<Operation>, rs: &Vec<Operation>, depth: Option<usize>) -> (r: bool)
    requires
        ls@.len() == rs@.len(),
    ensures
        r == terms_match(views_of(ls@), views_of(rs@), ls@.len() as int, depth_view(depth)),
    decreases ls, rs, 1int,
{
    let ghost lv = views_of(ls@);
    let ghost rv = views_of(rs@);
    let mut i: usize = 0;
    let mut ok = true;
    while i < ls.len()
        invariant
            i <= ls.len(),
            ls@.len() == rs@.len(),
            lv == views_of(ls@),
            rv == views_of(rs@),
            ok == terms_match(lv, rv, i as int, depth_view(depth)),
        decreases ls.len() - i,
    {
        assert(lv[i as int] == ls@[i as int]@);
        assert(rv[i as int] == rs@[i as int]@);
        proof {
            assert(decreases_to!(*ls => ls[i as int]));
        }
        let m = compare_within(&ls[i], &rs[i], depth);
        ok = ok && m;
        i = i + 1;
    }
    ok
}

fn compare_within(a: &Operation, b: &Operation, depth: Option<usize>) -> (r: bool)
    ensures
        r == structure_match(a@, b@, depth_view(depth)),
    decreases a, b, 0int,
{
    if depth == Some(0usize) {
        return true;
    }
    match (a, b) {
        (Operation::Sum(ls), Operation::Sum(rs)) => {
            assert(a@ == Expr::Sum(views_of(ls@)));
            assert(b@ == Expr::Sum(views_of(rs@)));
            ls.len() == rs.len() && terms_within(ls, rs, lower(depth))
        },
        (Operation::Multiply(ls), Operation::Multiply(rs)) => {
            assert(a@ == Expr::Multiply(views_of(ls@)));
            assert(b@ == Expr::Multiply(views_of(rs@)));
            ls.len() == rs.len() && terms_within(ls, rs, lower(depth))
        },
        (Operation::Negate(Some(l)), Operation::Negate(Some(r))) => {
            assert(a@ == Expr::Negate(Some(Box::new(l@))));
            assert(b@ == Expr::Negate(Some(Box::new(r@))));
            compare_within(l, r, depth)
        },
        (Operation::Negate(Some(l)), _) => {
            assert(a@ == Expr::Negate(Some(Box::new(l@))));
            compare_within(l, b, depth)
        },
        (_, Operation::Negate(Some(r))) => {
            assert(b@ == Expr::Negate(Some(Box::new(r@))));
            compare_within(a, r, depth)
        },
        (Operation::Divide(Some(an), Some(ad)), Operation::Divide(Some(bn), Some(bd))) => {
            assert(a@ == Expr::Divide(Some(Box::new(an@)), Some(Box::new(ad@))));
            assert(b@ == Expr::Divide(Some(Box::new(bn@)), Some(Box::new(bd@))));
            let d = lower(depth);
            let den = compare_within(ad, bd, d);
            let num = compare_within(an, bn, d);
            den && num
        },
        (_, Operation::Mapping(_)) => true,
        (Operation::Mapping(_), _) => true,
        _ => a.matches(b),
    }
}

/// Term-by-term matching does not depend on which list comes first.
pub proof fn lemma_terms_match_symmetric(ls: Seq<Expr>, rs: Seq<Expr>, n: int, depth: Option<nat>)
    ensures
        terms_match(ls, rs, n, depth) == terms_match(rs, ls, n, depth),
    decreases ls, rs, n,
{
    if !(n <= 0 || n > ls.len() || n > rs.len()) {
        lemma_terms_match_symmetric(ls, rs, n - 1, depth);
        lemma_structure_match_symmetric(ls[n - 1], rs[n - 1], depth);
    }
}

/// Structural matching is symmetric: whichever tree is taken as the
/// pattern, the answer is the same, whatever the depth bound.
pub proof fn lemma_structure_match_symmetric(a: Expr, b: Expr, depth: Option<nat>)
    ensures
        structure_match(a, b, depth) == structure_match(b, a, depth),
    decreases a, b, 0int,
{
    if depth != Some(0nat) {
        match (a, b) {
            (Expr::Sum(ls), Expr::Sum(rs)) => {
                lemma_terms_match_symmetric(ls, rs, ls.len() as int, next_depth(depth));
            },
            (Expr::Multiply(ls), Expr::Multiply(rs)) => {
                lemma_terms_match_symmetric(ls, rs, ls.len() as int, next_depth(depth));
            },
            (Expr::Negate(Some(l)), Expr::Negate(Some(r))) => {
                lemma_structure_match_symmetric(*l, *r, depth);
            },
            (Expr::Negate(Some(l)), _) => {
                lemma_structure_match_symmetric(*l, b, depth);
            },
            (_, Expr::Negate(Some(r))) => {
                lemma_structure_match_symmetric(a, *r, depth);
            },
            (Expr::Divide(Some(an), Some(ad)), Expr::Divide(Some(bn), Some(bd))) => {
                lemma_structure_match_symmetric(*ad, *bd, next_depth(depth));
                lemma_structure_match_symmetric(*an, *bn, next_depth(depth));
            },
            _ => {},
        }
    }
}

/// Any two leaves match structurally, in either order, whatever they hold.
pub proof fn lemma_leaves_match(a: Expr, b: Expr)
    requires
        is_leaf(a),
        is_leaf(b),
    ensures
        structure_match(a, b, None),
        structure_match(b, a, None),
{
}

} // verus!
