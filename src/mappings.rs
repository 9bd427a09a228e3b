use vstd::prelude::*;
use crate::model::Expr;
use crate::number::Number;
use crate::operations::{Operation, views_of};
use crate::structure::{structure_match, is_leaf};

verus! {

/// The leaves of the first `n` terms, in order.
pub open spec fn terms_index(l: Seq<Expr>, n: int) -> Seq<Expr>
    decreases l, n,
{
    if n <= 0 || n > l.len() {
        seq![]
    } else {
        terms_index(l, n - 1) + mapping_index(l[n - 1])
    }
}

/// The leaves of a tree in traversal order: terms left to right, numerator
/// before denominator; a negated leaf is taken with its sign.
pub open spec fn mapping_index(e: Expr) -> Seq<Expr>
    decreases e, 0int,
{
    match e {
        Expr::Multiply(l) => terms_index(l, l.len() as int),
        Expr::Sum(l) => terms_index(l, l.len() as int),
        Expr::Negate(Some(a)) => if is_leaf(*a) { seq![e] } else { mapping_index(*a) },
        Expr::Divide(Some(n), Some(d)) => mapping_index(*n) + mapping_index(*d),
        Expr::Equal(Some(n), Some(d)) => mapping_index(*n) + mapping_index(*d),
        Expr::Value(_) => seq![e],
        Expr::Text(_) => seq![e],
        Expr::Mapping(_) => seq![e],
        Expr::Variable(_, _, _) => seq![e],
        _ => seq![],
    }
}

/// The first `n` terms of a template with the wildcards filled in.
pub open spec fn terms_applied(l: Seq<Expr>, n: int, m: Seq<Expr>) -> Seq<Expr>
    decreases l, n,
{
    if n <= 0 || n > l.len() {
        seq![]
    } else {
        terms_applied(l, n - 1, m).push(applied(l[n - 1], m))
    }
}

pub open spec fn neutral() -> Expr {
    Expr::Value(Number { num: 0, den: 1 })
}

/// A replacement template with each wildcard `Mapping(i)` replaced by entry
/// `i` of `m` (a neutral zero when there is none), at every depth; numbers
/// and symbols written in the template itself become a neutral zero.
pub open spec fn applied(e: Expr, m: Seq<Expr>) -> Expr
    decreases e, 0int,
{
    match e {
        Expr::Multiply(l) => Expr::Multiply(terms_applied(l, l.len() as int, m)),
        Expr::Sum(l) => Expr::Sum(terms_applied(l, l.len() as int, m)),
        Expr::Negate(Some(a)) => Expr::Negate(Some(Box::new(applied(*a, m)))),
        Expr::Divide(Some(n), Some(d)) => Expr::Divide(
            Some(Box::new(applied(*n, m))),
            Some(Box::new(applied(*d, m))),
        ),
        Expr::Equal(Some(n), Some(d)) => Expr::Equal(
            Some(Box::new(applied(*n, m))),
            Some(Box::new(applied(*d, m))),
        ),
        Expr::Value(_) => neutral(),
        Expr::Text(_) => neutral(),
        Expr::Mapping(i) => if i < m.len() { m[i as int] } else { neutral() },
        _ => e,
    }
}

proof fn lemma_views_push(r: Seq<Operation>, x: Operation)
    ensures
        views_of(r.push(x)) == views_of(r).push(x@),
{
    assert(views_of(r.push(x)) =~= views_of(r).push(x@));
}

proof fn lemma_views_append(r: Seq<Operation>, s: Seq<Operation>)
    ensures
        views_of(r + s) == views_of(r) + views_of(s),
{
    assert(views_of(r + s) =~= views_of(r) + views_of(s));
}

/// The leaves of `input` in traversal order: terms left to right, then the
/// operand of a negation, numerator before denominator. A negated leaf is
/// taken with its sign. Entry `i` is what the wildcard `Mapping(i)` of a
/// matching pattern stands for.
pub fn create_mapping_index(input: &Operation) -> (r: Vec<Operation>)
    ensures
        views_of(r@) == mapping_index(input@),
    decreases input,
{
    let mut output: Vec<Operation> = Vec::new();
    match input {
        Operation::Multiply(list) | Operation::Sum(list) => {
            let ghost l = views_of(list@);
            assert(input@ == Expr::Multiply(l) || input@ == Expr::Sum(l));
            let mut i: usize = 0;
            #[verifier::loop_isolation(false)]
            while i < list.len()
                invariant
                    i <= list.len(),
                    l == views_of(list@),
                    views_of(output@) == terms_index(l, i as int),
                decreases list.len() - i,
            {
                assert(l[i as int] == list@[i as int]@);
                proof {
                    assert(decreases_to!(*list => list[i as int]));
                }
                let mut part = create_mapping_index(&list[i]);
                proof {
                    lemma_views_append(output@, part@);
                }
                output.append(&mut part);
                i = i + 1;
            }
        },
        Operation::Negate(Some(a)) => {
            assert(input@ == Expr::Negate(Some(Box::new(a@))));
            match &**a {
                Operation::Value(_) | Operation::Text(_) | Operation::Mapping(_) | Operation::Variable(_) => {
                    let d = input.duplicate();
                    proof {
                        lemma_views_push(output@, d);
                    }
                    output.push(d);
                },
                _ => {
                    let mut part = create_mapping_index(a);
                    proof {
                        lemma_views_append(output@, part@);
                    }
                    output.append(&mut part);
                },
            }
        },
        Operation::Divide(Some(n), Some(d)) | Operation::Equal(Some(n), Some(d)) => {
            assert(input@ == Expr::Divide(Some(Box::new(n@)), Some(Box::new(d@))) || input@
                == Expr::Equal(Some(Box::new(n@)), Some(Box::new(d@))));
            let mut first = create_mapping_index(n);
            let mut second = create_mapping_index(d);
            proof {
                lemma_views_append(output@, first@);
                lemma_views_append(output@ + first@, second@);
            }
            output.append(&mut first);
            output.append(&mut second);
        },
        Operation::Value(_) | Operation::Text(_) | Operation::Mapping(_) | Operation::Variable(_) => {
            let d = input.duplicate();
            proof {
                lemma_views_push(output@, d);
            }
            output.push(d);
        },
        _ => {},
    }
    assert(views_of(output@) =~= mapping_index(input@));
    output
}

fn neutral_value() -> (r: Operation)
    ensures
        r@ == neutral(),
{
    Operation::Value(Number::integer(0))
}

/// The replacement template `input` with each wildcard `Mapping(i)` replaced
/// by entry `i` of `mappings` (a neutral zero when there is none); numbers
/// and symbols written in the template itself become a neutral zero.
pub fn apply_mapping(input: &Operation, mappings: &Vec<Operation>) -> (r: Operation)
    ensures
        r@ == applied(input@, views_of(mappings@)),
    decreases input,
{
    let ghost m = views_of(mappings@);
    match input {
        Operation::Multiply(list) | Operation::Sum(list) => {
            let ghost l = views_of(list@);
            let mut out: Vec<Operation> = Vec::new();
            let mut i: usize = 0;
            #[verifier::loop_isolation(false)]
            while i < list.len()
                invariant
                    i <= list.len(),
                    l == views_of(list@),
                    m == views_of(mappings@),
                    views_of(out@) == terms_applied(l, i as int, m),
                decreases list.len() - i,
            {
                assert(l[i as int] == list@[i as int]@);
                proof {
                    assert(decreases_to!(*list => list[i as int]));
                }
                let t = apply_mapping(&list[i], mappings);
                proof {
                    lemma_views_push(out@, t);
                }
                out.push(t);
                i = i + 1;
            }
            match input {
                Operation::Multiply(_) => {
                    assert(input@ == Expr::Multiply(l));
                    Operation::Multiply(out)
                },
                _ => {
                    assert(input@ == Expr::Sum(l));
                    Operation::Sum(out)
                },
            }
        },
        Operation::Negate(Some(a)) => {
            assert(input@ == Expr::Negate(Some(Box::new(a@))));
            Operation::Negate(Some(Box::new(apply_mapping(a, mappings))))
        },
        Operation::Divide(Some(n), Some(d)) => {
            assert(input@ == Expr::Divide(Some(Box::new(n@)), Some(Box::new(d@))));
            let x = apply_mapping(n, mappings);
            let y = apply_mapping(d, mappings);
            Operation::Divide(Some(Box::new(x)), Some(Box::new(y)))
        },
        Operation::Equal(Some(n), Some(d)) => {
            assert(input@ == Expr::Equal(Some(Box::new(n@)), Some(Box::new(d@))));
            let x = apply_mapping(n, mappings);
            let y = apply_mapping(d, mappings);
            Operation::Equal(Some(Box::new(x)), Some(Box::new(y)))
        },
        Operation::Value(_) | Operation::Text(_) => neutral_value(),
        Operation::Mapping(index) => {
            if *index < mappings.len() {
                assert(m[*index as int] == mappings@[*index as int]@);
                mappings[*index].duplicate()
            } else {
                neutral_value()
            }
        },
        _ => input.duplicate(),
    }
}

pub open spec fn wildcard(i: usize) -> Expr {
    Expr::Mapping(i)
}

pub open spec fn quotient(a: Expr, b: Expr) -> Expr {
    Expr::Divide(Some(Box::new(a)), Some(Box::new(b)))
}

/// The rewrite rules, as (pattern, replacement) pairs: division distributed
/// over a sum of two terms, and over a sum of three.
pub open spec fn expansion_rules() -> Seq<(Expr, Expr)> {
    seq![
        (
            quotient(Expr::Sum(seq![wildcard(0), wildcard(1)]), wildcard(2)),
            Expr::Sum(seq![quotient(wildcard(0), wildcard(2)), quotient(wildcard(1), wildcard(2))]),
        ),
        (
            quotient(Expr::Sum(seq![wildcard(0), wildcard(1), wildcard(2)]), wildcard(3)),
            Expr::Sum(
                seq![
                    quotient(wildcard(0), wildcard(3)),
                    quotient(wildcard(1), wildcard(3)),
                    quotient(wildcard(2), wildcard(3)),
                ],
            ),
        ),
    ]
}

pub open spec fn rules_view(rules: Seq<(Operation, Operation)>) -> Seq<(Expr, Expr)> {
    Seq::new(rules.len(), |i: int| (rules[i].0@, rules[i].1@))
}

/// The index of the first rule from `i` on whose pattern matches `e`.
pub open spec fn first_rule(e: Expr, rules: Seq<(Expr, Expr)>, i: int) -> Option<int>
    decreases rules.len() - i,
{
    if i < 0 || i >= rules.len() {
        None
    } else if structure_match(e, rules[i].0, None) {
        Some(i)
    } else {
        first_rule(e, rules, i + 1)
    }
}

/// The replacement of the first rule whose pattern matches `e`; `e` itself
/// when none does.
pub open spec fn rule_target(e: Expr, rules: Seq<(Expr, Expr)>) -> Expr {
    match first_rule(e, rules, 0) {
        Some(k) => rules[k].1,
        None => e,
    }
}

/// The first matching rule's replacement filled in from the leaves of `e`;
/// a negation around `e` is put back around the result.
pub open spec fn mapped(e: Expr, rules: Seq<(Expr, Expr)>) -> Expr {
    let x = applied(rule_target(e, rules), mapping_index(e));
    if e matches Expr::Negate(Some(_)) {
        Expr::Negate(Some(Box::new(x)))
    } else {
        x
    }
}

/// `Ok` with the rewritten tree, or `Err` with `e` unchanged when no rule
/// matches or the rewrite leaves the structure as it was.
pub open spec fn expansion_of(e: Expr) -> Result<Expr, Expr> {
    let out = mapped(e, expansion_rules());
    if first_rule(e, expansion_rules(), 0) is None || structure_match(out, e, None) {
        Err(e)
    } else {
        Ok(out)
    }
}

fn mapping_leaf(i: usize) -> (r: Operation)
    ensures
        r@ == wildcard(i),
{
    Operation::Mapping(i)
}

fn quotient_of(a: Operation, b: Operation) -> (r: Operation)
    ensures
        r@ == quotient(a@, b@),
{
    Operation::Divide(Some(Box::new(a)), Some(Box::new(b)))
}

fn two_terms(a: Operation, b: Operation) -> (r: Operation)
    ensures
        r@ == Expr::Sum(seq![a@, b@]),
{
    let mut v: Vec<Operation> = Vec::new();
    v.push(a);
    v.push(b);
    assert(views_of(v@) =~= seq![a@, b@]);
    Operation::Sum(v)
}

fn three_terms(a: Operation, b: Operation, c: Operation) -> (r: Operation)
    ensures
        r@ == Expr::Sum(seq![a@, b@, c@]),
{
    let mut v: Vec<Operation> = Vec::new();
    v.push(a);
    v.push(b);
    v.push(c);
    assert(views_of(v@) =~= seq![a@, b@, c@]);
    Operation::Sum(v)
}

/// The rewrite rules as trees (see `expansion_rules`).
pub fn expansions() -> (r: Vec<(Operation, Operation)>)
    ensures
        rules_view(r@) == expansion_rules(),
{
    let mut rules: Vec<(Operation, Operation)> = Vec::new();
    let p1 = quotient_of(two_terms(mapping_leaf(0), mapping_leaf(1)), mapping_leaf(2));
    let r1 = two_terms(
        quotient_of(mapping_leaf(0), mapping_leaf(2)),
        quotient_of(mapping_leaf(1), mapping_leaf(2)),
    );
    rules.push((p1, r1));
    let p2 = quotient_of(three_terms(mapping_leaf(0), mapping_leaf(1), mapping_leaf(2)), mapping_leaf(3));
    let r2 = three_terms(
        quotient_of(mapping_leaf(0), mapping_leaf(3)),
        quotient_of(mapping_leaf(1), mapping_leaf(3)),
        quotient_of(mapping_leaf(2), mapping_leaf(3)),
    );
    rules.push((p2, r2));
    assert(rules_view(rules@) =~= expansion_rules());
    rules
}

/// The index of the first rule whose pattern matches `input`
/// structurally.
fn find_rule(input: &Operation, rules: &Vec<(Operation, Operation)>) -> (r: Option<usize>)
    ensures
        match r {
            Some(k) => k < rules@.len() && first_rule(input@, rules_view(rules@), 0) == Some(k as int),
            None => first_rule(input@, rules_view(rules@), 0) is None,
        },
{
    let ghost rv = rules_view(rules@);
    let mut i: usize = 0;
    while i < rules.len()
        invariant
            i <= rules.len(),
            rv == rules_view(rules@),
            first_rule(input@, rv, 0) == first_rule(input@, rv, i as int),
        decreases rules.len() - i,
    {
        if input.compare_structure(&rules[i].0) {
            return Some(i);
        }
        i = i + 1;
    }
    None
}

/// Rewrites `input` by the first rule whose pattern matches it
/// structurally, filling the replacement's wildcards from the leaves of
/// `input`; a negation around `input` is put back around the result.
pub fn map(input: &Operation, rules: &Vec<(Operation, Operation)>) -> (r: Operation)
    ensures
        r@ == mapped(input@, rules_view(rules@)),
{
    let negate = match input {
        Operation::Negate(Some(_)) => true,
        _ => false,
    };
    let found = find_rule(input, rules);
    let mappings = create_mapping_index(input);
    let x = match found {
        Some(k) => apply_mapping(&rules[k].1, &mappings),
        None => apply_mapping(input, &mappings),
    };
    if negate {
        assert(input@ matches Expr::Negate(Some(_)));
        Operation::Negate(Some(Box::new(x)))
    } else {
        x
    }
}

/// Rewrites `input` by the first matching rule of the table. `Ok` with the
/// result when its structure differs from the input; `Err` with the input
/// unchanged when no rule matches or the rewrite changes no structure.
pub fn expand(input: Operation) -> (r: Result<Operation, Operation>)
    ensures
        match r {
            Ok(x) => expansion_of(input@) == Ok::<Expr, Expr>(x@),
            Err(x) => expansion_of(input@) == Err::<Expr, Expr>(x@),
        },
{
    let rules = expansions();
    if find_rule(&input, &rules).is_none() {
        return Err(input);
    }
    let output = map(&input, &rules);
    if output.compare_structure(&input) {
        Err(input)
    } else {
        Ok(output)
    }
}

/// An expression that no rule's pattern matches comes back from `expand`
/// unchanged, as a failure.
pub proof fn lemma_no_rule_no_expansion(e: Expr)
    requires
        forall|k: int| 0 <= k < expansion_rules().len() ==> !structure_match(e, #[trigger] expansion_rules()[k].0, None),
    ensures
        expansion_of(e) == Err::<Expr, Expr>(e),
{
    let rules = expansion_rules();
    assert(first_rule(e, rules, 2) is None);
    assert(!structure_match(e, rules[1].0, None));
    assert(first_rule(e, rules, 1) is None);
    assert(!structure_match(e, rules[0].0, None));
    assert(first_rule(e, rules, 0) is None);
}

} // verus!
