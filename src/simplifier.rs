use vstd::prelude::*;
use crate::model::{Expr, complete, all_complete, lemma_all_complete, repr_of, simplify_of, product_fold, sum_fold, negated_terms, one};
use crate::number::Number;
use crate::operations::{Operation, views_of, opt_view};

verus! {

proof fn lemma_views_push(r: Seq<Operation>, x: Operation)
    ensures
        views_of(r.push(x)) == views_of(r).push(x@),
{
    assert(views_of(r.push(x)) =~= views_of(r).push(x@));
}

/// Copies the terms of `v` onto the end of `out`.
fn extend_copies(out: &mut Vec<Operation>, v: &Vec<Operation>)
    ensures
        views_of(final(out)@) == views_of(old(out)@) + views_of(v@),
{
    let ghost start = views_of(out@);
    let mut k: usize = 0;
    while k < v.len()
        invariant
            k <= v.len(),
            views_of(out@) == start + views_of(v@).subrange(0, k as int),
            start == views_of(old(out)@),
        decreases v.len() - k,
    {
        let c = v[k].duplicate();
        proof {
            lemma_views_push(out@, c);
        }
        out.push(c);
        k = k + 1;
        assert(views_of(v@).subrange(0, k as int) =~= views_of(v@).subrange(0, k - 1).push(v@[k - 1]@));
        assert(views_of(out@) =~= start + views_of(v@).subrange(0, k as int));
    }
    assert(views_of(v@).subrange(0, k as int) =~= views_of(v@));
}

impl Operation {
    /// One simplification step: numbers folded into one coefficient of a
    /// product or one total of a sum, nested sums flattened by one level,
    /// double negation cancelled, negation distributed over a sum, a quotient
    /// of two numbers computed. `None` when nothing is to be done.
    pub fn simplify(&self) -> (r: Option<Operation>)
        ensures
            opt_view(r) == simplify_of(self@),
            complete(self@) && r is Some ==> complete(r->0@),
        decreases self,
    {
        match self {
            Operation::Multiply(list) => {
                let ghost l = views_of(list@);
                assert(self@ == Expr::Multiply(l));
                proof {
                    lemma_all_complete(l, l.len() as int);
                }
                let mut c = Number::integer(1);
                let mut result: Vec<Operation> = Vec::new();
                let mut i: usize = 0;
                #[verifier::loop_isolation(false)]
                while i < list.len()
                    invariant
                        i <= list.len(),
                        l == views_of(list@),
                        complete(self@) ==> forall|j: int| 0 <= j < l.len() ==> complete(#[trigger] l[j]),
                        (c, views_of(result@)) == product_fold(l, i as int),
                        complete(self@) ==> forall|j: int| 0 <= j < result@.len() ==> complete(#[trigger] views_of(result@)[j]),
                    decreases list.len() - i,
                {
                    let x = &list[i];
                    assert(l[i as int] == x@);
                    proof {
                        assert(decreases_to!(*list => list[i as int]));
                    }
                    match x {
                        Operation::Value(a) => {
                            c = c.mul(a);
                        },
                        Operation::Mapping(_) | Operation::Text(_) => {
                            let d = x.duplicate();
                            proof {
                                lemma_views_push(result@, d);
                            }
                            result.push(d);
                        },
                        _ => {
                            match x.simplify() {
                                Some(y) => match y {
                                    Operation::Value(a) => {
                                        c = c.mul(&a);
                                    },
                                    other => {
                                        proof {
                                            lemma_views_push(result@, other);
                                        }
                                        result.push(other);
                                    },
                                },
                                None => {
                                    let d = x.duplicate();
                                    proof {
                                        lemma_views_push(result@, d);
                                    }
                                    result.push(d);
                                },
                            }
                        },
                    }
                    i = i + 1;
                }
                let coefficient = Operation::Value(c);
                proof {
                    lemma_views_push(result@, coefficient);
                }
                result.push(coefficient);
                let ghost terms = views_of(result@);
                proof {
                    lemma_all_complete(terms, terms.len() as int);
                }
                if result.len() == 1 {
                    Some(result[0].duplicate())
                } else {
                    Some(Operation::Multiply(result))
                }
            },
            Operation::Sum(list) => {
                let ghost l = views_of(list@);
                assert(self@ == Expr::Sum(l));
                proof {
                    lemma_all_complete(l, l.len() as int);
                }
                let mut t = Number::integer(0);
                let mut result: Vec<Operation> = Vec::new();
                let mut i: usize = 0;
                #[verifier::loop_isolation(false)]
                while i < list.len()
                    invariant
                        i <= list.len(),
                        l == views_of(list@),
                        complete(self@) ==> forall|j: int| 0 <= j < l.len() ==> complete(#[trigger] l[j]),
                        (t, views_of(result@)) == sum_fold(l, i as int),
                        complete(self@) ==> forall|j: int| 0 <= j < result@.len() ==> complete(#[trigger] views_of(result@)[j]),
                    decreases list.len() - i,
                {
                    let x = &list[i];
                    assert(l[i as int] == x@);
                    proof {
                        assert(decreases_to!(*list => list[i as int]));
                    }
                    match x {
                        Operation::Value(a) => {
                            t = t.add(a);
                        },
                        Operation::Mapping(_) | Operation::Text(_) | Operation::Variable(_) => {
                            let d = x.duplicate();
                            proof {
                                lemma_views_push(result@, d);
                            }
                            result.push(d);
                        },
                        Operation::Sum(v) => {
                            assert(x@ == Expr::Sum(views_of(v@)));
                            proof {
                                lemma_all_complete(views_of(v@), v@.len() as int);
                            }
                            let ghost before = views_of(result@);
                            let ghost inner = views_of(v@);
                            assert(complete(self@) ==> complete(x@));
                            assert(complete(self@) ==> all_complete(inner, inner.len() as int));
                            assert(complete(self@) ==> forall|j: int| 0 <= j < inner.len() ==> complete(#[trigger] inner[j]));
                            extend_copies(&mut result, v);
                            assert(views_of(result@) == before + inner);
                            assert forall|j: int| complete(self@) && 0 <= j < result@.len() implies complete(
                                #[trigger] views_of(result@)[j],
                            ) by {
                                if j >= before.len() {
                                    assert((before + inner)[j] == inner[j - before.len()]);
                                } else {
                                    assert((before + inner)[j] == before[j]);
                                }
                            }
                        },
                        _ => {
                            match x.simplify() {
                                Some(y) => match y {
                                    Operation::Value(a) => {
                                        t = t.add(&a);
                                    },
                                    other => {
                                        proof {
                                            lemma_views_push(result@, other);
                                        }
                                        result.push(other);
                                    },
                                },
                                None => {
                                    let d = x.duplicate();
                                    proof {
                                        lemma_views_push(result@, d);
                                    }
                                    result.push(d);
                                },
                            }
                        },
                    }
                    i = i + 1;
                }
                if !t.is_zero() {
                    let total = Operation::Value(t);
                    proof {
                        lemma_views_push(result@, total);
                    }
                    result.push(total);
                }
                let ghost terms = views_of(result@);
                proof {
                    lemma_all_complete(terms, terms.len() as int);
                }
                if result.len() == 1 {
                    Some(result[0].duplicate())
                } else {
                    Some(Operation::Sum(result))
                }
            },
            Operation::Negate(Some(child)) => {
                assert(self@ == Expr::Negate(Some(Box::new(child@))));
                match &**child {
                    Operation::Negate(second) => match second {
                        Some(x) => {
                            assert(child@ == Expr::Negate(Some(Box::new(x@))));
                            assert(complete(child@) ==> complete(x@));
                            Some(x.duplicate())
                        },
                        None => None,
                    },
                    Operation::Value(a) => Some(Operation::Value(a.neg())),
                    Operation::Sum(v) => {
                        let ghost vs = views_of(v@);
                        assert(child@ == Expr::Sum(vs));
                        assert(complete(self@) ==> complete(child@));
                        proof {
                            lemma_all_complete(vs, vs.len() as int);
                        }
                        let mut out: Vec<Operation> = Vec::new();
                        let mut k: usize = 0;
                        while k < v.len()
                            invariant
                                k <= v.len(),
                                vs == views_of(v@),
                                complete(self@) ==> forall|j: int| 0 <= j < vs.len() ==> complete(#[trigger] vs[j]),
                                views_of(out@) == negated_terms(vs).subrange(0, k as int),
                                complete(self@) ==> forall|j: int| 0 <= j < out@.len() ==> complete(#[trigger] views_of(out@)[j]),
                            decreases v.len() - k,
                        {
                            assert(vs[k as int] == v@[k as int]@);
                            let term = Operation::Negate(Some(Box::new(v[k].duplicate())));
                            proof {
                                lemma_views_push(out@, term);
                            }
                            out.push(term);
                            k = k + 1;
                            assert(views_of(out@) =~= negated_terms(vs).subrange(0, k as int));
                        }
                        assert(negated_terms(vs).subrange(0, k as int) =~= negated_terms(vs));
                        let ghost terms = views_of(out@);
                        proof {
                            lemma_all_complete(terms, terms.len() as int);
                        }
                        Some(Operation::Sum(out))
                    },
                    _ => {
                        match child.simplify() {
                            None => None,
                            Some(y) => match y {
                                Operation::Value(a) => Some(Operation::Value(a.neg())),
                                Operation::Negate(Some(x)) => {
                                    assert(y@ == Expr::Negate(Some(Box::new(x@))));
                                    assert(complete(y@) ==> complete(x@));
                                    Some(*x)
                                },
                                _ => Some(Operation::Negate(Some(Box::new(y)))),
                            },
                        }
                    },
                }
            },
            Operation::Divide(Some(n), Some(d)) => {
                assert(self@ == Expr::Divide(Some(Box::new(n@)), Some(Box::new(d@))));
                let sn = n.simplify();
                let sd = d.simplify();
                let folded = match &sn {
                    Some(Operation::Value(a)) => match &sd {
                        Some(Operation::Value(b)) => Some(a.div(b)),
                        _ => None,
                    },
                    _ => None,
                };
                if let Some(q) = folded {
                    return Some(Operation::Value(q));
                }
                if sn.is_none() && sd.is_none() {
                    return None;
                }
                let a = match sn {
                    Some(x) => x,
                    None => n.duplicate(),
                };
                let b = match sd {
                    Some(x) => x,
                    None => d.duplicate(),
                };
                Some(Operation::Divide(Some(Box::new(a)), Some(Box::new(b))))
            },
            Operation::Equal(Some(l), Some(rt)) => {
                assert(self@ == Expr::Equal(Some(Box::new(l@)), Some(Box::new(rt@))));
                let sa = l.simplify();
                let sb = rt.simplify();
                if sa.is_none() && sb.is_none() {
                    return None;
                }
                let a = match sa {
                    Some(x) => x,
                    None => l.duplicate(),
                };
                let b = match sb {
                    Some(x) => x,
                    None => rt.duplicate(),
                };
                Some(Operation::Equal(Some(Box::new(a)), Some(Box::new(b))))
            },
            Operation::Value(v) => Some(Operation::Value(*v)),
            _ => None,
        }
    }
}

/// One pass: the simplified tree, or the tree itself when nothing is to be
/// done.
pub open spec fn pass_of(e: Expr) -> Expr {
    match simplify_of(e) {
        Some(x) => x,
        None => e,
    }
}

/// A pass leaves the rendered text as it is.
pub open spec fn stable(e: Expr) -> bool {
    repr_of(pass_of(e)) == repr_of(e)
}

/// Passes repeated, at most `passes` of them, until one leaves the rendered
/// text as it was; the tree before that pass is the result.
pub open spec fn settled(e: Expr, passes: nat) -> Expr
    decreases passes,
{
    if passes == 0 || stable(e) {
        e
    } else {
        settled(pass_of(e), (passes - 1) as nat)
    }
}

/// Once the passes have settled, settling again changes nothing.
pub proof fn lemma_settled_idempotent(e: Expr, passes: nat, more: nat)
    requires
        stable(settled(e, passes)),
    ensures
        settled(settled(e, passes), more) == settled(e, passes),
{
}

impl Operation {
    /// Simplifies pass after pass until a pass leaves the rendered text as
    /// it was, or `max_passes` passes have been made.
    pub fn simplify_fully(&self, max_passes: usize) -> (r: Operation)
        requires
            complete(self@),
        ensures
            r@ == settled(self@, max_passes as nat),
            complete(r@),
    {
        let mut cur = self.duplicate();
        let mut left: usize = max_passes;
        loop
            invariant
                complete(cur@),
                settled(cur@, left as nat) == settled(self@, max_passes as nat),
            decreases left,
        {
            if left == 0 {
                return cur;
            }
            let next = match cur.simplify() {
                Some(x) => x,
                None => cur.duplicate(),
            };
            let before = cur.equation_repr();
            let after = next.equation_repr();
            if crate::text::same_text(&before, &after) {
                return cur;
            }
            cur = next;
            left = left - 1;
        }
    }
}

} // verus!
