use vstd::prelude::*;
use crate::model::{Expr, complete, value_of, latex_of};
use crate::number::Number;
use crate::operations::{Operation, views_of};
use crate::text::same_text;

verus! {

/// The bound leaves of the first `n` terms, in order, repeats included.
pub open spec fn terms_bound_leaves(l: Seq<Expr>, n: int) -> Seq<Expr>
    decreases l, n,
{
    if n <= 0 || n > l.len() {
        seq![]
    } else {
        terms_bound_leaves(l, n - 1) + bound_leaves(l[n - 1])
    }
}

/// The bound leaves (`Variable`) of a tree in traversal order, repeats
/// included.
pub open spec fn bound_leaves(e: Expr) -> Seq<Expr>
    decreases e, 0int,
{
    match e {
        Expr::Multiply(l) => terms_bound_leaves(l, l.len() as int),
        Expr::Sum(l) => terms_bound_leaves(l, l.len() as int),
        Expr::Negate(Some(a)) => bound_leaves(*a),
        Expr::Divide(Some(a), Some(b)) => bound_leaves(*a) + bound_leaves(*b),
        Expr::Equal(Some(a), Some(b)) => bound_leaves(*a) + bound_leaves(*b),
        Expr::Variable(_, _, _) => seq![e],
        _ => seq![],
    }
}

/// Some entry of `s` renders in LaTeX as `x` does.
pub open spec fn has_latex(s: Seq<Expr>, x: Expr) -> bool {
    exists|j: int| 0 <= j < s.len() && latex_of(#[trigger] s[j]) == latex_of(x)
}

/// The first `n` entries of `s`, each kept only when no entry kept before it
/// renders the same in LaTeX.
pub open spec fn first_of_each(s: Seq<Expr>, n: int) -> Seq<Expr>
    decreases n,
{
    if n <= 0 || n > s.len() {
        seq![]
    } else {
        let kept = first_of_each(s, n - 1);
        if has_latex(kept, s[n - 1]) {
            kept
        } else {
            kept.push(s[n - 1])
        }
    }
}

/// No two kept entries render the same in LaTeX, and each kept entry is
/// one of the entries it was drawn from.
pub proof fn lemma_first_of_each_distinct(s: Seq<Expr>, n: int)
    ensures
        forall|i: int, j: int|
            0 <= i < j < first_of_each(s, n).len() ==> latex_of(#[trigger] first_of_each(s, n)[i])
                != latex_of(#[trigger] first_of_each(s, n)[j]),
        forall|i: int| 0 <= i < first_of_each(s, n).len() ==> s.contains(#[trigger] first_of_each(s, n)[i]),
    decreases n,
{
    if !(n <= 0 || n > s.len()) {
        lemma_first_of_each_distinct(s, n - 1);
        let kept = first_of_each(s, n - 1);
        let x = s[n - 1];
        if !has_latex(kept, x) {
            let r = kept.push(x);
            assert forall|i: int, j: int| 0 <= i < j < r.len() implies latex_of(#[trigger] r[i]) != latex_of(
                #[trigger] r[j],
            ) by {
                if j == r.len() - 1 {
                    assert(r[i] == kept[i]);
                    assert(!(latex_of(kept[i]) == latex_of(x)));
                } else {
                    assert(r[i] == kept[i] && r[j] == kept[j]);
                }
            }
            assert forall|i: int| 0 <= i < r.len() implies s.contains(#[trigger] r[i]) by {
                if i == r.len() - 1 {
                    assert(s[n - 1] == r[i]);
                } else {
                    assert(r[i] == kept[i]);
                }
            }
        }
    }
}

/// Whether the first `n` terms contain `x` (see `contains_leaf`).
pub open spec fn terms_contain(l: Seq<Expr>, n: int, x: Expr) -> bool
    decreases l, n,
{
    if n <= 0 || n > l.len() {
        false
    } else {
        terms_contain(l, n - 1, x) || contains_leaf(l[n - 1], x)
    }
}

/// Some leaf of `e` (or a node without operands) renders in LaTeX as `x`.
pub open spec fn contains_leaf(e: Expr, x: Expr) -> bool
    decreases e, 0int,
{
    match e {
        Expr::Multiply(l) => terms_contain(l, l.len() as int, x),
        Expr::Sum(l) => terms_contain(l, l.len() as int, x),
        Expr::Negate(Some(a)) => contains_leaf(*a, x),
        Expr::Divide(Some(a), Some(b)) => contains_leaf(*a, x) || contains_leaf(*b, x),
        Expr::Equal(Some(a), Some(b)) => contains_leaf(*a, x) || contains_leaf(*b, x),
        _ => latex_of(e) == latex_of(x),
    }
}

/// The product of the numbers among the first `n` terms.
pub open spec fn numbers_product(l: Seq<Expr>, n: int) -> Number
    decreases n,
{
    if n <= 0 || n > l.len() {
        Number { num: 1, den: 1 }
    } else {
        match l[n - 1] {
            Expr::Value(a) => numbers_product(l, n - 1).product_spec(a),
            _ => numbers_product(l, n - 1),
        }
    }
}

/// The numeric coefficient of a term: a number itself; through a sign,
/// negated; the product of a product's numbers; a quotient's value, or, when
/// the numerator has none, plus or minus one over the denominator.
pub open spec fn coefficient_of(e: Expr) -> Option<Number>
    decreases e,
{
    match e {
        Expr::Value(a) => Some(a),
        Expr::Negate(Some(a)) => match coefficient_of(*a) {
            Some(v) => Some(v.negation_spec()),
            None => None,
        },
        Expr::Multiply(l) => Some(numbers_product(l, l.len() as int)),
        Expr::Divide(Some(a), Some(b)) => if value_of(*a).is_defined() {
            Some(value_of(*a).quotient_spec(value_of(*b)))
        } else if *a is Negate {
            Some(Number { num: -1i64, den: 1 }.quotient_spec(value_of(*b)))
        } else {
            Some(Number { num: 1, den: 1 }.quotient_spec(value_of(*b)))
        },
        _ => None,
    }
}

fn push_bound_leaves(out: &mut Vec<Operation>, e: &Operation)
    ensures
        views_of(final(out)@) == views_of(old(out)@) + bound_leaves(e@),
    decreases e,
{
    match e {
        Operation::Multiply(list) | Operation::Sum(list) => {
            let ghost l = views_of(list@);
            assert(e@ == Expr::Multiply(l) || e@ == Expr::Sum(l));
            let ghost start = views_of(out@);
            let mut i: usize = 0;
            #[verifier::loop_isolation(false)]
            while i < list.len()
                invariant
                    i <= list.len(),
                    views_of(out@) == start + terms_bound_leaves(l, i as int),
                decreases list.len() - i,
            {
                assert(l[i as int] == list@[i as int]@);
                proof {
                    assert(decreases_to!(*list => list[i as int]));
                }
                push_bound_leaves(out, &list[i]);
                i = i + 1;
                assert(views_of(out@) =~= start + terms_bound_leaves(l, i as int));
            }
        },
        Operation::Negate(Some(a)) => {
            assert(e@ == Expr::Negate(Some(Box::new(a@))));
            push_bound_leaves(out, a);
        },
        Operation::Divide(Some(a), Some(b)) | Operation::Equal(Some(a), Some(b)) => {
            assert(e@ == Expr::Divide(Some(Box::new(a@)), Some(Box::new(b@))) || e@ == Expr::Equal(
                Some(Box::new(a@)),
                Some(Box::new(b@)),
            ));
            push_bound_leaves(out, a);
            push_bound_leaves(out, b);
            assert(views_of(final(out)@) =~= views_of(old(out)@) + bound_leaves(e@));
        },
        Operation::Variable(_) => {
            let ghost before = views_of(out@);
            let d = e.duplicate();
            out.push(d);
            assert(views_of(out@) =~= before + bound_leaves(e@));
        },
        _ => {
            assert(views_of(final(out)@) =~= views_of(old(out)@) + bound_leaves(e@));
        },
    }
}

fn terms_contain_exec(list: &Vec<Operation>, rs: &Operation, key: &String) -> (r: bool)
    requires
        key@ == latex_of(rs@),
    ensures
        r == terms_contain(views_of(list@), list@.len() as int, rs@),
    decreases list, 1int,
{
    let ghost l = views_of(list@);
    let mut i: usize = 0;
    let mut found = false;
    while i < list.len()
        invariant
            i <= list.len(),
            l == views_of(list@),
            key@ == latex_of(rs@),
            found == terms_contain(l, i as int, rs@),
        decreases list.len() - i,
    {
        assert(l[i as int] == list@[i as int]@);
        proof {
            assert(decreases_to!(*list => list[i as int]));
        }
        let c = contains_exec(&list[i], rs, key);
        found = found || c;
        i = i + 1;
    }
    found
}

fn contains_exec(e: &Operation, rs: &Operation, key: &String) -> (r: bool)
    requires
        key@ == latex_of(rs@),
    ensures
        r == contains_leaf(e@, rs@),
    decreases e, 2int,
{
    match e {
        Operation::Multiply(list) => {
            assert(e@ == Expr::Multiply(views_of(list@)));
            terms_contain_exec(list, rs, key)
        },
        Operation::Sum(list) => {
            assert(e@ == Expr::Sum(views_of(list@)));
            terms_contain_exec(list, rs, key)
        },
        Operation::Negate(Some(a)) => {
            assert(e@ == Expr::Negate(Some(Box::new(a@))));
            contains_exec(a, rs, key)
        },
        Operation::Divide(Some(a), Some(b)) => {
            assert(e@ == Expr::Divide(Some(Box::new(a@)), Some(Box::new(b@))));
            let x = contains_exec(a, rs, key);
            let y = contains_exec(b, rs, key);
            x || y
        },
        Operation::Equal(Some(a), Some(b)) => {
            assert(e@ == Expr::Equal(Some(Box::new(a@)), Some(Box::new(b@))));
            let x = contains_exec(a, rs, key);
            let y = contains_exec(b, rs, key);
            x || y
        },
        _ => {
            let own = e.latex_string();
            same_text(&own, key)
        },
    }
}

impl Operation {
    /// The bound leaves (`Variable`) of the tree in traversal order, each
    /// LaTeX rendering kept once, at its first place.
    pub fn get_variables(&self) -> (r: Vec<Operation>)
        ensures
            views_of(r@) == first_of_each(bound_leaves(self@), bound_leaves(self@).len() as int),
            forall|i: int, j: int|
                0 <= i < j < r@.len() ==> latex_of(#[trigger] views_of(r@)[i]) != latex_of(
                    #[trigger] views_of(r@)[j],
                ),
    {
        proof {
            lemma_first_of_each_distinct(bound_leaves(self@), bound_leaves(self@).len() as int);
        }
        let mut prelim: Vec<Operation> = Vec::new();
        push_bound_leaves(&mut prelim, self);
        assert(views_of(prelim@) =~= bound_leaves(self@));
        let ghost all = views_of(prelim@);
        let mut out: Vec<Operation> = Vec::new();
        let mut keys: Vec<String> = Vec::new();
        let mut i: usize = 0;
        while i < prelim.len()
            invariant
                i <= prelim@.len(),
                all == views_of(prelim@),
                views_of(out@) == first_of_each(all, i as int),
                keys@.len() == out@.len(),
                forall|j: int| 0 <= j < keys@.len() ==> (#[trigger] keys@[j])@ == latex_of(views_of(out@)[j]),
            decreases prelim@.len() - i,
        {
            let key = prelim[i].latex_string();
            assert(all[i as int] == prelim@[i as int]@);
            let mut seen = false;
            let mut k: usize = 0;
            while k < keys.len()
                invariant
                    k <= keys@.len(),
                    keys@.len() == out@.len(),
                    forall|j: int| 0 <= j < keys@.len() ==> (#[trigger] keys@[j])@ == latex_of(views_of(out@)[j]),
                    key@ == latex_of(all[i as int]),
                    seen == exists|j: int| 0 <= j < k && latex_of(#[trigger] views_of(out@)[j]) == latex_of(all[i as int]),
                decreases keys@.len() - k,
            {
                let same = same_text(&keys[k], &key);
                assert(keys@[k as int]@ == latex_of(views_of(out@)[k as int]));
                seen = seen || same;
                k = k + 1;
            }
            if !seen {
                let ghost before = views_of(out@);
                let d = prelim[i].duplicate();
                out.push(d);
                keys.push(key);
                assert(views_of(out@) =~= before.push(all[i as int]));
                assert(forall|j: int| 0 <= j < before.len() ==> views_of(out@)[j] == before[j]);
            }
            i = i + 1;
        }
        out
    }

    /// Whether some leaf of the tree renders in LaTeX as `rs` does.
    pub fn contains_variable(&self, rs: Operation) -> (r: bool)
        ensures
            r == contains_leaf(self@, rs@),
    {
        let key = rs.latex_string();
        contains_exec(self, &rs, &key)
    }

    /// The numeric coefficient of the term (see `coefficient_of`).
    pub fn get_coefficient(&self) -> (r: Option<Number>)
        requires
            complete(self@),
        ensures
            r == coefficient_of(self@),
        decreases self,
    {
        match self {
            Operation::Value(a) => Some(*a),
            Operation::Negate(Some(a)) => {
                assert(self@ == Expr::Negate(Some(Box::new(a@))));
                match a.get_coefficient() {
                    Some(v) => Some(v.neg()),
                    None => None,
                }
            },
            Operation::Multiply(list) => {
                let ghost l = views_of(list@);
                assert(self@ == Expr::Multiply(l));
                let mut c = Number::integer(1);
                let mut i: usize = 0;
                while i < list.len()
                    invariant
                        i <= list.len(),
                        l == views_of(list@),
                        c == numbers_product(l, i as int),
                    decreases list.len() - i,
                {
                    assert(l[i as int] == list@[i as int]@);
                    match &list[i] {
                        Operation::Value(a) => {
                            c = c.mul(a);
                        },
                        _ => {},
                    }
                    i = i + 1;
                }
                Some(c)
            },
            Operation::Divide(Some(a), Some(b)) => {
                assert(self@ == Expr::Divide(Some(Box::new(a@)), Some(Box::new(b@))));
                let x = a.value();
                let y = b.value();
                if x.is_defined_value() {
                    Some(x.div(&y))
                } else {
                    match &**a {
                        Operation::Negate(_) => Some(Number::integer(-1).div(&y)),
                        _ => Some(Number::integer(1).div(&y)),
                    }
                }
            },
            _ => None,
        }
    }
}

/// The name of the node's kind.
pub open spec fn kind_name(e: Expr) -> Seq<char> {
    match e {
        Expr::Multiply(_) => seq!['M', 'u', 'l', 't', 'i', 'p', 'l', 'y'],
        Expr::Negate(_) => seq!['N', 'e', 'g', 'a', 't', 'e'],
        Expr::Sum(_) => seq!['S', 'u', 'm'],
        Expr::Divide(_, _) => seq!['D', 'i', 'v', 'i', 'd', 'e'],
        Expr::Equal(_, _) => seq!['E', 'q', 'u', 'a', 'l'],
        Expr::Value(_) => seq!['V', 'a', 'l', 'u', 'e'],
        Expr::Mapping(_) => seq!['M', 'a', 'p', 'p', 'i', 'n', 'g'],
        Expr::Text(_) => seq!['T', 'e', 'x', 't'],
        Expr::Variable(_, _, _) => seq!['V', 'a', 'r', 'i', 'a', 'b', 'l', 'e'],
    }
}

/// The terms of a sum with double negations removed (see `cleaned`).
pub open spec fn terms_cleaned(l: Seq<Expr>, n: int) -> Seq<Expr>
    decreases l, n,
{
    if n <= 0 || n > l.len() {
        seq![]
    } else {
        terms_cleaned(l, n - 1).push(cleaned(l[n - 1]))
    }
}

/// A double negation at the top is dropped; below a single negation, and in
/// the terms of a sum, the same is done again.
pub open spec fn cleaned(e: Expr) -> Expr
    decreases e, 0int,
{
    match e {
        Expr::Negate(Some(a)) => match *a {
            Expr::Negate(Some(b)) => *b,
            _ => Expr::Negate(Some(Box::new(cleaned(*a)))),
        },
        Expr::Sum(l) => Expr::Sum(terms_cleaned(l, l.len() as int)),
        _ => e,
    }
}

/// The terms with their bound leaves replaced by their values (see
/// `with_values`).
pub open spec fn terms_with_values(l: Seq<Expr>, n: int) -> Seq<Expr>
    decreases l, n,
{
    if n <= 0 || n > l.len() {
        seq![]
    } else {
        terms_with_values(l, n - 1).push(with_values(l[n - 1]))
    }
}

/// Each bound leaf that has a value replaced by a number leaf.
pub open spec fn with_values(e: Expr) -> Expr
    decreases e, 0int,
{
    match e {
        Expr::Multiply(l) => Expr::Multiply(terms_with_values(l, l.len() as int)),
        Expr::Sum(l) => Expr::Sum(terms_with_values(l, l.len() as int)),
        Expr::Negate(Some(a)) => Expr::Negate(Some(Box::new(with_values(*a)))),
        Expr::Divide(Some(a), Some(b)) => Expr::Divide(
            Some(Box::new(with_values(*a))),
            Some(Box::new(with_values(*b))),
        ),
        Expr::Equal(Some(a), Some(b)) => Expr::Equal(
            Some(Box::new(with_values(*a))),
            Some(Box::new(with_values(*b))),
        ),
        Expr::Variable(_, _, v) => if v.is_defined() { Expr::Value(v) } else { e },
        _ => e,
    }
}

/// A leaf counts as zero when its value is zero.
pub open spec fn is_zero_spec(e: Expr) -> bool {
    match e {
        Expr::Variable(_, _, v) => v.is_zero_spec(),
        Expr::Value(a) => a.is_zero_spec(),
        _ => false,
    }
}

fn cleaned_exec(e: &Operation) -> (r: Operation)
    ensures
        r@ == cleaned(e@),
    decreases e,
{
    match e {
        Operation::Negate(Some(a)) => {
            assert(e@ == Expr::Negate(Some(Box::new(a@))));
            match &**a {
                Operation::Negate(Some(b)) => {
                    assert(a@ == Expr::Negate(Some(Box::new(b@))));
                    b.duplicate()
                },
                _ => Operation::Negate(Some(Box::new(cleaned_exec(a)))),
            }
        },
        Operation::Sum(list) => {
            let ghost l = views_of(list@);
            assert(e@ == Expr::Sum(l));
            let mut out: Vec<Operation> = Vec::new();
            let mut i: usize = 0;
            #[verifier::loop_isolation(false)]
            while i < list.len()
                invariant
                    i <= list.len(),
                    views_of(out@) == terms_cleaned(l, i as int),
                decreases list.len() - i,
            {
                assert(l[i as int] == list@[i as int]@);
                proof {
                    assert(decreases_to!(*list => list[i as int]));
                }
                let c = cleaned_exec(&list[i]);
                let ghost before = views_of(out@);
                out.push(c);
                assert(views_of(out@) =~= before.push(c@));
                i = i + 1;
            }
            Operation::Sum(out)
        },
        _ => e.duplicate(),
    }
}

fn with_values_exec(e: &Operation) -> (r: Operation)
    ensures
        r@ == with_values(e@),
    decreases e,
{
    match e {
        Operation::Multiply(list) | Operation::Sum(list) => {
            let ghost l = views_of(list@);
            let mut out: Vec<Operation> = Vec::new();
            let mut i: usize = 0;
            #[verifier::loop_isolation(false)]
            while i < list.len()
                invariant
                    i <= list.len(),
                    l == views_of(list@),
                    views_of(out@) == terms_with_values(l, i as int),
                decreases list.len() - i,
            {
                assert(l[i as int] == list@[i as int]@);
                proof {
                    assert(decreases_to!(*list => list[i as int]));
                }
                let c = with_values_exec(&list[i]);
                let ghost before = views_of(out@);
                out.push(c);
                assert(views_of(out@) =~= before.push(c@));
                i = i + 1;
            }
            match e {
                Operation::Multiply(_) => {
                    assert(e@ == Expr::Multiply(l));
                    Operation::Multiply(out)
                },
                _ => {
                    assert(e@ == Expr::Sum(l));
                    Operation::Sum(out)
                },
            }
        },
        Operation::Negate(Some(a)) => {
            assert(e@ == Expr::Negate(Some(Box::new(a@))));
            Operation::Negate(Some(Box::new(with_values_exec(a))))
        },
        Operation::Divide(Some(a), Some(b)) => {
            assert(e@ == Expr::Divide(Some(Box::new(a@)), Some(Box::new(b@))));
            Operation::Divide(Some(Box::new(with_values_exec(a))), Some(Box::new(with_values_exec(b))))
        },
        Operation::Equal(Some(a), Some(b)) => {
            assert(e@ == Expr::Equal(Some(Box::new(a@)), Some(Box::new(b@))));
            Operation::Equal(Some(Box::new(with_values_exec(a))), Some(Box::new(with_values_exec(b))))
        },
        Operation::Variable(v) => {
            if v.value.is_defined_value() {
                Operation::Value(v.value)
            } else {
                e.duplicate()
            }
        },
        _ => e.duplicate(),
    }
}

impl Operation {
    /// The name of the node's kind: `Multiply`, `Sum`, `Value`, ...
    pub fn print_operation_type(&self) -> (r: &'static str)
        ensures
            r@ == kind_name(self@),
    {
        proof {
            reveal_strlit("Multiply");
            reveal_strlit("Negate");
            reveal_strlit("Sum");
            reveal_strlit("Divide");
            reveal_strlit("Equal");
            reveal_strlit("Value");
            reveal_strlit("Mapping");
            reveal_strlit("Text");
            reveal_strlit("Variable");
        }
        let r = match self {
            Operation::Multiply(_) => "Multiply",
            Operation::Negate(_) => "Negate",
            Operation::Sum(_) => "Sum",
            Operation::Divide(_, _) => "Divide",
            Operation::Equal(_, _) => "Equal",
            Operation::Value(_) => "Value",
            Operation::Mapping(_) => "Mapping",
            Operation::Text(_) => "Text",
            Operation::Variable(_) => "Variable",
        };
        assert(r@ =~= kind_name(self@));
        r
    }

    /// Removes a double negation at the top; below a single negation and in
    /// the terms of a sum, does the same again.
    pub fn cleanup(&mut self)
        ensures
            final(self)@ == cleaned(old(self)@),
    {
        let c = cleaned_exec(self);
        *self = c;
    }

    /// Replaces each bound leaf that has a value by a number leaf.
    pub fn apply_variables(&mut self)
        ensures
            final(self)@ == with_values(old(self)@),
    {
        let c = with_values_exec(self);
        *self = c;
    }

    /// The number zero.
    pub fn zero() -> (r: Operation)
        ensures
            r@ == Expr::Value(Number { num: 0, den: 1 }),
    {
        Operation::Value(Number::integer(0))
    }

    /// Whether the node is a number, or a bound leaf, whose value is zero.
    pub fn is_zero(&self) -> (r: bool)
        ensures
            r == is_zero_spec(self@),
    {
        match self {
            Operation::Variable(v) => v.value.is_zero(),
            Operation::Value(a) => a.is_zero(),
            _ => false,
        }
    }

    /// Term `index` of a sum or product.
    pub fn index(&self, index: usize) -> (r: &Operation)
        requires
            self@ is Sum || self@ is Multiply,
            self@ is Sum ==> index < self@->Sum_0.len(),
            self@ is Multiply ==> index < self@->Multiply_0.len(),
        ensures
            self@ is Sum ==> r@ == self@->Sum_0[index as int],
            self@ is Multiply ==> r@ == self@->Multiply_0[index as int],
    {
        match self {
            Operation::Multiply(a) => {
                assert(self@ == Expr::Multiply(views_of(a@)));
                &a[index]
            },
            Operation::Sum(a) => {
                assert(self@ == Expr::Sum(views_of(a@)));
                &a[index]
            },
            _ => {
                assert(false);
                self
            },
        }
    }
}

/// Two terms added: sums are joined into one, two numbers added, anything
/// else put in a sum of two.
pub open spec fn combined(a: Expr, b: Expr) -> Expr {
    match (a, b) {
        (Expr::Sum(x), Expr::Sum(y)) => Expr::Sum(x + y),
        (Expr::Sum(x), _) => Expr::Sum(x.push(b)),
        (_, Expr::Sum(y)) => Expr::Sum(seq![a] + y),
        (Expr::Value(p), Expr::Value(q)) => Expr::Value(p.sum_spec(q)),
        _ => Expr::Sum(seq![a, b]),
    }
}

impl Operation {
    /// The two terms added (see `combined`).
    pub fn plus(self, rhs: Operation) -> (r: Operation)
        ensures
            r@ == combined(self@, rhs@),
    {
        let ghost a = self@;
        let ghost b = rhs@;
        match self {
            Operation::Sum(mut x) => match rhs {
                Operation::Sum(mut y) => {
                    let ghost xs = x@;
                    let ghost ys = y@;
                    x.append(&mut y);
                    assert(views_of(x@) =~= views_of(xs) + views_of(ys));
                    Operation::Sum(x)
                },
                other => {
                    let ghost xs = x@;
                    x.push(other);
                    assert(views_of(x@) =~= views_of(xs).push(b));
                    Operation::Sum(x)
                },
            },
            first => match rhs {
                Operation::Sum(mut y) => {
                    let ghost ys = y@;
                    y.insert(0, first);
                    assert(views_of(y@) =~= seq![a] + views_of(ys));
                    Operation::Sum(y)
                },
                second => {
                    let folded = match (&first, &second) {
                        (Operation::Value(p), Operation::Value(q)) => Some(p.add(q)),
                        _ => None,
                    };
                    match folded {
                        Some(v) => Operation::Value(v),
                        None => {
                            let mut v: Vec<Operation> = Vec::new();
                            v.push(first);
                            v.push(second);
                            assert(views_of(v@) =~= seq![a, b]);
                            Operation::Sum(v)
                        },
                    }
                },
            },
        }
    }
}

impl core::ops::Add for Operation {
    type Output = Operation;

    fn add(self, rhs: Operation) -> Operation {
        self.plus(rhs)
    }
}

/// `+` makes no claim of its own; `plus` states what it returns.
impl vstd::std_specs::ops::AddSpecImpl for Operation {
    open spec fn obeys_add_spec() -> bool {
        false
    }

    open spec fn add_req(self, rhs: Operation) -> bool {
        true
    }

    open spec fn add_spec(self, rhs: Operation) -> Operation {
        arbitrary()
    }
}

} // verus!
