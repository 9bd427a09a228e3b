use vstd::prelude::*;
use vstd::string::*;
use crate::number::{Number, literal_spec};
use crate::text::{push_char, push_text, copy_text, same_text};

verus! {

/// The node of a binary expression tree: an operator, or a leaf.
#[derive(Debug)]
pub enum Operator {
    Add,
    Subtract,
    Multiply,
    Divide,
    Exponentiation,
    Collect,
    Value(Number),
    Variable(String),
}

/// A binary expression tree, as the parser builds it. A missing left
/// operand stands for a unary sign (`-(a)`).
#[derive(Debug)]
pub struct Equation {
    pub root: Operator,
    pub left: Option<Box<Equation>>,
    pub right: Option<Box<Equation>>,
}

/// The model of an `Operator`.
pub enum Root {
    Add,
    Subtract,
    Multiply,
    Divide,
    Exponentiation,
    Collect,
    Value(Number),
    Variable(Seq<char>),
}

/// The model of an `Equation`.
pub struct Tree {
    pub root: Root,
    pub left: Option<Box<Tree>>,
    pub right: Option<Box<Tree>>,
}

pub open spec fn root_view(o: Operator) -> Root {
    match o {
        Operator::Add => Root::Add,
        Operator::Subtract => Root::Subtract,
        Operator::Multiply => Root::Multiply,
        Operator::Divide => Root::Divide,
        Operator::Exponentiation => Root::Exponentiation,
        Operator::Collect => Root::Collect,
        Operator::Value(n) => Root::Value(n),
        Operator::Variable(s) => Root::Variable(s@),
    }
}

pub open spec fn branch_view(c: Option<Box<Equation>>) -> Option<Box<Tree>>
    decreases c,
{
    match c {
        Some(b) => Some(Box::new(tree_view(*b))),
        None => None,
    }
}

pub open spec fn tree_view(e: Equation) -> Tree
    decreases e,
{
    Tree { root: root_view(e.root), left: branch_view(e.left), right: branch_view(e.right) }
}

impl View for Equation {
    type V = Tree;

    open spec fn view(&self) -> Tree {
        tree_view(*self)
    }
}

pub open spec fn leaf_tree(r: Root) -> Tree {
    Tree { root: r, left: None, right: None }
}

/// A node missing one of its operands, or both.
pub open spec fn is_leaf_spec(t: Tree) -> bool {
    t.left is None || t.right is None
}

/// The text of a node alone.
pub open spec fn root_text(r: Root) -> Seq<char> {
    match r {
        Root::Add => seq!['+'],
        Root::Subtract => seq!['-'],
        Root::Multiply => seq!['*'],
        Root::Divide => seq!['/'],
        Root::Exponentiation => seq!['^'],
        Root::Collect => seq![','],
        Root::Value(n) => n.text_spec(),
        Root::Variable(s) => s,
    }
}

/// The text of an operand: parenthesised when it is itself a complete
/// node with two operands.
pub open spec fn operand_text(x: Tree) -> Seq<char>
    decreases x, 1int,
{
    if is_leaf_spec(x) {
        tree_text(x)
    } else {
        seq!['('] + tree_text(x) + seq![')']
    }
}

/// The text of a tree: left operand, node, right operand.
pub open spec fn tree_text(t: Tree) -> Seq<char>
    decreases t, 0int,
{
    let l = match t.left {
        Some(x) => operand_text(*x),
        None => seq![],
    };
    let r = match t.right {
        Some(x) => operand_text(*x),
        None => seq![],
    };
    l + root_text(t.root) + r
}

fn root_copy(r: &Operator) -> (c: Operator)
    ensures
        root_view(c) == root_view(*r),
{
    match r {
        Operator::Add => Operator::Add,
        Operator::Subtract => Operator::Subtract,
        Operator::Multiply => Operator::Multiply,
        Operator::Divide => Operator::Divide,
        Operator::Exponentiation => Operator::Exponentiation,
        Operator::Collect => Operator::Collect,
        Operator::Value(n) => Operator::Value(*n),
        Operator::Variable(s) => Operator::Variable(copy_text(s)),
    }
}

fn branch_copy(c: &Option<Box<Equation>>) -> (r: Option<Box<Equation>>)
    ensures
        branch_view(r) == branch_view(*c),
    decreases c,
{
    match c {
        Some(b) => Some(Box::new((**b).duplicate())),
        None => None,
    }
}

fn push_operand_text(s: &mut String, x: &Equation)
    ensures
        final(s)@ == old(s)@ + operand_text(x@),
    decreases x, 1int,
{
    let t = x.equation_repr();
    if x.leaf() {
        push_text(s, &t);
    } else {
        push_char(s, '(');
        push_text(s, &t);
        push_char(s, ')');
    }
    assert(final(s)@ =~= old(s)@ + operand_text(x@));
}

fn push_root_text(s: &mut String, r: &Operator)
    ensures
        final(s)@ == old(s)@ + root_text(root_view(*r)),
{
    match r {
        Operator::Add => push_char(s, '+'),
        Operator::Subtract => push_char(s, '-'),
        Operator::Multiply => push_char(s, '*'),
        Operator::Divide => push_char(s, '/'),
        Operator::Exponentiation => push_char(s, '^'),
        Operator::Collect => push_char(s, ','),
        Operator::Value(n) => {
            let t = n.to_text();
            push_text(s, &t);
        },
        Operator::Variable(v) => push_text(s, v),
    }
    assert(final(s)@ =~= old(s)@ + root_text(root_view(*r)));
}

impl Equation {
    /// A node with no operands.
    pub fn new(root: Operator) -> (r: Equation)
        ensures
            r@ == leaf_tree(root_view(root)),
    {
        Equation { root, left: None, right: None }
    }

    /// A copy of the whole tree.
    pub fn duplicate(&self) -> (r: Equation)
        ensures
            r@ == self@,
        decreases self,
    {
        Equation { root: root_copy(&self.root), left: branch_copy(&self.left), right: branch_copy(&self.right) }
    }

    /// Whether an operand is missing.
    pub fn leaf(&self) -> (r: bool)
        ensures
            r == is_leaf_spec(self@),
    {
        self.left.is_none() || self.right.is_none()
    }

    /// The text of the tree (see `tree_text`).
    pub fn equation_repr(&self) -> (r: String)
        ensures
            r@ == tree_text(self@),
        decreases self, 0int,
    {
        let mut out = String::new();
        match &self.left {
            Some(left) => push_operand_text(&mut out, left),
            None => {},
        }
        push_root_text(&mut out, &self.root);
        match &self.right {
            Some(right) => push_operand_text(&mut out, right),
            None => {},
        }
        assert(out@ =~= tree_text(self@));
        out
    }
}

pub open spec fn branch_weight(c: Option<Box<Tree>>) -> nat
    decreases c,
{
    match c {
        Some(x) => weight(*x),
        None => 0,
    }
}

/// A measure that every rewrite of the simplifier lowers: a node counts
/// one, and a sign with no left operand three.
pub open spec fn weight(t: Tree) -> nat
    decreases t,
{
    (if t.root is Subtract && t.left is None && t.right is Some { 3nat } else { 1nat })
        + branch_weight(t.left) + branch_weight(t.right)
}

pub open spec fn is_value(t: Tree) -> bool {
    t.root is Value
}

pub open spec fn zero_leaf(t: Tree) -> bool {
    t.root matches Root::Value(n) && n.is_zero_spec()
}

pub open spec fn one_leaf(t: Tree) -> bool {
    t.root matches Root::Value(n) && n.is_one_spec()
}

pub open spec fn number_leaf(n: Number) -> Tree {
    leaf_tree(Root::Value(n))
}

/// Every product has an operand and every quotient a divisor, at every
/// depth: the trees the simplifier accepts.
pub open spec fn tree_ok(t: Tree) -> bool
    decreases t,
{
    &&& (t.root is Multiply ==> !(t.left is None && t.right is None))
    &&& (t.root is Divide ==> t.right is Some)
    &&& (t.left matches Some(x) ==> tree_ok(*x))
    &&& (t.right matches Some(x) ==> tree_ok(*x))
}

/// The identity of the node itself, applied once: numbers folded, zero
/// added or subtracted dropped, products by zero or one and quotients by
/// one reduced. A sign with no left operand becomes a product by -1; a
/// product or quotient missing its left operand becomes zero.
pub open spec fn top_rule(t: Tree) -> Tree {
    match t.root {
        Root::Add | Root::Subtract => match (t.left, t.right) {
            (Some(l), Some(r)) => {
                if is_value(*l) && is_value(*r) {
                    let a = l.root->Value_0;
                    let b = r.root->Value_0;
                    number_leaf(if t.root is Add { a.sum_spec(b) } else { a.difference_spec(b) })
                } else if zero_leaf(*r) {
                    *l
                } else if zero_leaf(*l) {
                    if t.root is Add { *r } else { t }
                } else {
                    t
                }
            },
            (Some(l), None) => *l,
            (None, Some(r)) => if t.root is Subtract {
                Tree {
                    root: Root::Multiply,
                    left: Some(Box::new(number_leaf(Number { num: -1i64, den: 1 }))),
                    right: t.right,
                }
            } else {
                *r
            },
            (None, None) => t,
        },
        Root::Multiply => match (t.left, t.right) {
            (Some(l), Some(r)) => {
                if is_value(*l) && is_value(*r) {
                    number_leaf(l.root->Value_0.product_spec(r.root->Value_0))
                } else if zero_leaf(*r) || zero_leaf(*l) {
                    number_leaf(Number { num: 0, den: 1 })
                } else if one_leaf(*l) {
                    *r
                } else if one_leaf(*r) {
                    *l
                } else {
                    t
                }
            },
            (None, None) => t,
            _ => number_leaf(Number { num: 0, den: 1 }),
        },
        Root::Divide => match (t.left, t.right) {
            (Some(l), Some(r)) => {
                if is_value(*l) && is_value(*r) {
                    number_leaf(l.root->Value_0.quotient_spec(r.root->Value_0))
                } else if one_leaf(*r) {
                    *l
                } else {
                    t
                }
            },
            (None, Some(_)) => number_leaf(Number { num: 0, den: 1 }),
            _ => t,
        },
        _ => t,
    }
}

/// The identity step never raises the weight, and leaves it as it was only
/// when it changes nothing.
pub proof fn lemma_top_rule_weight(t: Tree)
    ensures
        weight(top_rule(t)) <= weight(t),
        weight(top_rule(t)) == weight(t) ==> top_rule(t) == t,
        top_rule(t).left matches Some(x) ==> weight(*x) < weight(t),
        top_rule(t).right matches Some(x) ==> weight(*x) < weight(t),
        tree_ok(t) ==> tree_ok(top_rule(t)),
{
    let u = top_rule(t);
    assert(forall|n: Number| weight(#[trigger] number_leaf(n)) == 1);
    match t.left {
        Some(x) => {
            assert(weight(*x) < weight(t));
            assert(branch_weight(x.left) < weight(*x));
            assert(branch_weight(x.right) < weight(*x));
        },
        None => {},
    }
    match t.right {
        Some(x) => {
            assert(weight(*x) < weight(t));
            assert(branch_weight(x.left) < weight(*x));
            assert(branch_weight(x.right) < weight(*x));
        },
        None => {},
    }
    if u.left is Some {
        assert(weight(*u.left->0) == branch_weight(u.left));
    }
    if u.right is Some {
        assert(weight(*u.right->0) == branch_weight(u.right));
    }
    assert(tree_ok(number_leaf(Number { num: -1i64, den: 1 })));
}

/// The simplifier: the identity step at the node, then each operand
/// simplified, repeated until a pass changes nothing. Every pass that
/// changes the tree lowers its weight, which bounds the repetitions.
pub open spec fn simplified(t: Tree) -> Tree
    decreases weight(t),
{
    let u = top_rule(t);
    let l = match u.left {
        Some(x) => {
            proof {
                lemma_top_rule_weight(t);
            }
            Some(Box::new(simplified(*x)))
        },
        None => None,
    };
    let r = match u.right {
        Some(x) => {
            proof {
                lemma_top_rule_weight(t);
            }
            Some(Box::new(simplified(*x)))
        },
        None => None,
    };
    let c = Tree { root: u.root, left: l, right: r };
    if c != t && weight(c) < weight(t) {
        simplified(c)
    } else {
        c
    }
}

/// Simplifying never raises the weight, leaves it as it was only when it
/// changes nothing, and keeps a tree that the simplifier accepts acceptable.
pub proof fn lemma_simplified_weight(t: Tree)
    ensures
        weight(simplified(t)) <= weight(t),
        weight(simplified(t)) == weight(t) ==> simplified(t) == t,
        tree_ok(t) ==> tree_ok(simplified(t)),
    decreases weight(t),
{
    lemma_top_rule_weight(t);
    let u = top_rule(t);
    match u.left {
        Some(x) => lemma_simplified_weight(*x),
        None => {},
    }
    match u.right {
        Some(x) => lemma_simplified_weight(*x),
        None => {},
    }
    let l = match u.left {
        Some(x) => Some(Box::new(simplified(*x))),
        None => None,
    };
    let r = match u.right {
        Some(x) => Some(Box::new(simplified(*x))),
        None => None,
    };
    let c = Tree { root: u.root, left: l, right: r };
    assert(weight(c) <= weight(u));
    if weight(c) == weight(u) {
        assert(c == u);
    }
    if c != t && weight(c) < weight(t) {
        lemma_simplified_weight(c);
    }
}

fn same_root(a: &Operator, b: &Operator) -> (r: bool)
    ensures
        r == (root_view(*a) == root_view(*b)),
{
    match (a, b) {
        (Operator::Add, Operator::Add) => true,
        (Operator::Subtract, Operator::Subtract) => true,
        (Operator::Multiply, Operator::Multiply) => true,
        (Operator::Divide, Operator::Divide) => true,
        (Operator::Exponentiation, Operator::Exponentiation) => true,
        (Operator::Collect, Operator::Collect) => true,
        (Operator::Value(x), Operator::Value(y)) => x.num == y.num && x.den == y.den,
        (Operator::Variable(x), Operator::Variable(y)) => same_text(x, y),
        _ => false,
    }
}

fn same_branch(a: &Option<Box<Equation>>, b: &Option<Box<Equation>>) -> (r: bool)
    ensures
        r == (branch_view(*a) == branch_view(*b)),
    decreases a,
{
    match (a, b) {
        (Some(x), Some(y)) => {
            let r = x.same_tree(y);
            proof {
                if !r {
                    assert(branch_view(*a)->0 != branch_view(*b)->0);
                }
            }
            r
        },
        (None, None) => true,
        _ => false,
    }
}

impl Equation {
    /// Whether the two trees are identical.
    pub fn same_tree(&self, o: &Equation) -> (r: bool)
        ensures
            r == (self@ == o@),
        decreases self,
    {
        same_root(&self.root, &o.root) && same_branch(&self.left, &o.left) && same_branch(
            &self.right,
            &o.right,
        )
    }
}

fn number_node(n: Number) -> (r: Equation)
    ensures
        r@ == number_leaf(n),
{
    Equation::new(Operator::Value(n))
}

fn value_of_root(e: &Equation) -> (r: Option<Number>)
    ensures
        r is Some <==> is_value(e@),
        r matches Some(n) ==> e@.root == Root::Value(n),
{
    match &e.root {
        Operator::Value(n) => Some(*n),
        _ => None,
    }
}

/// The identity step (see `top_rule`).
fn top_rule_exec(e: &Equation) -> (r: Equation)
    ensures
        r@ == top_rule(e@),
{
    let additive = match &e.root {
        Operator::Add => true,
        Operator::Subtract => true,
        _ => false,
    };
    let is_add = match &e.root {
        Operator::Add => true,
        _ => false,
    };
    if additive {
        match (&e.left, &e.right) {
            (Some(l), Some(r)) => {
                let a = value_of_root(l);
                let b = value_of_root(r);
                if a.is_some() && b.is_some() {
                    let x = a.unwrap();
                    let y = b.unwrap();
                    return number_node(if is_add { x.add(&y) } else { x.sub(&y) });
                }
                if b.is_some() && b.unwrap().is_zero() {
                    return (**l).duplicate();
                }
                if a.is_some() && a.unwrap().is_zero() {
                    if is_add {
                        return (**r).duplicate();
                    }
                }
                e.duplicate()
            },
            (Some(l), None) => (**l).duplicate(),
            (None, Some(r)) => {
                if is_add {
                    (**r).duplicate()
                } else {
                    Equation {
                        root: Operator::Multiply,
                        left: Some(Box::new(number_node(Number::integer(-1)))),
                        right: branch_copy(&e.right),
                    }
                }
            },
            (None, None) => e.duplicate(),
        }
    } else {
        match &e.root {
            Operator::Multiply => match (&e.left, &e.right) {
                (Some(l), Some(r)) => {
                    let a = value_of_root(l);
                    let b = value_of_root(r);
                    if a.is_some() && b.is_some() {
                        return number_node(a.unwrap().mul(&b.unwrap()));
                    }
                    if (b.is_some() && b.unwrap().is_zero()) || (a.is_some() && a.unwrap().is_zero()) {
                        return number_node(Number::integer(0));
                    }
                    if a.is_some() && a.unwrap().is_one() {
                        return (**r).duplicate();
                    }
                    if b.is_some() && b.unwrap().is_one() {
                        return (**l).duplicate();
                    }
                    e.duplicate()
                },
                (None, None) => e.duplicate(),
                _ => number_node(Number::integer(0)),
            },
            Operator::Divide => match (&e.left, &e.right) {
                (Some(l), Some(r)) => {
                    let a = value_of_root(l);
                    let b = value_of_root(r);
                    if a.is_some() && b.is_some() {
                        return number_node(a.unwrap().div(&b.unwrap()));
                    }
                    if b.is_some() && b.unwrap().is_one() {
                        return (**l).duplicate();
                    }
                    e.duplicate()
                },
                (None, Some(_)) => number_node(Number::integer(0)),
                _ => e.duplicate(),
            },
            _ => e.duplicate(),
        }
    }
}

fn simplify_tree(e: &Equation) -> (r: Equation)
    requires
        tree_ok(e@),
    ensures
        r@ == simplified(e@),
        tree_ok(r@),
    decreases weight(e@),
{
    let u = top_rule_exec(e);
    proof {
        lemma_top_rule_weight(e@);
        lemma_simplified_weight(e@);
    }
    let left = match &u.left {
        Some(x) => Some(Box::new(simplify_tree(x))),
        None => None,
    };
    let right = match &u.right {
        Some(x) => Some(Box::new(simplify_tree(x))),
        None => None,
    };
    let c = Equation { root: root_copy(&u.root), left, right };
    proof {
        let t = e@;
        let uu = top_rule(t);
        match uu.left {
            Some(x) => lemma_simplified_weight(*x),
            None => {},
        }
        match uu.right {
            Some(x) => lemma_simplified_weight(*x),
            None => {},
        }
        assert(weight(c@) <= weight(uu));
        if weight(c@) == weight(t) {
            assert(c@ == uu);
            assert(c@ == t);
        }
    }
    if !c.same_tree(e) {
        simplify_tree(&c)
    } else {
        c
    }
}

/// Simplifying an already simplified tree changes nothing.
pub proof fn lemma_simplify_idempotent(t: Tree)
    ensures
        simplified(simplified(t)) == simplified(t),
    decreases weight(t),
{
    lemma_top_rule_weight(t);
    lemma_simplified_weight(t);
    let u = top_rule(t);
    let l = match u.left {
        Some(x) => Some(Box::new(simplified(*x))),
        None => None,
    };
    let r = match u.right {
        Some(x) => Some(Box::new(simplified(*x))),
        None => None,
    };
    let c = Tree { root: u.root, left: l, right: r };
    if c != t && weight(c) < weight(t) {
        lemma_simplify_idempotent(c);
    }
}

/// A value that can be brought to a simpler form in place.
pub trait Malleable: Sized {
    type Model;

    spec fn model(&self) -> Self::Model;

    /// Whether the simplifier accepts the value.
    spec fn simplifiable(&self) -> bool;

    /// What simplifying makes of a model.
    spec fn reduced(m: Self::Model) -> Self::Model;

    /// Whether the value can be simplified at all.
    fn malleable(&self) -> (r: bool)
        ensures
            r,
    ;

    /// Simplifies the value in place and returns a copy of the result.
    fn simplify(&mut self) -> (r: Self)
        requires
            old(self).simplifiable(),
        ensures
            final(self).model() == Self::reduced(old(self).model()),
            r.model() == final(self).model(),
    ;
}

impl Malleable for Equation {
    type Model = Tree;

    open spec fn model(&self) -> Tree {
        self@
    }

    open spec fn simplifiable(&self) -> bool {
        tree_ok(self@)
    }

    open spec fn reduced(m: Tree) -> Tree {
        simplified(m)
    }

    fn malleable(&self) -> (r: bool) {
        true
    }

    fn simplify(&mut self) -> (r: Equation) {
        let s = simplify_tree(self);
        *self = s;
        self.duplicate()
    }
}

pub open spec fn trees_of(v: Seq<Equation>) -> Seq<Tree> {
    Seq::new(v.len(), |i: int| v[i]@)
}

impl Malleable for Vec<Equation> {
    type Model = Seq<Tree>;

    open spec fn model(&self) -> Seq<Tree> {
        trees_of(self@)
    }

    open spec fn simplifiable(&self) -> bool {
        forall|i: int| 0 <= i < self@.len() ==> tree_ok(#[trigger] trees_of(self@)[i])
    }

    open spec fn reduced(m: Seq<Tree>) -> Seq<Tree> {
        Seq::new(m.len(), |i: int| simplified(m[i]))
    }

    fn malleable(&self) -> (r: bool) {
        true
    }

    fn simplify(&mut self) -> (r: Vec<Equation>) {
        let ghost before = trees_of(self@);
        let mut out: Vec<Equation> = Vec::new();
        let mut i: usize = 0;
        while i < self.len()
            invariant
                i <= self@.len(),
                self@.len() == before.len(),
                before == trees_of(old(self)@),
                forall|j: int| i <= j < self@.len() ==> self@[j]@ == before[j] && tree_ok(
                    #[trigger] before[j],
                ),
                forall|j: int| 0 <= j < i ==> self@[j]@ == simplified(#[trigger] before[j]),
                out@.len() == i,
                forall|j: int| 0 <= j < i ==> (#[trigger] out@[j])@ == self@[j]@,
            decreases self@.len() - i,
        {
            assert(self@[i as int]@ == before[i as int]);
            let s = simplify_tree(&self[i]);
            out.push(s.duplicate());
            self.set(i, s);
            i = i + 1;
        }
        assert(trees_of(self@) =~= Self::reduced(before));
        assert(trees_of(out@) =~= trees_of(self@));
        out
    }
}

/// The leaves' texts in pre-order: the node, then the left operand, then
/// the right one.
pub open spec fn variables_of(t: Tree) -> Seq<Seq<char>>
    decreases t,
{
    let own: Seq<Seq<char>> = match t.root {
        Root::Value(n) => seq![n.text_spec()],
        Root::Variable(s) => seq![s],
        _ => seq![],
    };
    let l = match t.left {
        Some(x) => variables_of(*x),
        None => seq![],
    };
    let r = match t.right {
        Some(x) => variables_of(*x),
        None => seq![],
    };
    own + l + r
}

/// The first `n` texts of `s`, each kept only where it first occurs.
pub open spec fn distinct_texts(s: Seq<Seq<char>>, n: int) -> Seq<Seq<char>>
    decreases n,
{
    if n <= 0 || n > s.len() {
        seq![]
    } else {
        let kept = distinct_texts(s, n - 1);
        if kept.contains(s[n - 1]) {
            kept
        } else {
            kept.push(s[n - 1])
        }
    }
}

/// The kept texts are pairwise different, and each is one of the texts it
/// was drawn from.
pub proof fn lemma_distinct_texts(s: Seq<Seq<char>>, n: int)
    ensures
        forall|i: int, j: int|
            0 <= i < j < distinct_texts(s, n).len() ==> #[trigger] distinct_texts(s, n)[i]
                != #[trigger] distinct_texts(s, n)[j],
        forall|i: int| 0 <= i < distinct_texts(s, n).len() ==> s.contains(#[trigger] distinct_texts(s, n)[i]),
    decreases n,
{
    if !(n <= 0 || n > s.len()) {
        lemma_distinct_texts(s, n - 1);
        let kept = distinct_texts(s, n - 1);
        if !kept.contains(s[n - 1]) {
            let r = kept.push(s[n - 1]);
            assert forall|i: int, j: int| 0 <= i < j < r.len() implies #[trigger] r[i] != #[trigger] r[j] by {
                if j == r.len() - 1 {
                    assert(r[i] == kept[i]);
                } else {
                    assert(r[i] == kept[i] && r[j] == kept[j]);
                }
            }
            assert forall|i: int| 0 <= i < r.len() implies s.contains(#[trigger] r[i]) by {
                if i == r.len() - 1 {
                    assert(s[n - 1] == r[i]);
                } else {
                    assert(r[i] == kept[i]);
                }
            }
        }
    }
}

/// The tree with each variable named `o` renamed to `n`; when `n` reads as
/// a number, such a variable becomes that number and loses its operands.
pub open spec fn replaced(t: Tree, o: Seq<char>, n: Seq<char>) -> Tree
    decreases t,
{
    let l = match t.left {
        Some(x) => Some(Box::new(replaced(*x, o, n))),
        None => None,
    };
    let r = match t.right {
        Some(x) => Some(Box::new(replaced(*x, o, n))),
        None => None,
    };
    if t.root == Root::Variable(o) {
        match literal_spec(n) {
            Some(v) => leaf_tree(Root::Value(v)),
            None => Tree { root: Root::Variable(n), left: l, right: r },
        }
    } else {
        Tree { root: t.root, left: l, right: r }
    }
}

pub open spec fn is_summation_spec(t: Tree) -> bool {
    (t.root is Add || t.root is Subtract) && t.left is Some && t.right is Some
}

/// `-1 * x`.
pub open spec fn negated_tree(x: Tree) -> Tree {
    Tree {
        root: Root::Multiply,
        left: Some(Box::new(leaf_tree(Root::Value(Number { num: -1i64, den: 1 })))),
        right: Some(Box::new(x)),
    }
}

/// The terms of a chain of additions and subtractions: the right operand's
/// terms (each times -1 under a subtraction), then the left operand's.
pub open spec fn summands(t: Tree) -> Seq<Tree>
    decreases t,
{
    if is_summation_spec(t) {
        let rs = summands(*t.right->0);
        let rs2 = if t.root is Subtract {
            Seq::new(rs.len(), |i: int| negated_tree(rs[i]))
        } else {
            rs
        };
        rs2 + summands(*t.left->0)
    } else {
        seq![t]
    }
}

/// Nodes of one kind; numbers and variables count as one kind.
pub open spec fn same_root_kind(a: Root, b: Root) -> bool {
    ||| a is Add && b is Add
    ||| a is Subtract && b is Subtract
    ||| a is Multiply && b is Multiply
    ||| a is Divide && b is Divide
    ||| a is Exponentiation && b is Exponentiation
    ||| a is Collect && b is Collect
    ||| (a is Value || a is Variable) && (b is Value || b is Variable)
}

/// Shape-level equivalence: two complete nodes of one kind whose operands
/// match, or two leaves of one kind.
pub open spec fn tree_structure_match(a: Tree, b: Tree) -> bool
    decreases a,
{
    if !is_leaf_spec(a) && !is_leaf_spec(b) {
        same_root_kind(a.root, b.root) && tree_structure_match(*a.left->0, *b.left->0)
            && tree_structure_match(*a.right->0, *b.right->0)
    } else if is_leaf_spec(a) && is_leaf_spec(b) {
        same_root_kind(a.root, b.root)
    } else {
        false
    }
}

fn push_branch_variables(out: &mut Vec<String>, c: &Option<Box<Equation>>)
    ensures
        tokens_of(final(out)@) == tokens_of(old(out)@) + match branch_view(*c) {
            Some(x) => variables_of(*x),
            None => seq![],
        },
    decreases c, 0int,
{
    match c {
        Some(x) => {
            let mut v = x.all_variables();
            let ghost a = tokens_of(out@);
            let ghost b = tokens_of(v@);
            out.append(&mut v);
            assert(tokens_of(final(out)@) =~= a + b);
        },
        None => {
            assert(tokens_of(final(out)@) =~= tokens_of(old(out)@) + Seq::<Seq<char>>::empty());
        },
    }
}

pub open spec fn tokens_of(v: Seq<String>) -> Seq<Seq<char>> {
    Seq::new(v.len(), |i: int| v[i]@)
}

fn rename_branch(c: &Option<Box<Equation>>, original: &String, new: &String) -> (r: Option<Box<Equation>>)
    ensures
        branch_view(r) == match branch_view(*c) {
            Some(x) => Some(Box::new(replaced(*x, original@, new@))),
            None => None,
        },
    decreases c, 0int,
{
    match c {
        Some(x) => Some(Box::new(x.renamed(original, new))),
        None => None,
    }
}

fn summation_terms(e: &Equation) -> (r: Vec<Equation>)
    ensures
        trees_of(r@) == summands(e@),
    decreases e,
{
    let additive = match &e.root {
        Operator::Add | Operator::Subtract => true,
        _ => false,
    };
    let subtract = match &e.root {
        Operator::Subtract => true,
        _ => false,
    };
    let (left, right) = match (&e.left, &e.right) {
        (Some(l), Some(r)) if additive => (l, r),
        _ => {
            let mut out: Vec<Equation> = Vec::new();
            out.push(e.duplicate());
            assert(trees_of(out@) =~= seq![e@]);
            return out;
        },
    };
    let rs = summation_terms(right);
    let ghost rv = trees_of(rs@);
    let mut out: Vec<Equation> = Vec::new();
    let mut i: usize = 0;
    while i < rs.len()
        invariant
            i <= rs@.len(),
            rv == trees_of(rs@),
            trees_of(out@) == (if subtract {
                Seq::new(rv.len(), |k: int| negated_tree(rv[k]))
            } else {
                rv
            }).subrange(0, i as int),
        decreases rs@.len() - i,
    {
        let x = rs[i].duplicate();
        let item = if subtract {
            Equation {
                root: Operator::Multiply,
                left: Some(Box::new(Equation::new(Operator::Value(Number::integer(-1))))),
                right: Some(Box::new(x)),
            }
        } else {
            x
        };
        let ghost before = trees_of(out@);
        out.push(item);
        assert(trees_of(out@) =~= before.push(item@));
        i = i + 1;
        assert(trees_of(out@) =~= (if subtract {
            Seq::new(rv.len(), |k: int| negated_tree(rv[k]))
        } else {
            rv
        }).subrange(0, i as int));
    }
    let mut ls = summation_terms(left);
    let ghost a = trees_of(out@);
    let ghost b = trees_of(ls@);
    out.append(&mut ls);
    assert(trees_of(out@) =~= a + b);
    assert((if subtract {
        Seq::new(rv.len(), |k: int| negated_tree(rv[k]))
    } else {
        rv
    }).subrange(0, rv.len() as int) =~= (if subtract {
        Seq::new(rv.len(), |k: int| negated_tree(rv[k]))
    } else {
        rv
    }));
    out
}

fn same_kind_root(a: &Operator, b: &Operator) -> (r: bool)
    ensures
        r == same_root_kind(root_view(*a), root_view(*b)),
{
    match (a, b) {
        (Operator::Add, Operator::Add) => true,
        (Operator::Subtract, Operator::Subtract) => true,
        (Operator::Multiply, Operator::Multiply) => true,
        (Operator::Divide, Operator::Divide) => true,
        (Operator::Exponentiation, Operator::Exponentiation) => true,
        (Operator::Collect, Operator::Collect) => true,
        (Operator::Value(_), Operator::Value(_)) => true,
        (Operator::Value(_), Operator::Variable(_)) => true,
        (Operator::Variable(_), Operator::Value(_)) => true,
        (Operator::Variable(_), Operator::Variable(_)) => true,
        _ => false,
    }
}

fn structure_within(a: &Equation, b: &Equation) -> (r: bool)
    ensures
        r == tree_structure_match(a@, b@),
    decreases a,
{
    if !a.leaf() && !b.leaf() {
        if same_kind_root(&a.root, &b.root) {
            match (&a.left, &b.left, &a.right, &b.right) {
                (Some(al), Some(bl), Some(ar), Some(br)) => {
                    return structure_within(al, bl) && structure_within(ar, br);
                },
                _ => {
                    return false;
                },
            }
        }
        false
    } else if a.leaf() && b.leaf() {
        same_kind_root(&a.root, &b.root)
    } else {
        false
    }
}

impl Equation {
    /// The texts of the numbers and variables in pre-order, each text kept
    /// once, at its first place.
    pub fn get_variables(&self) -> (r: Vec<String>)
        ensures
            tokens_of(r@) == distinct_texts(variables_of(self@), variables_of(self@).len() as int),
            forall|i: int, j: int| 0 <= i < j < r@.len() ==> #[trigger] r@[i]@ != #[trigger] r@[j]@,
    {
        proof {
            lemma_distinct_texts(variables_of(self@), variables_of(self@).len() as int);
        }
        let all = self.all_variables();
        let ghost av = tokens_of(all@);
        let mut out: Vec<String> = Vec::new();
        let mut i: usize = 0;
        while i < all.len()
            invariant
                i <= all@.len(),
                av == tokens_of(all@),
                tokens_of(out@) == distinct_texts(av, i as int),
            decreases all@.len() - i,
        {
            let mut seen = false;
            let mut k: usize = 0;
            while k < out.len()
                invariant
                    k <= out@.len(),
                    i < all@.len(),
                    seen == exists|j: int| 0 <= j < k && (#[trigger] tokens_of(out@)[j]) == all@[i as int]@,
                decreases out@.len() - k,
            {
                let same = same_text(&out[k], &all[i]);
                assert(tokens_of(out@)[k as int] == out@[k as int]@);
                seen = seen || same;
                k = k + 1;
            }
            assert(av[i as int] == all@[i as int]@);
            if !seen {
                let ghost before = tokens_of(out@);
                out.push(copy_text(&all[i]));
                assert(tokens_of(out@) =~= before.push(av[i as int]));
            } else {
                proof {
                    let j = choose|j: int| 0 <= j < out@.len() && (#[trigger] tokens_of(out@)[j]) == all@[i as int]@;
                    assert(tokens_of(out@)[j] == av[i as int]);
                }
            }
            i = i + 1;
        }
        assert forall|i: int, j: int| 0 <= i < j < out@.len() implies #[trigger] out@[i]@ != #[trigger] out@[j]@ by {
            assert(out@[i]@ == tokens_of(out@)[i] && out@[j]@ == tokens_of(out@)[j]);
        }
        out
    }

    /// The texts of the numbers and variables in pre-order, repeats
    /// included.
    fn all_variables(&self) -> (r: Vec<String>)
        ensures
            tokens_of(r@) == variables_of(self@),
        decreases self, 1int,
    {
        let mut out: Vec<String> = Vec::new();
        match &self.root {
            Operator::Value(x) => out.push(x.to_text()),
            Operator::Variable(t) => out.push(copy_text(t)),
            _ => {},
        }
        push_branch_variables(&mut out, &self.left);
        push_branch_variables(&mut out, &self.right);
        assert(tokens_of(out@) =~= variables_of(self@));
        out
    }

    /// The tree with each variable named `original` renamed (see `replaced`).
    pub fn renamed(&self, original: &String, new: &String) -> (r: Equation)
        ensures
            r@ == replaced(self@, original@, new@),
        decreases self, 1int,
    {
        let left = rename_branch(&self.left, original, new);
        let right = rename_branch(&self.right, original, new);
        let hit = match &self.root {
            Operator::Variable(t) => same_text(t, original),
            _ => false,
        };
        if hit {
            match Number::parse(new.as_str()) {
                Some(v) => Equation::new(Operator::Value(v)),
                None => Equation { root: Operator::Variable(copy_text(new)), left, right },
            }
        } else {
            Equation { root: root_copy(&self.root), left, right }
        }
    }

    /// Renames each variable named `original` to `new` in place; when `new`
    /// reads as a number, such a variable becomes that number.
    pub fn replace_variable(&mut self, original: String, new: String)
        ensures
            final(self)@ == replaced(old(self)@, original@, new@),
    {
        let r = self.renamed(&original, &new);
        *self = r;
    }

    /// Whether the node adds or subtracts two operands.
    pub fn is_summation(&self) -> (r: bool)
        ensures
            r == is_summation_spec(self@),
    {
        match &self.root {
            Operator::Add | Operator::Subtract => self.left.is_some() && self.right.is_some(),
            _ => false,
        }
    }

    /// The terms of a chain of additions and subtractions (see `summands`).
    pub fn collect_summations(&self) -> (r: Vec<Equation>)
        ensures
            trees_of(r@) == summands(self@),
    {
        summation_terms(self)
    }

    /// Shape-level equivalence (see `tree_structure_match`).
    pub fn compare_structure(&self, rs: Equation) -> (r: bool)
        ensures
            r == tree_structure_match(self@, rs@),
    {
        structure_within(self, &rs)
    }
}

/// Equality of nodes: numbers by value, variables by name, operators by
/// kind.
pub open spec fn roots_equal(a: Root, b: Root) -> bool {
    match (a, b) {
        (Root::Value(x), Root::Value(y)) => x.same_value(y),
        (Root::Variable(x), Root::Variable(y)) => x == y,
        (Root::Value(_), _) => false,
        (Root::Variable(_), _) => false,
        _ => a == b,
    }
}

pub open spec fn branches_equal(a: Option<Box<Tree>>, b: Option<Box<Tree>>) -> bool
    decreases a, 0int,
{
    match (a, b) {
        (Some(x), Some(y)) => trees_equal(*x, *y),
        (None, None) => true,
        _ => false,
    }
}

/// Equality of trees: equal nodes with equal operands.
pub open spec fn trees_equal(a: Tree, b: Tree) -> bool
    decreases a, 1int,
{
    roots_equal(a.root, b.root) && branches_equal(a.left, b.left) && branches_equal(a.right, b.right)
}

fn roots_equal_exec(a: &Operator, b: &Operator) -> (r: bool)
    ensures
        r == roots_equal(root_view(*a), root_view(*b)),
{
    match (a, b) {
        (Operator::Value(x), Operator::Value(y)) => x.same(y),
        (Operator::Variable(x), Operator::Variable(y)) => same_text(x, y),
        (Operator::Value(_), _) => false,
        (Operator::Variable(_), _) => false,
        _ => same_root(a, b),
    }
}

fn branches_equal_exec(a: &Option<Box<Equation>>, b: &Option<Box<Equation>>) -> (r: bool)
    ensures
        r == branches_equal(branch_view(*a), branch_view(*b)),
    decreases a, 0int,
{
    match (a, b) {
        (Some(x), Some(y)) => trees_equal_exec(x, y),
        (None, None) => true,
        _ => false,
    }
}

fn trees_equal_exec(a: &Equation, b: &Equation) -> (r: bool)
    ensures
        r == trees_equal(a@, b@),
    decreases a, 1int,
{
    roots_equal_exec(&a.root, &b.root) && branches_equal_exec(&a.left, &b.left) && branches_equal_exec(
        &a.right,
        &b.right,
    )
}

impl PartialEq for Equation {
    fn eq(&self, other: &Equation) -> (r: bool) {
        trees_equal_exec(self, other)
    }
}

impl vstd::std_specs::cmp::PartialEqSpecImpl for Equation {
    open spec fn obeys_eq_spec() -> bool {
        true
    }

    open spec fn eq_spec(&self, other: &Equation) -> bool {
        trees_equal(self@, other@)
    }
}

/// The Rust text of a node.
pub open spec fn root_declaration(r: Root) -> Seq<char> {
    match r {
        Root::Add => seq!['A', 'd', 'd'],
        Root::Subtract => seq!['S', 'u', 'b', 't', 'r', 'a', 'c', 't'],
        Root::Multiply => seq!['M', 'u', 'l', 't', 'i', 'p', 'l', 'y'],
        Root::Divide => seq!['D', 'i', 'v', 'i', 'd', 'e'],
        Root::Exponentiation => seq!['E', 'x', 'p', 'o', 'n', 'e', 'n', 't', 'i', 'a', 't', 'i', 'o', 'n'],
        Root::Collect => seq!['C', 'o', 'l', 'l', 'e', 'c', 't'],
        Root::Value(n) => seq!['V', 'a', 'l', 'u', 'e', '('] + n.text_spec() + seq![')'],
        Root::Variable(s) => seq!['V', 'a', 'r', 'i', 'a', 'b', 'l', 'e', '(', '"'] + s + seq!['"', '.', 'p', 'a', 'r', 's', 'e', '(', ')', '.', 'u', 'n', 'w', 'r', 'a', 'p', '(', ')', ')'],
    }
}

/// The Rust text of an operand.
pub open spec fn branch_declaration(c: Option<Box<Tree>>) -> Seq<char>
    decreases c, 0int,
{
    match c {
        Some(x) => seq!['S', 'o', 'm', 'e', '(', 'B', 'o', 'x', ':', ':', 'n', 'e', 'w', '('] + declaration_of(*x) + seq![')', ')', ','],
        None => seq!['N', 'o', 'n', 'e', ','],
    }
}

/// Rust source text that builds the tree.
pub open spec fn declaration_of(t: Tree) -> Seq<char>
    decreases t, 1int,
{
    seq!['E', 'q', 'u', 'a', 't', 'i', 'o', 'n', ' ', '{', 'r', 'o', 'o', 't', ':', ' '] + root_declaration(t.root) + seq![','] + seq!['l', 'e', 'f', 't', ':', ' '] + branch_declaration(t.left) + seq!['r', 'i', 'g', 'h', 't', ':', ' ']
        + branch_declaration(t.right) + seq!['}']
}

fn push_root_declaration(s: &mut String, r: &Operator)
    ensures
        final(s)@ == old(s)@ + root_declaration(root_view(*r)),
{
    proof {
        reveal_strlit("Add");
        reveal_strlit("Subtract");
        reveal_strlit("Multiply");
        reveal_strlit("Divide");
        reveal_strlit("Exponentiation");
        reveal_strlit("Collect");
        reveal_strlit("Value(");
        reveal_strlit("Variable(\"");
        reveal_strlit("\".parse().unwrap())");
    }
    match r {
        Operator::Add => crate::operations::push_str(s, "Add"),
        Operator::Subtract => crate::operations::push_str(s, "Subtract"),
        Operator::Multiply => crate::operations::push_str(s, "Multiply"),
        Operator::Divide => crate::operations::push_str(s, "Divide"),
        Operator::Exponentiation => crate::operations::push_str(s, "Exponentiation"),
        Operator::Collect => crate::operations::push_str(s, "Collect"),
        Operator::Value(n) => {
            crate::operations::push_str(s, "Value(");
            let t = n.to_text();
            push_text(s, &t);
            push_char(s, ')');
        },
        Operator::Variable(v) => {
            crate::operations::push_str(s, "Variable(\"");
            push_text(s, v);
            crate::operations::push_str(s, "\".parse().unwrap())");
        },
    }
    assert(final(s)@ =~= old(s)@ + root_declaration(root_view(*r)));
}

fn push_branch_declaration(s: &mut String, c: &Option<Box<Equation>>)
    ensures
        final(s)@ == old(s)@ + branch_declaration(branch_view(*c)),
    decreases c, 0int,
{
    proof {
        reveal_strlit("Some(Box::new(");
        reveal_strlit(")),");
        reveal_strlit("None,");
    }
    match c {
        Some(x) => {
            crate::operations::push_str(s, "Some(Box::new(");
            let d = x.declaration();
            push_text(s, &d);
            crate::operations::push_str(s, ")),");
        },
        None => crate::operations::push_str(s, "None,"),
    }
    assert(final(s)@ =~= old(s)@ + branch_declaration(branch_view(*c)));
}

impl Equation {
    /// Rust source text that builds this tree.
    pub fn declaration(&self) -> (r: String)
        ensures
            r@ == declaration_of(self@),
        decreases self, 1int,
    {
        proof {
            reveal_strlit("Equation {root: ");
            reveal_strlit("left: ");
            reveal_strlit("right: ");
        }
        let mut out = String::new();
        crate::operations::push_str(&mut out, "Equation {root: ");
        push_root_declaration(&mut out, &self.root);
        push_char(&mut out, ',');
        crate::operations::push_str(&mut out, "left: ");
        push_branch_declaration(&mut out, &self.left);
        crate::operations::push_str(&mut out, "right: ");
        push_branch_declaration(&mut out, &self.right);
        push_char(&mut out, '}');
        assert(out@ =~= declaration_of(self@));
        out
    }
}

} // verus!
