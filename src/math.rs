use vstd::prelude::*;
use crate::number::Number;
use crate::text::{copy_text, push_text};
use crate::operations::{Operation, push_str};
use crate::model::{complete, repr_of, value_of, equals_sep};

verus! {

/// A bound leaf supplied by the host: its text, its LaTeX text (the plain
/// text when absent) and its numeric value (undefined when it has none).
#[derive(Debug, Clone)]
pub struct EquationRepr {
    pub string: String,
    pub latex: Option<String>,
    pub value: Number,
}

impl EquationRepr {
    pub open spec fn latex_spec(&self) -> Seq<char> {
        match self.latex {
            Some(l) => l@,
            None => self.string@,
        }
    }

    pub fn new(string: String, value: Number) -> (r: EquationRepr)
        ensures
            r.string == string,
            r.latex is None,
            r.value == value,
    {
        EquationRepr { string, latex: None, value }
    }

    pub fn new_with_latex(string: String, latex: String, value: Number) -> (r: EquationRepr)
        ensures
            r.string == string,
            r.latex == Some(latex),
            r.value == value,
    {
        EquationRepr { string, latex: Some(latex), value }
    }

    /// The plain text of the leaf.
    pub fn equation_repr(&self) -> (r: String)
        ensures
            r@ == self.string@,
    {
        copy_text(&self.string)
    }

    /// The LaTeX text of the leaf.
    pub fn latex_string(&self) -> (r: String)
        ensures
            r@ == self.latex_spec(),
    {
        match &self.latex {
            Some(l) => copy_text(l),
            None => copy_text(&self.string),
        }
    }

    /// A copy holding the same text and value.
    pub fn duplicate(&self) -> (r: EquationRepr)
        ensures
            r.string@ == self.string@,
            r.value == self.value,
            r.latex_spec() == self.latex_spec(),
            r.latex is Some <==> self.latex is Some,
    {
        let latex = match &self.latex {
            Some(l) => Some(copy_text(l)),
            None => None,
        };
        EquationRepr { string: copy_text(&self.string), latex, value: self.value }
    }
}

/// An equation between two terms.
#[derive(Debug)]
pub struct Equation {
    left: Operation,
    right: Operation,
}

impl Equation {
    pub closed spec fn lhs(&self) -> Operation {
        self.left
    }

    pub closed spec fn rhs(&self) -> Operation {
        self.right
    }

    pub fn new(left: Operation, right: Operation) -> (r: Equation)
        ensures
            r.lhs()@ == left@,
            r.rhs()@ == right@,
    {
        Equation { left, right }
    }

    /// The text `left = right`.
    pub fn equation_repr(&self) -> (r: String)
        requires
            complete(self.lhs()@),
            complete(self.rhs()@),
        ensures
            r@ == repr_of(self.lhs()@) + equals_sep() + repr_of(self.rhs()@),
    {
        let mut s = self.left.equation_repr();
        proof {
            reveal_strlit(" = ");
        }
        push_str(&mut s, " = ");
        assert(" = "@ =~= equals_sep());
        let r = self.right.equation_repr();
        push_text(&mut s, &r);
        s
    }

    /// How far the two sides are apart: the left value less the right one.
    pub fn value(&self) -> (r: Number)
        requires
            complete(self.lhs()@),
            complete(self.rhs()@),
        ensures
            r == value_of(self.lhs()@).difference_spec(value_of(self.rhs()@)),
    {
        let a = self.left.value();
        let b = self.right.value();
        a.sub(&b)
    }
}

} // verus!
