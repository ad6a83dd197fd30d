//! Equalities that the input of a transformation has to meet.
use vstd::prelude::*;
use vstd::string::*;
use crate::lists::{push, same_list, Same};
use crate::parsing::rule::{Const, ConstModel};
use crate::planning::arguments::TransformationArgument;
use crate::text::{join, join_text, Render, Written};

verus! {

/// Columns that equal a constant, and columns that equal each other.
#[derive(Debug)]
pub struct BaseConstraints {
    pub constant_eq_constraints: Vec<(TransformationArgument, Const)>,
    pub variable_eq_constraints: Vec<(TransformationArgument, TransformationArgument)>,
}

#[verifier::ext_equal]
pub struct BaseConstraintsModel {
    pub constant_eq_constraints: Seq<(TransformationArgument, ConstModel)>,
    pub variable_eq_constraints: Seq<(TransformationArgument, TransformationArgument)>,
}

impl DeepView for BaseConstraints {
    type V = BaseConstraintsModel;

    open spec fn deep_view(&self) -> BaseConstraintsModel {
        BaseConstraintsModel {
            constant_eq_constraints: self.constant_eq_constraints.deep_view(),
            variable_eq_constraints: self.variable_eq_constraints.deep_view(),
        }
    }
}

/// Each pair written as `a = b`.
pub open spec fn equality_texts<A: Written, B: Written>(pairs: Seq<(A, B)>) -> Seq<Seq<char>> {
    Seq::new(pairs.len(), |i: int| pairs[i].0.text() + " = "@ + pairs[i].1.text())
}

impl Written for BaseConstraintsModel {
    open spec fn text(self) -> Seq<char> {
        join_text(
            equality_texts(self.constant_eq_constraints) + equality_texts(
                self.variable_eq_constraints,
            ),
            ", "@,
        )
    }
}

fn render_equalities<A: Render, B: Render>(pairs: &Vec<(A, B)>) -> (out: Vec<String>) where
    <A as DeepView>::V: Written,
    <B as DeepView>::V: Written,

    ensures
        out.deep_view() == equality_texts(pairs.deep_view()),
{
    let mut out: Vec<String> = Vec::new();
    let mut i: usize = 0;
    while i < pairs.len()
        invariant
            i <= pairs.len(),
            out.len() == i,
            forall|k: int|
                0 <= k < i ==> (#[trigger] out@[k])@ == equality_texts(pairs.deep_view())[k],
        decreases pairs.len() - i,
    {
        assert(pairs.deep_view()[i as int] == pairs@[i as int].deep_view());
        let mut text = pairs[i].0.to_string();
        text.append(" = ");
        text.append(pairs[i].1.to_string().as_str());
        out.push(text);
        i += 1;
    }
    assert(out.deep_view() =~= equality_texts(pairs.deep_view()));
    out
}

impl Render for BaseConstraints {
    fn to_string(&self) -> (out: String) {
        let mut parts = render_equalities(&self.constant_eq_constraints);
        crate::lists::extend(&mut parts, render_equalities(&self.variable_eq_constraints));
        join(&parts, ", ")
    }
}

impl<A: Same, B: Same> Same for (A, B) {
    fn same(&self, other: &Self) -> (same: bool) {
        self.0.same(&other.0) && self.1.same(&other.1)
    }
}

impl Same for BaseConstraints {
    fn same(&self, other: &Self) -> (same: bool) {
        same_list(&self.constant_eq_constraints, &other.constant_eq_constraints) && same_list(
            &self.variable_eq_constraints,
            &other.variable_eq_constraints,
        )
    }
}

impl Clone for BaseConstraints {
    fn clone(&self) -> (copy: Self)
        ensures
            copy.deep_view() == self.deep_view(),
    {
        let mut constant_eq_constraints: Vec<(TransformationArgument, Const)> = Vec::new();
        let mut i: usize = 0;
        while i < self.constant_eq_constraints.len()
            invariant
                i <= self.constant_eq_constraints.len(),
                constant_eq_constraints.len() == i,
                forall|k: int|
                    0 <= k < i ==> (#[trigger] constant_eq_constraints@[k]).deep_view()
                        == self.constant_eq_constraints@[k].deep_view(),
            decreases self.constant_eq_constraints.len() - i,
        {
            let pair = &self.constant_eq_constraints[i];
            constant_eq_constraints.push((pair.0, pair.1.clone()));
            i += 1;
        }
        assert(constant_eq_constraints.deep_view() =~= self.constant_eq_constraints.deep_view());
        let mut variable_eq_constraints: Vec<(TransformationArgument, TransformationArgument)> =
            Vec::new();
        let mut i: usize = 0;
        while i < self.variable_eq_constraints.len()
            invariant
                i <= self.variable_eq_constraints.len(),
                variable_eq_constraints.len() == i,
                forall|k: int|
                    0 <= k < i ==> #[trigger] variable_eq_constraints@[k]
                        == self.variable_eq_constraints@[k],
            decreases self.variable_eq_constraints.len() - i,
        {
            variable_eq_constraints.push(self.variable_eq_constraints[i]);
            i += 1;
        }
        assert(variable_eq_constraints.deep_view() =~= self.variable_eq_constraints.deep_view());
        BaseConstraints { constant_eq_constraints, variable_eq_constraints }
    }
}

impl BaseConstraints {
    pub fn new(
        constant_eq_constraints: Vec<(TransformationArgument, Const)>,
        variable_eq_constraints: Vec<(TransformationArgument, TransformationArgument)>,
    ) -> (constraints: Self)
        ensures
            constraints.deep_view() == (BaseConstraintsModel {
                constant_eq_constraints: constant_eq_constraints.deep_view(),
                variable_eq_constraints: variable_eq_constraints.deep_view(),
            }),
    {
        BaseConstraints { constant_eq_constraints, variable_eq_constraints }
    }

    pub fn constant_eq_constraints(&self) -> (constraints: &Vec<(TransformationArgument, Const)>)
        ensures
            constraints.deep_view() == self.deep_view().constant_eq_constraints,
    {
        &self.constant_eq_constraints
    }

    pub fn variable_eq_constraints(&self) -> (constraints: &Vec<
        (TransformationArgument, TransformationArgument),
    >)
        ensures
            constraints.deep_view() == self.deep_view().variable_eq_constraints,
    {
        &self.variable_eq_constraints
    }

    pub fn is_empty(&self) -> (answer: bool)
        ensures
            answer == (self.deep_view().constant_eq_constraints.len() == 0
                && self.deep_view().variable_eq_constraints.len() == 0),
    {
        self.constant_eq_constraints.len() == 0 && self.variable_eq_constraints.len() == 0
    }
}

} // verus!
