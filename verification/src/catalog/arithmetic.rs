//! Arithmetic expressions whose variables have been replaced by places.
use vstd::prelude::*;
use vstd::string::*;
use crate::catalog::atoms::AtomArgumentSignature;
use crate::lists::{empty, extend, group_take, push, Same};
use crate::parsing::arithmetic::{
    render_arithmetic, rest_text, rest_vars, Arithmetic, ArithmeticModel, ArithmeticOperator, Factor,
    FactorModel,
};
use crate::parsing::rule::{Const, ConstModel};
use crate::text::{Render, Written};

verus! {

/// A place that a value is taken from, or a constant.
#[derive(Debug, Hash)]
pub enum PlacedFactor<P> {
    Var(P),
    Const(Const),
}

#[verifier::ext_equal]
pub enum PlacedFactorModel<P> {
    Var(P),
    Const(ConstModel),
}

impl<P> PlacedFactorModel<P> {
    /// The places of the factor: its own, or none.
    pub open spec fn places(self) -> Seq<P> {
        match self {
            PlacedFactorModel::Var(place) => seq![place],
            PlacedFactorModel::Const(_) => Seq::empty(),
        }
    }
}

impl<P: DeepView> DeepView for PlacedFactor<P> {
    type V = PlacedFactorModel<<P as DeepView>::V>;

    open spec fn deep_view(&self) -> PlacedFactorModel<<P as DeepView>::V> {
        match self {
            PlacedFactor::Var(place) => PlacedFactorModel::Var(place.deep_view()),
            PlacedFactor::Const(constant) => PlacedFactorModel::Const(constant.deep_view()),
        }
    }
}

impl<P: Written> Written for PlacedFactorModel<P> {
    open spec fn text(self) -> Seq<char> {
        match self {
            PlacedFactorModel::Var(place) => place.text(),
            PlacedFactorModel::Const(constant) => constant.text(),
        }
    }
}

impl<P: Render> Render for PlacedFactor<P> where <P as DeepView>::V: Written {
    fn to_string(&self) -> (out: String) {
        match self {
            PlacedFactor::Var(place) => place.to_string(),
            PlacedFactor::Const(constant) => constant.to_string(),
        }
    }
}

impl<P: Same> Same for PlacedFactor<P> {
    fn same(&self, other: &Self) -> (same: bool) {
        match (self, other) {
            (PlacedFactor::Var(a), PlacedFactor::Var(b)) => a.same(b),
            (PlacedFactor::Const(a), PlacedFactor::Const(b)) => a.same(b),
            _ => false,
        }
    }
}

/// A factor followed by operators and further factors.
#[derive(Debug)]
pub struct PlacedArithmetic<P> {
    pub init: PlacedFactor<P>,
    pub rest: Vec<(ArithmeticOperator, PlacedFactor<P>)>,
}

#[verifier::ext_equal]
pub struct PlacedArithmeticModel<P> {
    pub init: PlacedFactorModel<P>,
    pub rest: Seq<(ArithmeticOperator, PlacedFactorModel<P>)>,
}

/// The places of the factors behind the operators, in order.
pub open spec fn rest_places<P>(rest: Seq<(ArithmeticOperator, PlacedFactorModel<P>)>) -> Seq<P>
    decreases rest.len(),
{
    if rest.len() == 0 {
        Seq::empty()
    } else {
        rest_places(rest.drop_last()) + rest.last().1.places()
    }
}

impl<P> PlacedArithmeticModel<P> {
    /// All places from left to right, repetitions included.
    pub open spec fn places(self) -> Seq<P> {
        self.init.places() + rest_places(self.rest)
    }
}

impl<P: DeepView> DeepView for PlacedArithmetic<P> {
    type V = PlacedArithmeticModel<<P as DeepView>::V>;

    open spec fn deep_view(&self) -> PlacedArithmeticModel<<P as DeepView>::V> {
        PlacedArithmeticModel { init: self.init.deep_view(), rest: self.rest.deep_view() }
    }
}

impl<P: Written> Written for PlacedArithmeticModel<P> {
    open spec fn text(self) -> Seq<char> {
        self.init.text() + rest_text(self.rest)
    }
}

impl<P: Render> Render for PlacedArithmetic<P> where <P as DeepView>::V: Written {
    fn to_string(&self) -> (out: String) {
        render_arithmetic(&self.init, &self.rest)
    }
}

impl<P: Same> Same for PlacedArithmetic<P> {
    fn same(&self, other: &Self) -> (same: bool) {
        if !self.init.same(&other.init) {
            return false;
        }
        if self.rest.len() != other.rest.len() {
            assert(self.rest.deep_view().len() != other.rest.deep_view().len());
            return false;
        }
        let mut i: usize = 0;
        while i < self.rest.len()
            invariant
                i <= self.rest.len(),
                self.rest.len() == other.rest.len(),
                forall|k: int|
                    0 <= k < i ==> self.rest.deep_view()[k] == other.rest.deep_view()[k],
            decreases self.rest.len() - i,
        {
            if self.rest[i].0 != other.rest[i].0 || !self.rest[i].1.same(&other.rest[i].1) {
                assert(self.rest.deep_view()[i as int] != other.rest.deep_view()[i as int]);
                return false;
            }
            assert(self.rest.deep_view()[i as int] == other.rest.deep_view()[i as int]);
            i += 1;
        }
        assert(self.rest.deep_view() =~= other.rest.deep_view());
        true
    }
}

impl<P: Copy + DeepView> PlacedFactor<P> {
    /// The places of the factor.
    pub fn places(&self) -> (places: Vec<P>)
        ensures
            places.deep_view() == self.deep_view().places(),
    {
        let mut places: Vec<P> = empty();
        match self {
            PlacedFactor::Var(place) => {
                push(&mut places, *place);
                assert(places.deep_view() =~= self.deep_view().places());
            },
            PlacedFactor::Const(_) => {},
        }
        places
    }

    pub fn copy(&self) -> (copy: Self)
        ensures
            copy.deep_view() == self.deep_view(),
    {
        match self {
            PlacedFactor::Var(place) => PlacedFactor::Var(*place),
            PlacedFactor::Const(constant) => PlacedFactor::Const(constant.clone()),
        }
    }
}

impl<P: Copy + DeepView> PlacedArithmetic<P> {
    pub fn init(&self) -> (init: &PlacedFactor<P>)
        ensures
            init.deep_view() == self.deep_view().init,
    {
        &self.init
    }

    pub fn rest(&self) -> (rest: &Vec<(ArithmeticOperator, PlacedFactor<P>)>)
        ensures
            rest.deep_view() == self.deep_view().rest,
    {
        &self.rest
    }

    /// Whether the expression is a single factor.
    pub fn is_literal(&self) -> (answer: bool)
        ensures
            answer == (self.deep_view().rest.len() == 0),
    {
        self.rest.len() == 0
    }

    /// Whether the expression is a single place.
    pub fn is_var(&self) -> (answer: bool)
        ensures
            answer == (self.deep_view().rest.len() == 0 && self.deep_view().init is Var),
    {
        if self.rest.len() == 0 {
            match &self.init {
                PlacedFactor::Var(_) => true,
                PlacedFactor::Const(_) => false,
            }
        } else {
            false
        }
    }

    /// All places from left to right.
    pub fn places(&self) -> (places: Vec<P>)
        ensures
            places.deep_view() == self.deep_view().places(),
    {
        broadcast use group_take;

        let mut places: Vec<P> = self.init.places();
        let ghost rest = self.rest.deep_view();
        let mut i: usize = 0;
        assert(places.deep_view() =~= self.init.deep_view().places() + rest_places(rest.take(0)));
        while i < self.rest.len()
            invariant
                i <= self.rest.len(),
                rest == self.rest.deep_view(),
                places.deep_view() == self.init.deep_view().places() + rest_places(
                    rest.take(i as int),
                ),
            decreases self.rest.len() - i,
        {
            assert(rest.take(i + 1).drop_last() == rest.take(i as int));
            assert(rest[i as int].1 == self.rest[i as int].1.deep_view());
            extend(&mut places, self.rest[i].1.places());
            assert(places.deep_view() =~= self.init.deep_view().places() + rest_places(
                rest.take(i + 1),
            ));
            i += 1;
        }
        places
    }

    pub fn copy(&self) -> (copy: Self)
        ensures
            copy.deep_view() == self.deep_view(),
    {
        let mut rest: Vec<(ArithmeticOperator, PlacedFactor<P>)> = Vec::new();
        let mut i: usize = 0;
        while i < self.rest.len()
            invariant
                i <= self.rest.len(),
                rest.len() == i,
                forall|k: int|
                    0 <= k < i ==> (#[trigger] rest[k]).deep_view() == self.rest[k].deep_view(),
            decreases self.rest.len() - i,
        {
            rest.push((self.rest[i].0, self.rest[i].1.copy()));
            i += 1;
        }
        assert(rest.deep_view() =~= self.rest.deep_view());
        PlacedArithmetic { init: self.init.copy(), rest }
    }
}

/// A factor of a rule, with its variable at an argument of the rule body.
pub type FactorPos = PlacedFactor<AtomArgumentSignature>;

/// An expression of a rule, with its variables at arguments of the rule body.
pub type ArithmeticPos = PlacedArithmetic<AtomArgumentSignature>;

/// A factor with its variable, if it is one, at the given place.
pub open spec fn place_factor<P>(factor: FactorModel, place: P) -> PlacedFactorModel<P> {
    match factor {
        FactorModel::Var(_) => PlacedFactorModel::Var(place),
        FactorModel::Const(constant) => PlacedFactorModel::Const(constant),
    }
}

/// An expression with its variables, from left to right, at the given places.
pub open spec fn place_arithmetic<P>(
    arithmetic: ArithmeticModel,
    places: Seq<P>,
) -> PlacedArithmeticModel<P> {
    PlacedArithmeticModel {
        init: place_factor(arithmetic.init, places[0]),
        rest: Seq::new(
            arithmetic.rest.len(),
            |k: int|
                (
                    arithmetic.rest[k].0,
                    place_factor(
                        arithmetic.rest[k].1,
                        places[(arithmetic.init.vars().len() + rest_vars(
                            arithmetic.rest.take(k),
                        ).len()) as int],
                    ),
                ),
        ),
    }
}

proof fn lemma_rest_vars_grow(rest: Seq<(ArithmeticOperator, FactorModel)>, k: int)
    requires
        0 <= k <= rest.len(),
    ensures
        rest_vars(rest.take(k)).len() <= rest_vars(rest).len(),
    decreases rest.len() - k,
{
    broadcast use group_take;

    if k < rest.len() {
        assert(rest.take(k + 1).drop_last() == rest.take(k));
        lemma_rest_vars_grow(rest, k + 1);
    }
}

impl PlacedArithmetic<AtomArgumentSignature> {
    /// The expression with its variables, from left to right, at the given arguments.
    pub fn from_arithmetic(
        arithmetic: &Arithmetic,
        var_signatures: &Vec<AtomArgumentSignature>,
    ) -> (placed: Self)
        requires
            arithmetic.deep_view().vars().len() <= var_signatures@.len(),
        ensures
            placed.deep_view() == place_arithmetic(arithmetic.deep_view(), var_signatures@),
    {
        broadcast use group_take;

        let ghost model = arithmetic.deep_view();
        let mut var_id: usize = 0;
        let init = match &arithmetic.init {
            Factor::Var(_) => {
                var_id = 1;
                assert(model.init.vars().len() == 1);
                PlacedFactor::Var(var_signatures[0])
            },
            Factor::Const(constant) => PlacedFactor::Const(constant.clone()),
        };
        let mut rest: Vec<(ArithmeticOperator, PlacedFactor<AtomArgumentSignature>)> = Vec::new();
        let mut i: usize = 0;
        while i < arithmetic.rest.len()
            invariant
                i <= arithmetic.rest.len(),
                model == arithmetic.deep_view(),
                model.vars().len() <= var_signatures@.len(),
                rest.len() == i,
                var_id == model.init.vars().len() + rest_vars(model.rest.take(i as int)).len(),
                forall|k: int|
                    0 <= k < i ==> (#[trigger] rest@[k]).deep_view() == place_arithmetic(
                        model,
                        var_signatures@,
                    ).rest[k],
            decreases arithmetic.rest.len() - i,
        {
            proof {
                assert(model.rest.take(i + 1).drop_last() == model.rest.take(i as int));
                assert(model.rest[i as int] == arithmetic.rest@[i as int].deep_view());
                lemma_rest_vars_grow(model.rest, i + 1);
            }
            let op = arithmetic.rest[i].0;
            match &arithmetic.rest[i].1 {
                Factor::Var(_) => {
                    rest.push((op, PlacedFactor::Var(var_signatures[var_id])));
                    assert(var_id < var_signatures.len());
                    var_id += 1;
                },
                Factor::Const(constant) => {
                    rest.push((op, PlacedFactor::Const(constant.clone())));
                },
            }
            i += 1;
        }
        let placed = PlacedArithmetic { init, rest };
        assert(placed.deep_view() =~~= place_arithmetic(model, var_signatures@));
        placed
    }

    /// The arguments that the expression reads, from left to right.
    pub fn signatures(&self) -> (signatures: Vec<AtomArgumentSignature>)
        ensures
            signatures.deep_view() == self.deep_view().places(),
    {
        self.places()
    }
}

} // verus!
