//! Arithmetic expressions over the input columns of a transformation.
use vstd::prelude::*;
use crate::catalog::arithmetic::{
    rest_places, PlacedArithmetic, PlacedArithmeticModel, PlacedFactor, PlacedFactorModel,
};
use crate::catalog::atoms::AtomArgumentSignature;
use crate::lists::group_take;
use crate::parsing::arithmetic::ArithmeticOperator;
use crate::planning::arguments::{flipped, TransformationArgument};

verus! {

/// A factor with its variable at an input column.
pub type FactorArgument = PlacedFactor<TransformationArgument>;

/// An expression with its variables at input columns.
pub type ArithmeticArgument = PlacedArithmetic<TransformationArgument>;

/// A factor moved to another place, if it has one.
pub open spec fn move_factor<P, Q>(factor: PlacedFactorModel<P>, place: Q) -> PlacedFactorModel<Q> {
    match factor {
        PlacedFactorModel::Var(_) => PlacedFactorModel::Var(place),
        PlacedFactorModel::Const(constant) => PlacedFactorModel::Const(constant),
    }
}

/// An expression with its places, from left to right, exchanged for the given ones.
pub open spec fn move_arithmetic<P, Q>(
    arithmetic: PlacedArithmeticModel<P>,
    places: Seq<Q>,
) -> PlacedArithmeticModel<Q> {
    PlacedArithmeticModel {
        init: move_factor(arithmetic.init, places[0]),
        rest: Seq::new(
            arithmetic.rest.len(),
            |k: int|
                (
                    arithmetic.rest[k].0,
                    move_factor(
                        arithmetic.rest[k].1,
                        places[(arithmetic.init.places().len() + rest_places(
                            arithmetic.rest.take(k),
                        ).len()) as int],
                    ),
                ),
        ),
    }
}

pub proof fn lemma_rest_places_grow<P>(rest: Seq<(ArithmeticOperator, PlacedFactorModel<P>)>, k: int)
    requires
        0 <= k <= rest.len(),
    ensures
        rest_places(rest.take(k)).len() <= rest_places(rest).len(),
    decreases rest.len() - k,
{
    broadcast use group_take;

    if k < rest.len() {
        assert(rest.take(k + 1).drop_last() == rest.take(k));
        lemma_rest_places_grow(rest, k + 1);
    }
}

/// A factor with left and right exchanged.
pub open spec fn flip_factor(
    factor: PlacedFactorModel<TransformationArgument>,
) -> PlacedFactorModel<TransformationArgument> {
    match factor {
        PlacedFactorModel::Var(place) => PlacedFactorModel::Var(flipped(place)),
        PlacedFactorModel::Const(constant) => PlacedFactorModel::Const(constant),
    }
}

/// An expression with left and right exchanged.
pub open spec fn flip_arithmetic(
    arithmetic: PlacedArithmeticModel<TransformationArgument>,
) -> PlacedArithmeticModel<TransformationArgument> {
    PlacedArithmeticModel {
        init: flip_factor(arithmetic.init),
        rest: Seq::new(
            arithmetic.rest.len(),
            |k: int| (arithmetic.rest[k].0, flip_factor(arithmetic.rest[k].1)),
        ),
    }
}

/// Whether all places of an expression are columns of a join.
pub open spec fn is_jn_factor(factor: PlacedFactorModel<TransformationArgument>) -> bool {
    factor matches PlacedFactorModel::Var(place) ==> place is Jn
}

pub open spec fn is_jn_arithmetic(arithmetic: PlacedArithmeticModel<TransformationArgument>) -> bool {
    &&& is_jn_factor(arithmetic.init)
    &&& forall|k: int| 0 <= k < arithmetic.rest.len() ==> is_jn_factor((#[trigger] arithmetic.rest[k]).1)
}

impl PlacedFactor<TransformationArgument> {
    /// The input columns that the factor reads.
    pub fn transformation_arguments(&self) -> (arguments: Vec<TransformationArgument>)
        ensures
            arguments.deep_view() == self.deep_view().places(),
    {
        self.places()
    }

    fn flip(&self) -> (out: Self)
        requires
            is_jn_factor(self.deep_view()),
        ensures
            out.deep_view() == flip_factor(self.deep_view()),
    {
        match self {
            PlacedFactor::Var(place) => PlacedFactor::Var(place.jn_flip()),
            PlacedFactor::Const(constant) => PlacedFactor::Const(constant.clone()),
        }
    }
}

impl PlacedArithmetic<TransformationArgument> {
    /// The expression with its places, from left to right, at the given columns.
    pub fn from_arithmetic(
        arithmetic: &PlacedArithmetic<AtomArgumentSignature>,
        var_arguments: &Vec<TransformationArgument>,
    ) -> (placed: Self)
        requires
            arithmetic.deep_view().places().len() <= var_arguments@.len(),
        ensures
            placed.deep_view() == move_arithmetic(arithmetic.deep_view(), var_arguments@),
    {
        broadcast use group_take;

        let ghost model = arithmetic.deep_view();
        let mut var_id: usize = 0;
        let init = match &arithmetic.init {
            PlacedFactor::Var(_) => {
                var_id = 1;
                assert(model.init.places().len() == 1);
                PlacedFactor::Var(var_arguments[0])
            },
            PlacedFactor::Const(constant) => PlacedFactor::Const(constant.clone()),
        };
        let mut rest: Vec<(ArithmeticOperator, PlacedFactor<TransformationArgument>)> = Vec::new();
        let mut i: usize = 0;
        while i < arithmetic.rest.len()
            invariant
                i <= arithmetic.rest.len(),
                model == arithmetic.deep_view(),
                model.places().len() <= var_arguments@.len(),
                rest.len() == i,
                var_id == model.init.places().len() + rest_places(model.rest.take(i as int)).len(),
                forall|k: int|
                    0 <= k < i ==> (#[trigger] rest@[k]).deep_view() == move_arithmetic(
                        model,
                        var_arguments@,
                    ).rest[k],
            decreases arithmetic.rest.len() - i,
        {
            proof {
                assert(model.rest.take(i + 1).drop_last() == model.rest.take(i as int));
                assert(model.rest[i as int] == arithmetic.rest@[i as int].deep_view());
                lemma_rest_places_grow(model.rest, i + 1);
            }
            let op = arithmetic.rest[i].0;
            match &arithmetic.rest[i].1 {
                PlacedFactor::Var(_) => {
                    rest.push((op, PlacedFactor::Var(var_arguments[var_id])));
                    assert(var_id < var_arguments.len());
                    var_id += 1;
                },
                PlacedFactor::Const(constant) => {
                    rest.push((op, PlacedFactor::Const(constant.clone())));
                },
            }
            i += 1;
        }
        let placed = PlacedArithmetic { init, rest };
        assert(placed.deep_view() =~~= move_arithmetic(model, var_arguments@));
        placed
    }

    /// The input columns that the expression reads, from left to right.
    pub fn transformation_arguments(&self) -> (arguments: Vec<TransformationArgument>)
        ensures
            arguments.deep_view() == self.deep_view().places(),
    {
        self.places()
    }

    /// The expression with left and right exchanged.
    pub fn jn_flip(&self) -> (out: Self)
        requires
            is_jn_arithmetic(self.deep_view()),
        ensures
            out.deep_view() == flip_arithmetic(self.deep_view()),
    {
        let ghost model = self.deep_view();
        let mut rest: Vec<(ArithmeticOperator, PlacedFactor<TransformationArgument>)> = Vec::new();
        let mut i: usize = 0;
        while i < self.rest.len()
            invariant
                i <= self.rest.len(),
                model == self.deep_view(),
                is_jn_arithmetic(model),
                rest.len() == i,
                forall|k: int|
                    0 <= k < i ==> (#[trigger] rest@[k]).deep_view() == flip_arithmetic(model).rest[k],
            decreases self.rest.len() - i,
        {
            assert(model.rest[i as int] == self.rest@[i as int].deep_view());
            rest.push((self.rest[i].0, self.rest[i].1.flip()));
            i += 1;
        }
        let out = PlacedArithmetic { init: self.init.flip(), rest };
        assert(out.deep_view() =~~= flip_arithmetic(model));
        out
    }
}

/// An expression at columns of a join has nothing but columns of a join.
pub proof fn lemma_moved_to_join<P>(
    arithmetic: PlacedArithmeticModel<P>,
    places: Seq<TransformationArgument>,
)
    requires
        arithmetic.places().len() <= places.len(),
        forall|i: int| 0 <= i < places.len() ==> #[trigger] places[i] is Jn,
    ensures
        is_jn_arithmetic(move_arithmetic(arithmetic, places)),
{
    broadcast use group_take;

    let moved = move_arithmetic(arithmetic, places);
    if arithmetic.init is Var {
        assert(arithmetic.init.places().len() == 1);
        assert(places[0] is Jn);
    }
    assert forall|k: int| 0 <= k < moved.rest.len() implies is_jn_factor(
        (#[trigger] moved.rest[k]).1,
    ) by {
        let factor = arithmetic.rest[k].1;
        if factor is Var {
            let front = rest_places(arithmetic.rest.take(k));
            assert(arithmetic.rest.take(k + 1).drop_last() == arithmetic.rest.take(k));
            lemma_rest_places_grow(arithmetic.rest, k + 1);
            assert(factor.places().len() == 1);
            let i = (arithmetic.init.places().len() + front.len()) as int;
            assert(i < places.len());
            assert(places[i] is Jn);
        }
    }
}

/// Exchanging left and right twice changes nothing.
pub proof fn lemma_flip_arithmetic_twice(
    arithmetic: PlacedArithmeticModel<TransformationArgument>,
)
    ensures
        flip_arithmetic(flip_arithmetic(arithmetic)) == arithmetic,
{
    assert(flip_arithmetic(flip_arithmetic(arithmetic)).rest =~= arithmetic.rest);
}

} // verus!
