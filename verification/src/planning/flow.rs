//! How the columns of a transformation's output come from its input.
use vstd::prelude::*;
use vstd::string::*;
use crate::catalog::atoms::AtomArgumentSignature;
use crate::catalog::compare::{PlacedComparison, PlacedComparisonModel};
use crate::lists::{clone_list, empty, extend, find, group_take, lookup, push, same_list, Same};
use crate::parsing::rule::{Const, ConstModel};
use crate::planning::arguments::{flipped, TransformationArgument};
use crate::planning::arithmetic::{lemma_flip_arithmetic_twice, lemma_moved_to_join};
use crate::planning::compare::{flip_comparison, is_jn_comparison, move_comparison};
use crate::planning::constraints::{BaseConstraints, BaseConstraintsModel};
use crate::text::{join, join_text, render_all, texts, Render, Written};

verus! {

/// The input columns of an output, and which inputs take part.
#[derive(Debug)]
pub enum TransformationFlow {
    /// from one collection
    KVToKV {
        key: Vec<TransformationArgument>,
        value: Vec<TransformationArgument>,
        constraints: BaseConstraints,
        compares: Vec<PlacedComparison<TransformationArgument>>,
    },
    /// from two collections that agree on their keys
    JnToKV {
        key: Vec<TransformationArgument>,
        value: Vec<TransformationArgument>,
        compares: Vec<PlacedComparison<TransformationArgument>>,
    },
}

#[verifier::ext_equal]
pub enum TransformationFlowModel {
    KVToKV {
        key: Seq<TransformationArgument>,
        value: Seq<TransformationArgument>,
        constraints: BaseConstraintsModel,
        compares: Seq<PlacedComparisonModel<TransformationArgument>>,
    },
    JnToKV {
        key: Seq<TransformationArgument>,
        value: Seq<TransformationArgument>,
        compares: Seq<PlacedComparisonModel<TransformationArgument>>,
    },
}

impl TransformationFlowModel {
    pub open spec fn key(self) -> Seq<TransformationArgument> {
        match self {
            TransformationFlowModel::KVToKV { key, .. } => key,
            TransformationFlowModel::JnToKV { key, .. } => key,
        }
    }

    pub open spec fn value(self) -> Seq<TransformationArgument> {
        match self {
            TransformationFlowModel::KVToKV { value, .. } => value,
            TransformationFlowModel::JnToKV { value, .. } => value,
        }
    }

    pub open spec fn compares(self) -> Seq<PlacedComparisonModel<TransformationArgument>> {
        match self {
            TransformationFlowModel::KVToKV { compares, .. } => compares,
            TransformationFlowModel::JnToKV { compares, .. } => compares,
        }
    }

    /// Whether some inputs are left out.
    pub open spec fn is_constrainted(self) -> bool {
        ||| self.compares().len() > 0
        ||| self matches TransformationFlowModel::KVToKV { constraints, .. } && !constraints.is_empty()
    }
}

impl BaseConstraintsModel {
    pub open spec fn is_empty(self) -> bool {
        self.constant_eq_constraints.len() == 0 && self.variable_eq_constraints.len() == 0
    }
}

impl DeepView for TransformationFlow {
    type V = TransformationFlowModel;

    open spec fn deep_view(&self) -> TransformationFlowModel {
        match self {
            TransformationFlow::KVToKV { key, value, constraints, compares } =>
            TransformationFlowModel::KVToKV {
                key: key.deep_view(),
                value: value.deep_view(),
                constraints: constraints.deep_view(),
                compares: compares.deep_view(),
            },
            TransformationFlow::JnToKV { key, value, compares } =>
            TransformationFlowModel::JnToKV {
                key: key.deep_view(),
                value: value.deep_view(),
                compares: compares.deep_view(),
            },
        }
    }
}

/// What follows the columns: the conditions, if there are any.
pub open spec fn conditions_text(flow: TransformationFlowModel) -> Seq<char> {
    let compares = join_text(texts(flow.compares()), ", "@);
    match flow {
        TransformationFlowModel::KVToKV { constraints, .. } if !constraints.is_empty() => if flow.compares().len()
            == 0 {
            " if "@ + constraints.text()
        } else {
            " if "@ + constraints.text() + " and "@ + compares
        },
        _ => if flow.compares().len() == 0 {
            ""@
        } else {
            " if "@ + compares
        },
    }
}

impl Written for TransformationFlowModel {
    open spec fn text(self) -> Seq<char> {
        let keys = if self.key().len() == 0 {
            "|("@
        } else {
            "|("@ + join_text(texts(self.key()), ", "@) + ": "@
        };
        keys + join_text(texts(self.value()), ", "@) + ")"@ + conditions_text(self) + "|"@
    }
}

impl Render for TransformationFlow {
    fn to_string(&self) -> (out: String) {
        proof {
            reveal_strlit("");
        }
        let mut out = "|(".to_owned();
        if !self.is_key_empty() {
            out.append(join(&render_all(self.key()), ", ").as_str());
            out.append(": ");
        }
        out.append(join(&render_all(self.value()), ", ").as_str());
        out.append(")");
        let ghost front = out@;
        let compares = self.compares();
        let mut conditions = String::new();
        match self {
            TransformationFlow::KVToKV { constraints, .. } if !constraints.is_empty() => {
                conditions.append(" if ");
                conditions.append(constraints.to_string().as_str());
                if compares.len() > 0 {
                    conditions.append(" and ");
                    conditions.append(join(&render_all(compares), ", ").as_str());
                }
            },
            _ => {
                if compares.len() > 0 {
                    conditions.append(" if ");
                    conditions.append(join(&render_all(compares), ", ").as_str());
                }
            },
        }
        assert(compares.len() == compares.deep_view().len());
        assert(conditions@ =~= conditions_text(self.deep_view()));
        out.append(conditions.as_str());
        out.append("|");
        out
    }
}

impl Same for TransformationFlow {
    fn same(&self, other: &Self) -> (same: bool) {
        match (self, other) {
            (
                TransformationFlow::KVToKV { key, value, constraints, compares },
                TransformationFlow::KVToKV { key: k, value: v, constraints: c, compares: cs },
            ) => same_list(key, k) && same_list(value, v) && constraints.same(c) && same_list(
                compares,
                cs,
            ),
            (
                TransformationFlow::JnToKV { key, value, compares },
                TransformationFlow::JnToKV { key: k, value: v, compares: cs },
            ) => same_list(key, k) && same_list(value, v) && same_list(compares, cs),
            _ => false,
        }
    }
}

/// A copy of every comparison.
fn copy_comparisons(list: &Vec<PlacedComparison<TransformationArgument>>) -> (copy: Vec<
    PlacedComparison<TransformationArgument>,
>)
    ensures
        copy.deep_view() == list.deep_view(),
{
    let mut copy: Vec<PlacedComparison<TransformationArgument>> = Vec::new();
    let mut i: usize = 0;
    while i < list.len()
        invariant
            i <= list.len(),
            copy.len() == i,
            forall|k: int|
                0 <= k < i ==> (#[trigger] copy@[k]).deep_view() == list@[k].deep_view(),
        decreases list.len() - i,
    {
        copy.push(list[i].copy());
        i += 1;
    }
    assert(copy.deep_view() =~= list.deep_view());
    copy
}

impl Clone for TransformationFlow {
    fn clone(&self) -> (copy: Self)
        ensures
            copy.deep_view() == self.deep_view(),
    {
        match self {
            TransformationFlow::KVToKV { key, value, constraints, compares } =>
            TransformationFlow::KVToKV {
                key: clone_list(key),
                value: clone_list(value),
                constraints: constraints.clone(),
                compares: copy_comparisons(compares),
            },
            TransformationFlow::JnToKV { key, value, compares } => TransformationFlow::JnToKV {
                key: clone_list(key),
                value: clone_list(value),
                compares: copy_comparisons(compares),
            },
        }
    }
}

/// The rule arguments that the columns of one collection hold.
pub open spec fn kv_columns(
    keys: Seq<AtomArgumentSignature>,
    values: Seq<AtomArgumentSignature>,
) -> Seq<(AtomArgumentSignature, TransformationArgument)> {
    Seq::new(keys.len(), |i: int| (keys[i], TransformationArgument::KV((false, i as usize))))
        + Seq::new(values.len(), |i: int| (values[i], TransformationArgument::KV((true, i as usize))))
}

/// The columns of one input of a join.
pub open spec fn on_side(
    columns: Seq<(AtomArgumentSignature, TransformationArgument)>,
    right: bool,
) -> Seq<(AtomArgumentSignature, TransformationArgument)> {
    Seq::new(
        columns.len(),
        |i: int|
            (
                columns[i].0,
                TransformationArgument::Jn((right, columns[i].1->KV_0.0, columns[i].1->KV_0.1)),
            ),
    )
}

/// The rule arguments that the columns of two joined collections hold. The key
/// columns are read from the left.
pub open spec fn jn_columns(
    left_keys: Seq<AtomArgumentSignature>,
    left_values: Seq<AtomArgumentSignature>,
    right_values: Seq<AtomArgumentSignature>,
) -> Seq<(AtomArgumentSignature, TransformationArgument)> {
    on_side(kv_columns(left_keys, left_values), false) + on_side(
        kv_columns(Seq::empty(), right_values),
        true,
    )
}

/// The columns that hold some rule arguments; none where one of them is not held.
pub open spec fn flow_over(
    columns: Seq<(AtomArgumentSignature, TransformationArgument)>,
    signatures: Seq<AtomArgumentSignature>,
) -> Option<Seq<TransformationArgument>>
    decreases signatures.len(),
{
    if signatures.len() == 0 {
        Some(Seq::empty())
    } else {
        match (flow_over(columns, signatures.drop_last()), lookup(columns, signatures.last())) {
            (Some(front), Some(column)) => Some(front.push(column)),
            _ => None,
        }
    }
}

pub proof fn lemma_flow_over(
    columns: Seq<(AtomArgumentSignature, TransformationArgument)>,
    signatures: Seq<AtomArgumentSignature>,
)
    ensures
        flow_over(columns, signatures) matches Some(found) ==> found.len() == signatures.len(),
    decreases signatures.len(),
{
    if signatures.len() > 0 {
        lemma_flow_over(columns, signatures.drop_last());
    }
}

/// Equalities with constants, at columns.
pub open spec fn flow_consts(
    columns: Seq<(AtomArgumentSignature, TransformationArgument)>,
    pairs: Seq<(AtomArgumentSignature, ConstModel)>,
) -> Option<Seq<(TransformationArgument, ConstModel)>>
    decreases pairs.len(),
{
    if pairs.len() == 0 {
        Some(Seq::empty())
    } else {
        match (flow_consts(columns, pairs.drop_last()), lookup(columns, pairs.last().0)) {
            (Some(front), Some(column)) => Some(front.push((column, pairs.last().1))),
            _ => None,
        }
    }
}

/// Equalities of two columns.
pub open spec fn flow_aliases(
    columns: Seq<(AtomArgumentSignature, TransformationArgument)>,
    pairs: Seq<(AtomArgumentSignature, AtomArgumentSignature)>,
) -> Option<Seq<(TransformationArgument, TransformationArgument)>>
    decreases pairs.len(),
{
    if pairs.len() == 0 {
        Some(Seq::empty())
    } else {
        match (
            flow_aliases(columns, pairs.drop_last()),
            lookup(columns, pairs.last().0),
            lookup(columns, pairs.last().1),
        ) {
            (Some(front), Some(left), Some(right)) => Some(front.push((left, right))),
            _ => None,
        }
    }
}

/// Comparisons at columns.
pub open spec fn flow_comparisons(
    columns: Seq<(AtomArgumentSignature, TransformationArgument)>,
    compares: Seq<PlacedComparisonModel<AtomArgumentSignature>>,
) -> Option<Seq<PlacedComparisonModel<TransformationArgument>>>
    decreases compares.len(),
{
    if compares.len() == 0 {
        Some(Seq::empty())
    } else {
        match (
            flow_comparisons(columns, compares.drop_last()),
            flow_over(columns, compares.last().left.places()),
            flow_over(columns, compares.last().right.places()),
        ) {
            (Some(front), Some(left), Some(right)) => Some(
                front.push(move_comparison(compares.last(), left, right)),
            ),
            _ => None,
        }
    }
}

/// The flow from one collection; none where an argument is not among its columns.
pub open spec fn kv_flow(
    input_keys: Seq<AtomArgumentSignature>,
    input_values: Seq<AtomArgumentSignature>,
    output_keys: Seq<AtomArgumentSignature>,
    output_values: Seq<AtomArgumentSignature>,
    consts: Seq<(AtomArgumentSignature, ConstModel)>,
    aliases: Seq<(AtomArgumentSignature, AtomArgumentSignature)>,
    compares: Seq<PlacedComparisonModel<AtomArgumentSignature>>,
) -> Option<TransformationFlowModel> {
    let columns = kv_columns(input_keys, input_values);
    match (
        flow_over(columns, output_keys),
        flow_over(columns, output_values),
        flow_consts(columns, consts),
        flow_aliases(columns, aliases),
        flow_comparisons(columns, compares),
    ) {
        (Some(key), Some(value), Some(consts), Some(aliases), Some(compares)) => Some(
            TransformationFlowModel::KVToKV {
                key,
                value,
                constraints: BaseConstraintsModel {
                    constant_eq_constraints: consts,
                    variable_eq_constraints: aliases,
                },
                compares,
            },
        ),
        _ => None,
    }
}

/// The flow from two joined collections; none where an argument is not among
/// their columns.
pub open spec fn jn_flow(
    left_keys: Seq<AtomArgumentSignature>,
    left_values: Seq<AtomArgumentSignature>,
    right_values: Seq<AtomArgumentSignature>,
    output_keys: Seq<AtomArgumentSignature>,
    output_values: Seq<AtomArgumentSignature>,
    compares: Seq<PlacedComparisonModel<AtomArgumentSignature>>,
) -> Option<TransformationFlowModel> {
    let columns = jn_columns(left_keys, left_values, right_values);
    match (
        flow_over(columns, output_keys),
        flow_over(columns, output_values),
        flow_comparisons(columns, compares),
    ) {
        (Some(key), Some(value), Some(compares)) => Some(
            TransformationFlowModel::JnToKV { key, value, compares },
        ),
        _ => None,
    }
}

/// A flow from a join with left and right exchanged.
pub open spec fn flip_flow(flow: TransformationFlowModel) -> TransformationFlowModel {
    TransformationFlowModel::JnToKV {
        key: flow.key().map_values(|a: TransformationArgument| flipped(a)),
        value: flow.value().map_values(|a: TransformationArgument| flipped(a)),
        compares: flow.compares().map_values(
            |c: PlacedComparisonModel<TransformationArgument>| flip_comparison(c),
        ),
    }
}

/// Whether all columns of a flow are columns of a join.
pub open spec fn is_jn_flow(flow: TransformationFlowModel) -> bool {
    &&& flow is JnToKV
    &&& forall|i: int| 0 <= i < flow.key().len() ==> #[trigger] flow.key()[i] is Jn
    &&& forall|i: int| 0 <= i < flow.value().len() ==> #[trigger] flow.value()[i] is Jn
    &&& forall|i: int|
        0 <= i < flow.compares().len() ==> is_jn_comparison(#[trigger] flow.compares()[i])
}

fn flip_all(arguments: &Vec<TransformationArgument>) -> (out: Vec<TransformationArgument>)
    requires
        forall|i: int| 0 <= i < arguments@.len() ==> #[trigger] arguments@[i] is Jn,
    ensures
        out.deep_view() == arguments.deep_view().map_values(|a: TransformationArgument| flipped(a)),
{
    let mut out: Vec<TransformationArgument> = Vec::new();
    let mut i: usize = 0;
    while i < arguments.len()
        invariant
            i <= arguments.len(),
            forall|i: int| 0 <= i < arguments@.len() ==> #[trigger] arguments@[i] is Jn,
            out.len() == i,
            forall|k: int| 0 <= k < i ==> #[trigger] out@[k] == flipped(arguments@[k]),
        decreases arguments.len() - i,
    {
        out.push(arguments[i].jn_flip());
        i += 1;
    }
    assert(out.deep_view() =~= arguments.deep_view().map_values(
        |a: TransformationArgument| flipped(a),
    ));
    out
}

impl TransformationFlow {
    pub fn key(&self) -> (key: &Vec<TransformationArgument>)
        ensures
            key.deep_view() == self.deep_view().key(),
    {
        match self {
            TransformationFlow::KVToKV { key, .. } => key,
            TransformationFlow::JnToKV { key, .. } => key,
        }
    }

    pub fn value(&self) -> (value: &Vec<TransformationArgument>)
        ensures
            value.deep_view() == self.deep_view().value(),
    {
        match self {
            TransformationFlow::KVToKV { value, .. } => value,
            TransformationFlow::JnToKV { value, .. } => value,
        }
    }

    /// The flow with left and right exchanged.
    pub fn jn_flip(&self) -> (out: Self)
        requires
            is_jn_flow(self.deep_view()),
        ensures
            out.deep_view() == flip_flow(self.deep_view()),
    {
        let ghost model = self.deep_view();
        assert forall|i: int| 0 <= i < model.compares().len() implies is_jn_comparison(
            #[trigger] model.compares()[i],
        ) by {}
        match self {
            TransformationFlow::JnToKV { key, value, compares } => {
                assert forall|i: int| 0 <= i < key@.len() implies #[trigger] key@[i] is Jn by {
                    assert(model.key()[i] == key@[i]);
                }
                assert forall|i: int| 0 <= i < value@.len() implies #[trigger] value@[i] is Jn by {
                    assert(model.value()[i] == value@[i]);
                }
                let mut flips: Vec<PlacedComparison<TransformationArgument>> = Vec::new();
                let mut i: usize = 0;
                while i < compares.len()
                    invariant
                        i <= compares.len(),
                        model.compares() == compares.deep_view(),
                        forall|i: int|
                            0 <= i < model.compares().len() ==> is_jn_comparison(
                                #[trigger] model.compares()[i],
                            ),
                        flips.len() == i,
                        forall|k: int|
                            0 <= k < i ==> (#[trigger] flips@[k]).deep_view() == flip_comparison(
                                compares@[k].deep_view(),
                            ),
                    decreases compares.len() - i,
                {
                    assert(model.compares()[i as int] == compares@[i as int].deep_view());
                    flips.push(compares[i].jn_flip());
                    i += 1;
                }
                assert(flips.deep_view() =~= model.compares().map_values(
                    |c: PlacedComparisonModel<TransformationArgument>| flip_comparison(c),
                ));
                TransformationFlow::JnToKV {
                    key: flip_all(key),
                    value: flip_all(value),
                    compares: flips,
                }
            },
            TransformationFlow::KVToKV { .. } => vstd::pervasive::unreached(),
        }
    }

    pub fn constraints(&self) -> (constraints: &BaseConstraints)
        requires
            self.deep_view() is KVToKV,
        ensures
            constraints.deep_view() == self.deep_view()->constraints,
    {
        match self {
            TransformationFlow::KVToKV { constraints, .. } => constraints,
            TransformationFlow::JnToKV { .. } => vstd::pervasive::unreached(),
        }
    }

    pub fn compares(&self) -> (compares: &Vec<PlacedComparison<TransformationArgument>>)
        ensures
            compares.deep_view() == self.deep_view().compares(),
    {
        match self {
            TransformationFlow::KVToKV { compares, .. } => compares,
            TransformationFlow::JnToKV { compares, .. } => compares,
        }
    }

    /// Whether some inputs are left out.
    pub fn is_constrainted(&self) -> (answer: bool)
        ensures
            answer == self.deep_view().is_constrainted(),
    {
        let compares = self.compares();
        assert(compares.len() == compares.deep_view().len());
        match self {
            TransformationFlow::KVToKV { constraints, .. } => !(constraints.is_empty()
                && compares.len() == 0),
            TransformationFlow::JnToKV { .. } => compares.len() != 0,
        }
    }

    pub fn is_key_empty(&self) -> (answer: bool)
        ensures
            answer == (self.deep_view().key().len() == 0),
    {
        let key = self.key();
        assert(key.len() == key.deep_view().len());
        key.len() == 0
    }

    /// The columns that hold some rule arguments, if all of them are held.
    fn flow_over_signatures(
        columns: &Vec<(AtomArgumentSignature, TransformationArgument)>,
        signatures: &Vec<AtomArgumentSignature>,
    ) -> (found: Option<Vec<TransformationArgument>>)
        ensures
            found.deep_view() == flow_over(columns.deep_view(), signatures.deep_view()),
    {
        broadcast use group_take;

        let ghost model = signatures.deep_view();
        let mut found: Vec<TransformationArgument> = empty();
        let mut missing = false;
        let mut i: usize = 0;
        while i < signatures.len()
            invariant
                i <= signatures.len(),
                model == signatures.deep_view(),
                flow_over(columns.deep_view(), model.take(i as int)) == if missing {
                    None
                } else {
                    Some(found.deep_view())
                },
            decreases signatures.len() - i,
        {
            assert(model.take(i + 1).drop_last() == model.take(i as int));
            assert(model[i as int] == signatures@[i as int].deep_view());
            match find(columns, &signatures[i]) {
                Some(column) => {
                    push(&mut found, *column);
                },
                None => {
                    missing = true;
                },
            }
            i += 1;
        }
        if missing {
            None
        } else {
            Some(found)
        }
    }

    /// The rule arguments that the columns of one collection hold.
    pub fn kv_argument_flow_map(
        key_signatures: &Vec<AtomArgumentSignature>,
        value_signatures: &Vec<AtomArgumentSignature>,
    ) -> (columns: Vec<(AtomArgumentSignature, TransformationArgument)>)
        ensures
            columns.deep_view() == kv_columns(key_signatures.deep_view(), value_signatures.deep_view()),
    {
        let mut columns: Vec<(AtomArgumentSignature, TransformationArgument)> = Vec::new();
        let mut i: usize = 0;
        while i < key_signatures.len()
            invariant
                i <= key_signatures.len(),
                columns.len() == i,
                forall|k: int|
                    0 <= k < i ==> #[trigger] columns@[k] == (
                        key_signatures@[k],
                        TransformationArgument::KV((false, k as usize)),
                    ),
            decreases key_signatures.len() - i,
        {
            columns.push((key_signatures[i], TransformationArgument::KV((false, i))));
            i += 1;
        }
        let ghost keys = columns@;
        let mut i: usize = 0;
        while i < value_signatures.len()
            invariant
                i <= value_signatures.len(),
                columns@.len() == keys.len() + i,
                columns@.take(keys.len() as int) == keys,
                forall|k: int|
                    0 <= k < i ==> #[trigger] columns@[keys.len() + k] == (
                        value_signatures@[k],
                        TransformationArgument::KV((true, k as usize)),
                    ),
            decreases value_signatures.len() - i,
        {
            columns.push((value_signatures[i], TransformationArgument::KV((true, i))));
            assert(columns@.take(keys.len() as int) =~= keys);
            i += 1;
        }
        proof {
            let model = kv_columns(key_signatures.deep_view(), value_signatures.deep_view());
            assert forall|k: int| 0 <= k < columns@.len() implies columns.deep_view()[k]
                == model[k] by {
                if k < keys.len() {
                    assert(columns@[k] == columns@.take(keys.len() as int)[k]);
                } else {
                    let j = k - keys.len();
                    assert(columns@[keys.len() + j] == (
                        value_signatures@[j],
                        TransformationArgument::KV((true, j as usize)),
                    ));
                }
            }
            assert(columns.deep_view() =~= model);
        }
        columns
    }

    fn on_side(
        columns: Vec<(AtomArgumentSignature, TransformationArgument)>,
        right: bool,
    ) -> (out: Vec<(AtomArgumentSignature, TransformationArgument)>)
        requires
            forall|i: int| 0 <= i < columns@.len() ==> (#[trigger] columns@[i]).1 is KV,
        ensures
            out.deep_view() == on_side(columns.deep_view(), right),
    {
        let mut out: Vec<(AtomArgumentSignature, TransformationArgument)> = Vec::new();
        let mut i: usize = 0;
        while i < columns.len()
            invariant
                i <= columns.len(),
                forall|i: int| 0 <= i < columns@.len() ==> (#[trigger] columns@[i]).1 is KV,
                out.len() == i,
                forall|k: int|
                    0 <= k < i ==> #[trigger] out@[k] == (
                        columns@[k].0,
                        TransformationArgument::Jn(
                            (right, columns@[k].1->KV_0.0, columns@[k].1->KV_0.1),
                        ),
                    ),
            decreases columns.len() - i,
        {
            let (value, id) = columns[i].1.kv_indices();
            out.push((columns[i].0, TransformationArgument::Jn((right, value, id))));
            i += 1;
        }
        assert(out.deep_view() =~= on_side(columns.deep_view(), right));
        out
    }

    fn flow_over_consts(
        columns: &Vec<(AtomArgumentSignature, TransformationArgument)>,
        pairs: &Vec<(AtomArgumentSignature, Const)>,
    ) -> (found: Option<Vec<(TransformationArgument, Const)>>)
        ensures
            found.deep_view() == flow_consts(columns.deep_view(), pairs.deep_view()),
    {
        broadcast use group_take;

        let ghost model = pairs.deep_view();
        let mut found: Vec<(TransformationArgument, Const)> = empty();
        let mut missing = false;
        let mut i: usize = 0;
        while i < pairs.len()
            invariant
                i <= pairs.len(),
                model == pairs.deep_view(),
                flow_consts(columns.deep_view(), model.take(i as int)) == if missing {
                    None
                } else {
                    Some(found.deep_view())
                },
            decreases pairs.len() - i,
        {
            assert(model.take(i + 1).drop_last() == model.take(i as int));
            assert(model[i as int] == pairs@[i as int].deep_view());
            match find(columns, &pairs[i].0) {
                Some(column) => {
                    push(&mut found, (*column, pairs[i].1.clone()));
                },
                None => {
                    missing = true;
                },
            }
            i += 1;
        }
        if missing {
            None
        } else {
            Some(found)
        }
    }

    fn flow_over_aliases(
        columns: &Vec<(AtomArgumentSignature, TransformationArgument)>,
        pairs: &Vec<(AtomArgumentSignature, AtomArgumentSignature)>,
    ) -> (found: Option<Vec<(TransformationArgument, TransformationArgument)>>)
        ensures
            found.deep_view() == flow_aliases(columns.deep_view(), pairs.deep_view()),
    {
        broadcast use group_take;

        let ghost model = pairs.deep_view();
        let mut found: Vec<(TransformationArgument, TransformationArgument)> = empty();
        let mut missing = false;
        let mut i: usize = 0;
        while i < pairs.len()
            invariant
                i <= pairs.len(),
                model == pairs.deep_view(),
                flow_aliases(columns.deep_view(), model.take(i as int)) == if missing {
                    None
                } else {
                    Some(found.deep_view())
                },
            decreases pairs.len() - i,
        {
            assert(model.take(i + 1).drop_last() == model.take(i as int));
            assert(model[i as int] == pairs@[i as int].deep_view());
            match (find(columns, &pairs[i].0), find(columns, &pairs[i].1)) {
                (Some(left), Some(right)) => {
                    push(&mut found, (*left, *right));
                },
                _ => {
                    missing = true;
                },
            }
            i += 1;
        }
        if missing {
            None
        } else {
            Some(found)
        }
    }

    fn flow_over_comparisons(
        columns: &Vec<(AtomArgumentSignature, TransformationArgument)>,
        compares: &Vec<PlacedComparison<AtomArgumentSignature>>,
    ) -> (found: Option<Vec<PlacedComparison<TransformationArgument>>>)
        ensures
            found.deep_view() == flow_comparisons(columns.deep_view(), compares.deep_view()),
    {
        broadcast use group_take;

        let ghost model = compares.deep_view();
        let mut found: Vec<PlacedComparison<TransformationArgument>> = empty();
        let mut missing = false;
        let mut i: usize = 0;
        while i < compares.len()
            invariant
                i <= compares.len(),
                model == compares.deep_view(),
                flow_comparisons(columns.deep_view(), model.take(i as int)) == if missing {
                    None
                } else {
                    Some(found.deep_view())
                },
            decreases compares.len() - i,
        {
            assert(model.take(i + 1).drop_last() == model.take(i as int));
            assert(model[i as int] == compares@[i as int].deep_view());
            let compare = &compares[i];
            proof {
                lemma_flow_over(columns.deep_view(), model[i as int].left.places());
                lemma_flow_over(columns.deep_view(), model[i as int].right.places());
            }
            match (
                Self::flow_over_signatures(columns, &compare.left.places()),
                Self::flow_over_signatures(columns, &compare.right.places()),
            ) {
                (Some(left), Some(right)) => {
                    assert(left.deep_view() =~= left@);
                    assert(right.deep_view() =~= right@);
                    push(
                        &mut found,
                        PlacedComparison::<TransformationArgument>::from_comparison_expr(
                            compare,
                            &left,
                            &right,
                        ),
                    );
                },
                _ => {
                    missing = true;
                },
            }
            i += 1;
        }
        if missing {
            None
        } else {
            Some(found)
        }
    }

    /// The flow from one collection, if all arguments are among its columns.
    pub fn try_kv_to_kv(
        input_key_signatures: &Vec<AtomArgumentSignature>,
        input_value_signatures: &Vec<AtomArgumentSignature>,
        output_key_signatures: &Vec<AtomArgumentSignature>,
        output_value_signatures: &Vec<AtomArgumentSignature>,
        const_eq_constraints: &Vec<(AtomArgumentSignature, Const)>,
        var_eq_constraints: &Vec<(AtomArgumentSignature, AtomArgumentSignature)>,
        compare_exprs: &Vec<PlacedComparison<AtomArgumentSignature>>,
    ) -> (flow: Option<Self>)
        ensures
            flow.deep_view() == kv_flow(
                input_key_signatures.deep_view(),
                input_value_signatures.deep_view(),
                output_key_signatures.deep_view(),
                output_value_signatures.deep_view(),
                const_eq_constraints.deep_view(),
                var_eq_constraints.deep_view(),
                compare_exprs.deep_view(),
            ),
    {
        let columns = Self::kv_argument_flow_map(input_key_signatures, input_value_signatures);
        match (
            Self::flow_over_signatures(&columns, output_key_signatures),
            Self::flow_over_signatures(&columns, output_value_signatures),
            Self::flow_over_consts(&columns, const_eq_constraints),
            Self::flow_over_aliases(&columns, var_eq_constraints),
            Self::flow_over_comparisons(&columns, compare_exprs),
        ) {
            (Some(key), Some(value), Some(consts), Some(aliases), Some(compares)) => Some(
                TransformationFlow::KVToKV {
                    key,
                    value,
                    constraints: BaseConstraints::new(consts, aliases),
                    compares,
                },
            ),
            _ => None,
        }
    }

    /// The flow from one collection.
    pub fn kv_to_kv(
        input_key_signatures: &Vec<AtomArgumentSignature>,
        input_value_signatures: &Vec<AtomArgumentSignature>,
        output_key_signatures: &Vec<AtomArgumentSignature>,
        output_value_signatures: &Vec<AtomArgumentSignature>,
        const_eq_constraints: &Vec<(AtomArgumentSignature, Const)>,
        var_eq_constraints: &Vec<(AtomArgumentSignature, AtomArgumentSignature)>,
        compare_exprs: &Vec<PlacedComparison<AtomArgumentSignature>>,
    ) -> (flow: Self)
        requires
            kv_flow(
                input_key_signatures.deep_view(),
                input_value_signatures.deep_view(),
                output_key_signatures.deep_view(),
                output_value_signatures.deep_view(),
                const_eq_constraints.deep_view(),
                var_eq_constraints.deep_view(),
                compare_exprs.deep_view(),
            ) is Some,
        ensures
            Some(flow.deep_view()) == kv_flow(
                input_key_signatures.deep_view(),
                input_value_signatures.deep_view(),
                output_key_signatures.deep_view(),
                output_value_signatures.deep_view(),
                const_eq_constraints.deep_view(),
                var_eq_constraints.deep_view(),
                compare_exprs.deep_view(),
            ),
    {
        Self::try_kv_to_kv(
            input_key_signatures,
            input_value_signatures,
            output_key_signatures,
            output_value_signatures,
            const_eq_constraints,
            var_eq_constraints,
            compare_exprs,
        ).unwrap()
    }

    /// The flow from two joined collections, if all arguments are among their columns.
    pub fn try_join_to_kv(
        input_left_key_signatures: &Vec<AtomArgumentSignature>,
        input_left_value_signatures: &Vec<AtomArgumentSignature>,
        input_right_value_signatures: &Vec<AtomArgumentSignature>,
        output_key_signatures: &Vec<AtomArgumentSignature>,
        output_value_signatures: &Vec<AtomArgumentSignature>,
        compare_exprs: &Vec<PlacedComparison<AtomArgumentSignature>>,
    ) -> (flow: Option<Self>)
        ensures
            flow.deep_view() == jn_flow(
                input_left_key_signatures.deep_view(),
                input_left_value_signatures.deep_view(),
                input_right_value_signatures.deep_view(),
                output_key_signatures.deep_view(),
                output_value_signatures.deep_view(),
                compare_exprs.deep_view(),
            ),
    {
        let left = Self::kv_argument_flow_map(
            input_left_key_signatures,
            input_left_value_signatures,
        );
        let right = Self::kv_argument_flow_map(&empty(), input_right_value_signatures);
        proof {
            assert forall|i: int| 0 <= i < left@.len() implies (#[trigger] left@[i]).1 is KV by {
                assert(left.deep_view()[i] == left@[i]);
            }
            assert forall|i: int| 0 <= i < right@.len() implies (#[trigger] right@[i]).1 is KV by {
                assert(right.deep_view()[i] == right@[i]);
            }
        }
        let mut columns = Self::on_side(left, false);
        extend(&mut columns, Self::on_side(right, true));
        match (
            Self::flow_over_signatures(&columns, output_key_signatures),
            Self::flow_over_signatures(&columns, output_value_signatures),
            Self::flow_over_comparisons(&columns, compare_exprs),
        ) {
            (Some(key), Some(value), Some(compares)) => Some(
                TransformationFlow::JnToKV { key, value, compares },
            ),
            _ => None,
        }
    }

    /// The flow from two joined collections.
    pub fn join_to_kv(
        input_left_key_signatures: &Vec<AtomArgumentSignature>,
        input_left_value_signatures: &Vec<AtomArgumentSignature>,
        _input_right_key_signatures: &Vec<AtomArgumentSignature>,
        input_right_value_signatures: &Vec<AtomArgumentSignature>,
        output_key_signatures: &Vec<AtomArgumentSignature>,
        output_value_signatures: &Vec<AtomArgumentSignature>,
        compare_exprs: &Vec<PlacedComparison<AtomArgumentSignature>>,
    ) -> (flow: Self)
        requires
            jn_flow(
                input_left_key_signatures.deep_view(),
                input_left_value_signatures.deep_view(),
                input_right_value_signatures.deep_view(),
                output_key_signatures.deep_view(),
                output_value_signatures.deep_view(),
                compare_exprs.deep_view(),
            ) is Some,
        ensures
            Some(flow.deep_view()) == jn_flow(
                input_left_key_signatures.deep_view(),
                input_left_value_signatures.deep_view(),
                input_right_value_signatures.deep_view(),
                output_key_signatures.deep_view(),
                output_value_signatures.deep_view(),
                compare_exprs.deep_view(),
            ),
    {
        Self::try_join_to_kv(
            input_left_key_signatures,
            input_left_value_signatures,
            input_right_value_signatures,
            output_key_signatures,
            output_value_signatures,
            compare_exprs,
        ).unwrap()
    }
}

proof fn lemma_lookup_jn(
    columns: Seq<(AtomArgumentSignature, TransformationArgument)>,
    signature: AtomArgumentSignature,
)
    requires
        forall|i: int| 0 <= i < columns.len() ==> (#[trigger] columns[i]).1 is Jn,
    ensures
        lookup(columns, signature) matches Some(column) ==> column is Jn,
    decreases columns.len(),
{
    if columns.len() > 0 {
        let front = columns.drop_last();
        assert(columns[columns.len() - 1].1 is Jn);
        assert forall|i: int| 0 <= i < front.len() implies (#[trigger] front[i]).1 is Jn by {
            assert(front[i] == columns[i]);
        }
        lemma_lookup_jn(front, signature);
    }
}

proof fn lemma_flow_over_jn(
    columns: Seq<(AtomArgumentSignature, TransformationArgument)>,
    signatures: Seq<AtomArgumentSignature>,
)
    requires
        forall|i: int| 0 <= i < columns.len() ==> (#[trigger] columns[i]).1 is Jn,
    ensures
        flow_over(columns, signatures) matches Some(found) ==> forall|i: int|
            0 <= i < found.len() ==> #[trigger] found[i] is Jn,
    decreases signatures.len(),
{
    if signatures.len() > 0 {
        lemma_flow_over_jn(columns, signatures.drop_last());
        lemma_lookup_jn(columns, signatures.last());
    }
}

proof fn lemma_flow_comparisons_jn(
    columns: Seq<(AtomArgumentSignature, TransformationArgument)>,
    compares: Seq<PlacedComparisonModel<AtomArgumentSignature>>,
)
    requires
        forall|i: int| 0 <= i < columns.len() ==> (#[trigger] columns[i]).1 is Jn,
    ensures
        flow_comparisons(columns, compares) matches Some(found) ==> forall|i: int|
            0 <= i < found.len() ==> is_jn_comparison(#[trigger] found[i]),
    decreases compares.len(),
{
    if compares.len() > 0 {
        lemma_flow_comparisons_jn(columns, compares.drop_last());
        let last = compares.last();
        lemma_flow_over(columns, last.left.places());
        lemma_flow_over(columns, last.right.places());
        lemma_flow_over_jn(columns, last.left.places());
        lemma_flow_over_jn(columns, last.right.places());
        if let (Some(left), Some(right)) = (
            flow_over(columns, last.left.places()),
            flow_over(columns, last.right.places()),
        ) {
            lemma_moved_to_join(last.left, left);
            lemma_moved_to_join(last.right, right);
        }
    }
}

/// The flow from two joined collections reads nothing but columns of the join, so
/// that left and right can be exchanged.
pub proof fn law_join_flow_can_be_flipped(
    left_keys: Seq<AtomArgumentSignature>,
    left_values: Seq<AtomArgumentSignature>,
    right_values: Seq<AtomArgumentSignature>,
    output_keys: Seq<AtomArgumentSignature>,
    output_values: Seq<AtomArgumentSignature>,
    compares: Seq<PlacedComparisonModel<AtomArgumentSignature>>,
)
    ensures
        jn_flow(
            left_keys,
            left_values,
            right_values,
            output_keys,
            output_values,
            compares,
        ) matches Some(flow) ==> is_jn_flow(flow) && flow.key().len() == output_keys.len()
            && flow.value().len() == output_values.len(),
{
    let columns = jn_columns(left_keys, left_values, right_values);
    assert forall|i: int| 0 <= i < columns.len() implies (#[trigger] columns[i]).1 is Jn by {}
    lemma_flow_over_jn(columns, output_keys);
    lemma_flow_over_jn(columns, output_values);
    lemma_flow_over(columns, output_keys);
    lemma_flow_over(columns, output_values);
    lemma_flow_comparisons_jn(columns, compares);
}

/// Exchanging left and right of a flow twice changes nothing.
pub proof fn law_flip_flow_twice(flow: TransformationFlowModel)
    requires
        flow is JnToKV,
    ensures
        flip_flow(flip_flow(flow)) == flow,
{
    let twice = flip_flow(flip_flow(flow));
    assert(twice.key() =~= flow.key());
    assert(twice.value() =~= flow.value());
    assert forall|i: int| 0 <= i < flow.compares().len() implies twice.compares()[i]
        == flow.compares()[i] by {
        lemma_flip_arithmetic_twice(flow.compares()[i].left);
        lemma_flip_arithmetic_twice(flow.compares()[i].right);
    }
    assert(twice.compares() =~= flow.compares());
}

} // verus!
