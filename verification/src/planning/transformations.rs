//! Transformations of collections, the steps of a plan.
use vstd::prelude::*;
use vstd::string::*;
use crate::catalog::atoms::AtomArgumentSignature;
use crate::catalog::compare::{PlacedComparison, PlacedComparisonModel};
use crate::lists::{clone_list, empty, extend, same_list, Same};
use crate::parsing::rule::{Const, ConstModel};
use crate::planning::collections::{
    collection_text, Collection, CollectionModel, CollectionSignature, CollectionSignatureModel,
};
use crate::planning::flow::{is_jn_flow, jn_flow, kv_flow, TransformationFlow, TransformationFlowModel};
use crate::text::{Render, Written};

verus! {

/// What a transformation does.
#[derive(Debug, Clone, Copy, PartialEq, Eq, Structural)]
pub enum TransformationKind {
    RowToRow,
    RowToK,
    RowToKv,
    KvToKv,
    KvToK,
    JnKK,
    JnKKv,
    JnKvK,
    JnKvKv,
    Cartesian,
    NjKvK,
    NjKK,
}

/// A step of a plan.
#[allow(inconsistent_fields)]
#[derive(Debug)]
pub enum Transformation {
    /// rows to rows
    RowToRow { input: Collection, output: Collection, flow: TransformationFlow, is_no_op: bool },
    /// rows to keys alone
    RowToK { input: Collection, output: Collection, flow: TransformationFlow, is_no_op: bool },
    /// rows to keys and values
    RowToKv { input: Collection, output: Collection, flow: TransformationFlow },
    /// keys and values again
    KvToKv { input: Collection, output: Collection, flow: TransformationFlow },
    /// keys and values to keys alone
    KvToK { input: Collection, output: Collection, flow: TransformationFlow },
    /// a join of keys with keys
    JnKK { input: (Collection, Collection), output: Collection, flow: TransformationFlow },
    /// a join of keys with keys and values
    JnKKv { input: (Collection, Collection), output: Collection, flow: TransformationFlow },
    /// a join of keys and values with keys
    JnKvK { input: (Collection, Collection), output: Collection, flow: TransformationFlow },
    /// a join of keys and values on both sides
    JnKvKv { input: (Collection, Collection), output: Collection, flow: TransformationFlow },
    /// every pair of rows
    Cartesian { input: (Collection, Collection), output: Collection, flow: TransformationFlow },
    /// keys and values whose key the right side lacks
    NjKvK { input: (Collection, Collection), output: Collection, flow: TransformationFlow },
    /// keys that the right side lacks
    NjKK { input: (Collection, Collection), output: Collection, flow: TransformationFlow },
}

/// A step of a plan as mathematics. A step on one collection has no `second` one.
#[verifier::ext_equal]
pub struct TransformationModel {
    pub kind: TransformationKind,
    pub input: CollectionModel,
    pub second: Option<CollectionModel>,
    pub output: CollectionModel,
    pub flow: TransformationFlowModel,
    /// the output is the input as it stands
    pub is_no_op: bool,
}

impl TransformationModel {
    /// Whether the step reads the rows of one collection.
    pub open spec fn is_unary(self) -> bool {
        self.kind is RowToRow || self.kind is RowToKv || self.kind is RowToK
    }

    /// Whether the step reads two collections.
    pub open spec fn is_binary(self) -> bool {
        !self.is_unary() && !(self.kind is KvToKv) && !(self.kind is KvToK)
    }
}

/// Whether a step on one collection reads rows and puts out what its kind says.
pub open spec fn is_row_step(step: TransformationModel) -> bool {
    &&& step.is_unary()
    &&& step.flow is KVToKV
    &&& step.input.keys.len() == 0
    &&& step.output.keys.len() + step.output.values.len() > 0
    &&& step.kind is RowToRow <==> step.output.keys.len() == 0
    &&& step.kind is RowToK <==> step.output.values.len() == 0
    &&& step.flow.key().len() == step.output.keys.len()
    &&& step.flow.value().len() == step.output.values.len()
}

/// Whether a step on two collections joins keys of the same arity, and the sides
/// are what its kind says.
pub open spec fn is_join_step(step: TransformationModel) -> bool {
    &&& step.is_binary()
    &&& step.second is Some
    &&& is_jn_flow(step.flow)
    &&& step.input.keys.len() == step.second->0.keys.len()
    &&& step.flow.key().len() == step.output.keys.len()
    &&& step.flow.value().len() == step.output.values.len()
    &&& if step.kind is Cartesian {
        step.input.keys.len() == 0
    } else {
        let left_keys_only = step.input.values.len() == 0;
        let right_keys_only = step.second->0.values.len() == 0;
        &&& step.input.keys.len() > 0
        &&& match step.kind {
            TransformationKind::JnKvKv => !left_keys_only && !right_keys_only,
            TransformationKind::JnKvK => !left_keys_only && right_keys_only,
            TransformationKind::JnKKv => left_keys_only && !right_keys_only,
            TransformationKind::JnKK => left_keys_only && right_keys_only,
            TransformationKind::NjKvK => !left_keys_only && right_keys_only,
            TransformationKind::NjKK => left_keys_only && right_keys_only,
            _ => false,
        }
    }
}

impl DeepView for Transformation {
    type V = TransformationModel;

    open spec fn deep_view(&self) -> TransformationModel {
        match self {
            Transformation::RowToRow { input, output, flow, is_no_op } => TransformationModel {
                kind: TransformationKind::RowToRow,
                input: input.deep_view(),
                second: None,
                output: output.deep_view(),
                flow: flow.deep_view(),
                is_no_op: *is_no_op,
            },
            Transformation::RowToK { input, output, flow, is_no_op } => TransformationModel {
                kind: TransformationKind::RowToK,
                input: input.deep_view(),
                second: None,
                output: output.deep_view(),
                flow: flow.deep_view(),
                is_no_op: *is_no_op,
            },
            Transformation::RowToKv { input, output, flow } => TransformationModel {
                kind: TransformationKind::RowToKv,
                input: input.deep_view(),
                second: None,
                output: output.deep_view(),
                flow: flow.deep_view(),
                is_no_op: false,
            },
            Transformation::KvToKv { input, output, flow } => TransformationModel {
                kind: TransformationKind::KvToKv,
                input: input.deep_view(),
                second: None,
                output: output.deep_view(),
                flow: flow.deep_view(),
                is_no_op: false,
            },
            Transformation::KvToK { input, output, flow } => TransformationModel {
                kind: TransformationKind::KvToK,
                input: input.deep_view(),
                second: None,
                output: output.deep_view(),
                flow: flow.deep_view(),
                is_no_op: false,
            },
            Transformation::JnKK { input, output, flow } => TransformationModel {
                kind: TransformationKind::JnKK,
                input: input.0.deep_view(),
                second: Some(input.1.deep_view()),
                output: output.deep_view(),
                flow: flow.deep_view(),
                is_no_op: false,
            },
            Transformation::JnKKv { input, output, flow } => TransformationModel {
                kind: TransformationKind::JnKKv,
                input: input.0.deep_view(),
                second: Some(input.1.deep_view()),
                output: output.deep_view(),
                flow: flow.deep_view(),
                is_no_op: false,
            },
            Transformation::JnKvK { input, output, flow } => TransformationModel {
                kind: TransformationKind::JnKvK,
                input: input.0.deep_view(),
                second: Some(input.1.deep_view()),
                output: output.deep_view(),
                flow: flow.deep_view(),
                is_no_op: false,
            },
            Transformation::JnKvKv { input, output, flow } => TransformationModel {
                kind: TransformationKind::JnKvKv,
                input: input.0.deep_view(),
                second: Some(input.1.deep_view()),
                output: output.deep_view(),
                flow: flow.deep_view(),
                is_no_op: false,
            },
            Transformation::Cartesian { input, output, flow } => TransformationModel {
                kind: TransformationKind::Cartesian,
                input: input.0.deep_view(),
                second: Some(input.1.deep_view()),
                output: output.deep_view(),
                flow: flow.deep_view(),
                is_no_op: false,
            },
            Transformation::NjKvK { input, output, flow } => TransformationModel {
                kind: TransformationKind::NjKvK,
                input: input.0.deep_view(),
                second: Some(input.1.deep_view()),
                output: output.deep_view(),
                flow: flow.deep_view(),
                is_no_op: false,
            },
            Transformation::NjKK { input, output, flow } => TransformationModel {
                kind: TransformationKind::NjKK,
                input: input.0.deep_view(),
                second: Some(input.1.deep_view()),
                output: output.deep_view(),
                flow: flow.deep_view(),
                is_no_op: false,
            },
        }
    }
}

impl Written for TransformationModel {
    open spec fn text(self) -> Seq<char> {
        let mark = match self.kind {
            TransformationKind::RowToRow => if self.is_no_op {
                "[nop] "@
            } else {
                "[row] "@
            },
            TransformationKind::RowToK => if self.is_no_op {
                "[nop] "@
            } else {
                "[kv] "@
            },
            TransformationKind::RowToKv | TransformationKind::KvToKv | TransformationKind::KvToK =>
            "[kv] "@,
            TransformationKind::JnKK
            | TransformationKind::JnKKv
            | TransformationKind::JnKvK
            | TransformationKind::JnKvKv => "[jn] "@,
            TransformationKind::Cartesian => "[\u{2a2f}] "@,
            TransformationKind::NjKvK | TransformationKind::NjKK => "[aj] "@,
        };
        mark + collection_text(self.output)
    }
}

impl Render for Transformation {
    fn to_string(&self) -> (out: String) {
        let mut out = (match self.kind() {
            TransformationKind::RowToRow => if self.is_no_op() {
                "[nop] "
            } else {
                "[row] "
            },
            TransformationKind::RowToK => if self.is_no_op() {
                "[nop] "
            } else {
                "[kv] "
            },
            TransformationKind::RowToKv | TransformationKind::KvToKv | TransformationKind::KvToK =>
            "[kv] ",
            TransformationKind::JnKK
            | TransformationKind::JnKKv
            | TransformationKind::JnKvK
            | TransformationKind::JnKvKv => "[jn] ",
            TransformationKind::Cartesian => "[\u{2a2f}] ",
            TransformationKind::NjKvK | TransformationKind::NjKK => "[aj] ",
        }).to_owned();
        out.append(self.output().pprint().as_str());
        out
    }
}

impl Same for Transformation {
    fn same(&self, other: &Self) -> (same: bool) {
        let second = match (self.second(), other.second()) {
            (None, None) => true,
            (Some(a), Some(b)) => a.same(b),
            _ => false,
        };
        second && self.kind() == other.kind() && self.is_no_op() == other.is_no_op()
            && self.first().same(other.first()) && self.output().same(other.output())
            && self.flow().same(other.flow())
    }
}

impl Clone for Transformation {
    fn clone(&self) -> (copy: Self)
        ensures
            copy.deep_view() == self.deep_view(),
    {
        match self {
            Transformation::RowToRow { input, output, flow, is_no_op } => Transformation::RowToRow {
                input: input.clone(),
                output: output.clone(),
                flow: flow.clone(),
                is_no_op: *is_no_op,
            },
            Transformation::RowToK { input, output, flow, is_no_op } => Transformation::RowToK {
                input: input.clone(),
                output: output.clone(),
                flow: flow.clone(),
                is_no_op: *is_no_op,
            },
            Transformation::RowToKv { input, output, flow } => Transformation::RowToKv {
                input: input.clone(),
                output: output.clone(),
                flow: flow.clone(),
            },
            Transformation::KvToKv { input, output, flow } => Transformation::KvToKv {
                input: input.clone(),
                output: output.clone(),
                flow: flow.clone(),
            },
            Transformation::KvToK { input, output, flow } => Transformation::KvToK {
                input: input.clone(),
                output: output.clone(),
                flow: flow.clone(),
            },
            Transformation::JnKK { input, output, flow } => Transformation::JnKK {
                input: (input.0.clone(), input.1.clone()),
                output: output.clone(),
                flow: flow.clone(),
            },
            Transformation::JnKKv { input, output, flow } => Transformation::JnKKv {
                input: (input.0.clone(), input.1.clone()),
                output: output.clone(),
                flow: flow.clone(),
            },
            Transformation::JnKvK { input, output, flow } => Transformation::JnKvK {
                input: (input.0.clone(), input.1.clone()),
                output: output.clone(),
                flow: flow.clone(),
            },
            Transformation::JnKvKv { input, output, flow } => Transformation::JnKvKv {
                input: (input.0.clone(), input.1.clone()),
                output: output.clone(),
                flow: flow.clone(),
            },
            Transformation::Cartesian { input, output, flow } => Transformation::Cartesian {
                input: (input.0.clone(), input.1.clone()),
                output: output.clone(),
                flow: flow.clone(),
            },
            Transformation::NjKvK { input, output, flow } => Transformation::NjKvK {
                input: (input.0.clone(), input.1.clone()),
                output: output.clone(),
                flow: flow.clone(),
            },
            Transformation::NjKK { input, output, flow } => Transformation::NjKK {
                input: (input.0.clone(), input.1.clone()),
                output: output.clone(),
                flow: flow.clone(),
            },
        }
    }
}

/// The kind of a step on one collection; none where nothing is put out, or keys
/// would become rows.
pub open spec fn kv_kind(
    is_row_in: bool,
    is_row_out: bool,
    is_key_only_out: bool,
) -> Option<TransformationKind> {
    if is_row_out && is_key_only_out {
        None
    } else if is_row_in {
        if is_row_out {
            Some(TransformationKind::RowToRow)
        } else if is_key_only_out {
            Some(TransformationKind::RowToK)
        } else {
            Some(TransformationKind::RowToKv)
        }
    } else if is_row_out {
        None
    } else if is_key_only_out {
        Some(TransformationKind::KvToK)
    } else {
        Some(TransformationKind::KvToKv)
    }
}

/// The name of the output of a step on one collection.
pub open spec fn kv_name(
    input: Seq<char>,
    is_row_out: bool,
    is_key_only_out: bool,
    flow: TransformationFlowModel,
) -> Seq<char> {
    (if is_row_out {
        "Row("@
    } else if is_key_only_out {
        "K("@
    } else {
        "Kv("@
    }) + input + ")"@ + flow.text()
}

/// A step on one collection: the columns that it puts out, and the equalities and
/// comparisons by which rows are kept. None where an argument is not among the
/// columns of the input, nothing is put out, or keys would become rows.
pub open spec fn kv_step(
    input: CollectionModel,
    output_keys: Seq<AtomArgumentSignature>,
    output_values: Seq<AtomArgumentSignature>,
    consts: Seq<(AtomArgumentSignature, ConstModel)>,
    aliases: Seq<(AtomArgumentSignature, AtomArgumentSignature)>,
    compares: Seq<PlacedComparisonModel<AtomArgumentSignature>>,
) -> Option<TransformationModel> {
    let is_row_in = input.keys.len() == 0;
    let is_row_out = output_keys.len() == 0;
    let is_key_only_out = output_values.len() == 0;
    match (
        kv_flow(
            input.keys,
            input.values,
            output_keys,
            output_values,
            consts,
            aliases,
            compares,
        ),
        kv_kind(is_row_in, is_row_out, is_key_only_out),
    ) {
        (Some(flow), Some(kind)) => Some(
            TransformationModel {
                kind,
                input,
                second: None,
                output: CollectionModel {
                    signature: CollectionSignatureModel::UnaryTransformationOutput {
                        name: kv_name(input.signature.name(), is_row_out, is_key_only_out, flow),
                    },
                    keys: output_keys,
                    values: output_values,
                },
                flow,
                is_no_op: is_row_in && (is_row_out || is_key_only_out) && consts.len() == 0
                    && aliases.len() == 0 && compares.len() == 0 && input.keys + input.values
                    == output_keys + output_values,
            },
        ),
        _ => None,
    }
}

/// The kind of a join.
pub open spec fn jn_kind(
    is_cartesian: bool,
    is_key_only_left: bool,
    is_key_only_right: bool,
) -> TransformationKind {
    if is_cartesian {
        TransformationKind::Cartesian
    } else {
        match (is_key_only_left, is_key_only_right) {
            (true, true) => TransformationKind::JnKK,
            (false, true) => TransformationKind::JnKvK,
            (false, false) => TransformationKind::JnKvKv,
            (true, false) => TransformationKind::JnKKv,
        }
    }
}

/// The name of the output of a step on two collections.
pub open spec fn jn_name(
    kind: TransformationKind,
    left: Seq<char>,
    right: Seq<char>,
    flow: TransformationFlowModel,
) -> Seq<char> {
    let start = match kind {
        TransformationKind::JnKK => "JnKK("@,
        TransformationKind::JnKvK => "JnKvK("@,
        TransformationKind::JnKvKv => "JnKvKv("@,
        TransformationKind::JnKKv => "JnKKv("@,
        TransformationKind::NjKK => "NjKK("@,
        TransformationKind::NjKvK => "NjKvK("@,
        _ => "Cartesian("@,
    };
    start + left + ", "@ + right + ")"@ + flow.text()
}

/// A join of two collections on their keys. None where an argument is not among
/// the columns of the inputs.
pub open spec fn jn_step(
    left: CollectionModel,
    right: CollectionModel,
    output_keys: Seq<AtomArgumentSignature>,
    output_values: Seq<AtomArgumentSignature>,
    compares: Seq<PlacedComparisonModel<AtomArgumentSignature>>,
) -> Option<TransformationModel> {
    let kind = jn_kind(left.keys.len() == 0, left.values.len() == 0, right.values.len() == 0);
    match jn_flow(left.keys, left.values, right.values, output_keys, output_values, compares) {
        Some(flow) => Some(
            TransformationModel {
                kind,
                input: left,
                second: Some(right),
                output: CollectionModel {
                    signature: CollectionSignatureModel::JnOutput {
                        name: jn_name(kind, left.signature.name(), right.signature.name(), flow),
                    },
                    keys: output_keys,
                    values: output_values,
                },
                flow,
                is_no_op: false,
            },
        ),
        None => None,
    }
}

/// What the left collection holds under keys that the right one lacks. None where
/// the right one has values, or an argument is not among the columns of the left.
pub open spec fn aj_step(
    left: CollectionModel,
    right: CollectionModel,
    output_keys: Seq<AtomArgumentSignature>,
    output_values: Seq<AtomArgumentSignature>,
) -> Option<TransformationModel> {
    let kind = if left.values.len() == 0 {
        TransformationKind::NjKK
    } else {
        TransformationKind::NjKvK
    };
    match jn_flow(
        left.keys,
        left.values,
        right.values,
        output_keys,
        output_values,
        Seq::empty(),
    ) {
        Some(flow) if right.values.len() == 0 => Some(
            TransformationModel {
                kind,
                input: left,
                second: Some(right),
                output: CollectionModel {
                    signature: CollectionSignatureModel::NegJnOutput {
                        name: jn_name(kind, left.signature.name(), right.signature.name(), flow),
                    },
                    keys: output_keys,
                    values: output_values,
                },
                flow,
                is_no_op: false,
            },
        ),
        _ => None,
    }
}

fn render_jn_name(start: &str, left: &Collection, right: &Collection, flow: &TransformationFlow) -> (out:
    String)
    ensures
        out@ == start@ + left.deep_view().signature.name() + ", "@
            + right.deep_view().signature.name() + ")"@ + flow.deep_view().text(),
{
    let mut out = start.to_owned();
    out.append(left.signature().name());
    out.append(", ");
    out.append(right.signature().name());
    out.append(")");
    out.append(flow.to_string().as_str());
    out
}

impl Transformation {
    pub fn kind(&self) -> (kind: TransformationKind)
        ensures
            kind == self.deep_view().kind,
    {
        match self {
            Transformation::RowToRow { .. } => TransformationKind::RowToRow,
            Transformation::RowToK { .. } => TransformationKind::RowToK,
            Transformation::RowToKv { .. } => TransformationKind::RowToKv,
            Transformation::KvToKv { .. } => TransformationKind::KvToKv,
            Transformation::KvToK { .. } => TransformationKind::KvToK,
            Transformation::JnKK { .. } => TransformationKind::JnKK,
            Transformation::JnKKv { .. } => TransformationKind::JnKKv,
            Transformation::JnKvK { .. } => TransformationKind::JnKvK,
            Transformation::JnKvKv { .. } => TransformationKind::JnKvKv,
            Transformation::Cartesian { .. } => TransformationKind::Cartesian,
            Transformation::NjKvK { .. } => TransformationKind::NjKvK,
            Transformation::NjKK { .. } => TransformationKind::NjKK,
        }
    }

    /// Whether the output is the input as it stands.
    pub fn is_no_op(&self) -> (answer: bool)
        ensures
            answer == self.deep_view().is_no_op,
    {
        match self {
            Transformation::RowToRow { is_no_op, .. } => *is_no_op,
            Transformation::RowToK { is_no_op, .. } => *is_no_op,
            _ => false,
        }
    }

    /// The collection that is read, or the left one of two.
    pub fn first(&self) -> (input: &Collection)
        ensures
            input.deep_view() == self.deep_view().input,
    {
        match self {
            Transformation::RowToRow { input, .. } => input,
            Transformation::RowToK { input, .. } => input,
            Transformation::RowToKv { input, .. } => input,
            Transformation::KvToKv { input, .. } => input,
            Transformation::KvToK { input, .. } => input,
            Transformation::JnKK { input, .. } => &input.0,
            Transformation::JnKKv { input, .. } => &input.0,
            Transformation::JnKvK { input, .. } => &input.0,
            Transformation::JnKvKv { input, .. } => &input.0,
            Transformation::Cartesian { input, .. } => &input.0,
            Transformation::NjKvK { input, .. } => &input.0,
            Transformation::NjKK { input, .. } => &input.0,
        }
    }

    /// The right one of two collections that are read.
    pub fn second(&self) -> (input: Option<&Collection>)
        ensures
            input.deep_view() == self.deep_view().second,
    {
        match self {
            Transformation::JnKK { input, .. } => Some(&input.1),
            Transformation::JnKKv { input, .. } => Some(&input.1),
            Transformation::JnKvK { input, .. } => Some(&input.1),
            Transformation::JnKvKv { input, .. } => Some(&input.1),
            Transformation::Cartesian { input, .. } => Some(&input.1),
            Transformation::NjKvK { input, .. } => Some(&input.1),
            Transformation::NjKK { input, .. } => Some(&input.1),
            _ => None,
        }
    }

    /// The collection whose rows are read.
    pub fn unary(&self) -> (input: &Collection)
        requires
            self.deep_view().is_unary(),
        ensures
            input.deep_view() == self.deep_view().input,
    {
        match self {
            Transformation::RowToRow { input, .. } => input,
            Transformation::RowToKv { input, .. } => input,
            Transformation::RowToK { input, .. } => input,
            _ => vstd::pervasive::unreached(),
        }
    }

    pub fn is_unary(&self) -> (answer: bool)
        ensures
            answer == self.deep_view().is_unary(),
    {
        match self {
            Transformation::RowToRow { .. } => true,
            Transformation::RowToKv { .. } => true,
            Transformation::RowToK { .. } => true,
            _ => false,
        }
    }

    /// The two collections that are read.
    pub fn binary(&self) -> (input: &(Collection, Collection))
        requires
            self.deep_view().is_binary(),
        ensures
            input.0.deep_view() == self.deep_view().input,
            Some(input.1.deep_view()) == self.deep_view().second,
    {
        match self {
            Transformation::JnKK { input, .. } => input,
            Transformation::JnKKv { input, .. } => input,
            Transformation::JnKvK { input, .. } => input,
            Transformation::JnKvKv { input, .. } => input,
            Transformation::Cartesian { input, .. } => input,
            Transformation::NjKvK { input, .. } => input,
            Transformation::NjKK { input, .. } => input,
            _ => vstd::pervasive::unreached(),
        }
    }

    pub fn output(&self) -> (output: &Collection)
        ensures
            output.deep_view() == self.deep_view().output,
    {
        match self {
            Transformation::RowToRow { output, .. } => output,
            Transformation::RowToK { output, .. } => output,
            Transformation::RowToKv { output, .. } => output,
            Transformation::KvToKv { output, .. } => output,
            Transformation::KvToK { output, .. } => output,
            Transformation::JnKK { output, .. } => output,
            Transformation::JnKKv { output, .. } => output,
            Transformation::JnKvK { output, .. } => output,
            Transformation::JnKvKv { output, .. } => output,
            Transformation::Cartesian { output, .. } => output,
            Transformation::NjKvK { output, .. } => output,
            Transformation::NjKK { output, .. } => output,
        }
    }

    pub fn flow(&self) -> (flow: &TransformationFlow)
        ensures
            flow.deep_view() == self.deep_view().flow,
    {
        match self {
            Transformation::RowToRow { flow, .. } => flow,
            Transformation::RowToK { flow, .. } => flow,
            Transformation::RowToKv { flow, .. } => flow,
            Transformation::KvToKv { flow, .. } => flow,
            Transformation::KvToK { flow, .. } => flow,
            Transformation::JnKK { flow, .. } => flow,
            Transformation::JnKKv { flow, .. } => flow,
            Transformation::JnKvK { flow, .. } => flow,
            Transformation::JnKvKv { flow, .. } => flow,
            Transformation::Cartesian { flow, .. } => flow,
            Transformation::NjKvK { flow, .. } => flow,
            Transformation::NjKK { flow, .. } => flow,
        }
    }

    /// A step on one collection, if the output can come from the input.
    pub fn try_kv_to_kv(
        input: Collection,
        output_key_signatures: &Vec<AtomArgumentSignature>,
        output_value_signatures: &Vec<AtomArgumentSignature>,
        const_eq_constraints: &Vec<(AtomArgumentSignature, Const)>,
        var_eq_constraints: &Vec<(AtomArgumentSignature, AtomArgumentSignature)>,
        compare_exprs: &Vec<PlacedComparison<AtomArgumentSignature>>,
    ) -> (step: Option<Self>)
        ensures
            step.deep_view() == kv_step(
                input.deep_view(),
                output_key_signatures.deep_view(),
                output_value_signatures.deep_view(),
                const_eq_constraints.deep_view(),
                var_eq_constraints.deep_view(),
                compare_exprs.deep_view(),
            ),
    {
        assert(output_key_signatures.len() == output_key_signatures.deep_view().len());
        assert(output_value_signatures.len() == output_value_signatures.deep_view().len());
        assert(const_eq_constraints.len() == const_eq_constraints.deep_view().len());
        assert(var_eq_constraints.len() == var_eq_constraints.deep_view().len());
        assert(compare_exprs.len() == compare_exprs.deep_view().len());
        let flow = match TransformationFlow::try_kv_to_kv(
            &input.key_argument_signatures,
            &input.value_argument_signatures,
            output_key_signatures,
            output_value_signatures,
            const_eq_constraints,
            var_eq_constraints,
            compare_exprs,
        ) {
            Some(flow) => flow,
            None => {
                return None;
            },
        };
        let is_row_in = !input.is_kv();
        let is_row_out = output_key_signatures.len() == 0;
        let is_key_only_out = output_value_signatures.len() == 0;
        if (is_row_out && is_key_only_out) || (is_row_out && !is_row_in) {
            return None;
        }
        let mut columns_in = clone_list(&input.key_argument_signatures);
        extend(&mut columns_in, clone_list(&input.value_argument_signatures));
        let mut columns_out = clone_list(output_key_signatures);
        extend(&mut columns_out, clone_list(output_value_signatures));
        let is_no_op = is_row_in && (is_row_out || is_key_only_out) && const_eq_constraints.len()
            == 0 && var_eq_constraints.len() == 0 && compare_exprs.len() == 0 && same_list(
            &columns_in,
            &columns_out,
        );
        let mut name = (if is_row_out {
            "Row("
        } else if is_key_only_out {
            "K("
        } else {
            "Kv("
        }).to_owned();
        name.append(input.signature().name());
        name.append(")");
        name.append(flow.to_string().as_str());
        let output = Collection::new(
            CollectionSignature::UnaryTransformationOutput { name },
            output_key_signatures,
            output_value_signatures,
        );
        Some(
            if is_row_in {
                if is_row_out {
                    Transformation::RowToRow { input, output, flow, is_no_op }
                } else if is_key_only_out {
                    Transformation::RowToK { input, output, flow, is_no_op }
                } else {
                    Transformation::RowToKv { input, output, flow }
                }
            } else if is_key_only_out {
                Transformation::KvToK { input, output, flow }
            } else {
                Transformation::KvToKv { input, output, flow }
            },
        )
    }

    /// A step on one collection.
    pub fn kv_to_kv(
        input: Collection,
        output_key_signatures: &Vec<AtomArgumentSignature>,
        output_value_signatures: &Vec<AtomArgumentSignature>,
        const_eq_constraints: &Vec<(AtomArgumentSignature, Const)>,
        var_eq_constraints: &Vec<(AtomArgumentSignature, AtomArgumentSignature)>,
        compare_exprs: &Vec<PlacedComparison<AtomArgumentSignature>>,
    ) -> (step: Self)
        requires
            kv_step(
                input.deep_view(),
                output_key_signatures.deep_view(),
                output_value_signatures.deep_view(),
                const_eq_constraints.deep_view(),
                var_eq_constraints.deep_view(),
                compare_exprs.deep_view(),
            ) is Some,
        ensures
            Some(step.deep_view()) == kv_step(
                input.deep_view(),
                output_key_signatures.deep_view(),
                output_value_signatures.deep_view(),
                const_eq_constraints.deep_view(),
                var_eq_constraints.deep_view(),
                compare_exprs.deep_view(),
            ),
    {
        Self::try_kv_to_kv(
            input,
            output_key_signatures,
            output_value_signatures,
            const_eq_constraints,
            var_eq_constraints,
            compare_exprs,
        ).unwrap()
    }

    /// A join, if the output can come from the inputs.
    pub fn try_join(
        input: (Collection, Collection),
        output_key_signatures: &Vec<AtomArgumentSignature>,
        output_value_signatures: &Vec<AtomArgumentSignature>,
        compare_exprs: &Vec<PlacedComparison<AtomArgumentSignature>>,
    ) -> (step: Option<Self>)
        ensures
            step.deep_view() == jn_step(
                input.0.deep_view(),
                input.1.deep_view(),
                output_key_signatures.deep_view(),
                output_value_signatures.deep_view(),
                compare_exprs.deep_view(),
            ),
    {
        let flow = match TransformationFlow::try_join_to_kv(
            &input.0.key_argument_signatures,
            &input.0.value_argument_signatures,
            &input.1.value_argument_signatures,
            output_key_signatures,
            output_value_signatures,
            compare_exprs,
        ) {
            Some(flow) => flow,
            None => {
                return None;
            },
        };
        let is_cartesian = !input.0.is_kv();
        let is_key_only_left = input.0.is_k_only();
        let is_key_only_right = input.1.is_k_only();
        let start = if is_cartesian {
            "Cartesian("
        } else {
            match (is_key_only_left, is_key_only_right) {
                (true, true) => "JnKK(",
                (false, true) => "JnKvK(",
                (false, false) => "JnKvKv(",
                (true, false) => "JnKKv(",
            }
        };
        let name = render_jn_name(start, &input.0, &input.1, &flow);
        let output = Collection::new(
            CollectionSignature::JnOutput { name },
            output_key_signatures,
            output_value_signatures,
        );
        Some(
            if is_cartesian {
                Transformation::Cartesian { input, output, flow }
            } else {
                match (is_key_only_left, is_key_only_right) {
                    (true, true) => Transformation::JnKK { input, output, flow },
                    (false, true) => Transformation::JnKvK { input, output, flow },
                    (false, false) => Transformation::JnKvKv { input, output, flow },
                    (true, false) => Transformation::JnKKv { input, output, flow },
                }
            },
        )
    }

    /// A join of two collections on their keys.
    pub fn join(
        input: (Collection, Collection),
        output_key_signatures: &Vec<AtomArgumentSignature>,
        output_value_signatures: &Vec<AtomArgumentSignature>,
        compare_exprs: &Vec<PlacedComparison<AtomArgumentSignature>>,
    ) -> (step: Self)
        requires
            jn_step(
                input.0.deep_view(),
                input.1.deep_view(),
                output_key_signatures.deep_view(),
                output_value_signatures.deep_view(),
                compare_exprs.deep_view(),
            ) is Some,
        ensures
            Some(step.deep_view()) == jn_step(
                input.0.deep_view(),
                input.1.deep_view(),
                output_key_signatures.deep_view(),
                output_value_signatures.deep_view(),
                compare_exprs.deep_view(),
            ),
    {
        Self::try_join(
            input,
            output_key_signatures,
            output_value_signatures,
            compare_exprs,
        ).unwrap()
    }

    /// An antijoin, if the output can come from the inputs.
    pub fn try_antijoin(
        input: (Collection, Collection),
        output_key_signatures: &Vec<AtomArgumentSignature>,
        output_value_signatures: &Vec<AtomArgumentSignature>,
    ) -> (step: Option<Self>)
        ensures
            step.deep_view() == aj_step(
                input.0.deep_view(),
                input.1.deep_view(),
                output_key_signatures.deep_view(),
                output_value_signatures.deep_view(),
            ),
    {
        if !input.1.is_k_only() {
            return None;
        }
        let flow = match TransformationFlow::try_join_to_kv(
            &input.0.key_argument_signatures,
            &input.0.value_argument_signatures,
            &input.1.value_argument_signatures,
            output_key_signatures,
            output_value_signatures,
            &empty(),
        ) {
            Some(flow) => flow,
            None => {
                return None;
            },
        };
        let is_key_only_left = input.0.is_k_only();
        let name = render_jn_name(
            if is_key_only_left {
                "NjKK("
            } else {
                "NjKvK("
            },
            &input.0,
            &input.1,
            &flow,
        );
        let output = Collection::new(
            CollectionSignature::NegJnOutput { name },
            output_key_signatures,
            output_value_signatures,
        );
        Some(
            if is_key_only_left {
                Transformation::NjKK { input, output, flow }
            } else {
                Transformation::NjKvK { input, output, flow }
            },
        )
    }

    /// What the left collection holds under keys that the right one lacks.
    pub fn antijoin(
        input: (Collection, Collection),
        output_key_signatures: &Vec<AtomArgumentSignature>,
        output_value_signatures: &Vec<AtomArgumentSignature>,
    ) -> (step: Self)
        requires
            aj_step(
                input.0.deep_view(),
                input.1.deep_view(),
                output_key_signatures.deep_view(),
                output_value_signatures.deep_view(),
            ) is Some,
        ensures
            Some(step.deep_view()) == aj_step(
                input.0.deep_view(),
                input.1.deep_view(),
                output_key_signatures.deep_view(),
                output_value_signatures.deep_view(),
            ),
    {
        Self::try_antijoin(input, output_key_signatures, output_value_signatures).unwrap()
    }
}

} // verus!
