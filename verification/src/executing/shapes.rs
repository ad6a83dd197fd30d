//! Names and columns of the steps of a plan.
use vstd::prelude::*;
use crate::catalog::atoms::{AtomArgumentSignature, AtomSignature};
use crate::catalog::body::{atom_positions, atoms_of, position};
use crate::catalog::compare::PlacedComparisonModel;
use crate::catalog::open::ids_of;
use crate::catalog::query::{
    across_ids, aliases_at, comps_across, comps_covered, comps_vars, comps_within, consts_at,
    still_open, trace, vars_of,
};
use crate::catalog::rule::strs_of;
use crate::lists::lookup;
use crate::optimizing::join_tree::{common, is_over, lemma_is_over_parts, JoinTree};
use crate::parsing::arithmetic::distinct;
use crate::parsing::rule::{ConstModel, FLRuleModel};
use crate::planning::arguments::TransformationArgument;
use crate::planning::collections::CollectionModel;
use crate::planning::flow::{flow_over, jn_columns, kv_columns, lemma_flow_over};
use crate::planning::linking::lemma_jn_name;
use crate::planning::rule::{atoms_at, join_steps, side_values, tree_steps, PlannedModel};
use crate::planning::steps::{
    antijoins, assembled, atom_steps, base_of, carried, filters_of, key_step, key_vars, semijoins,
    var_columns, without, StepsModel,
};
use crate::planning::transformations::{
    aj_step, jn_name, jn_step, kv_name, kv_step, TransformationModel,
};

verus! {

/// How long the name of what a step puts out is.
pub open spec fn name_len(step: TransformationModel) -> nat {
    step.output.signature.name().len()
}

/// Whether columns hold arguments of some positive atoms.
pub open spec fn are_of(columns: Seq<AtomArgumentSignature>, ids: Set<usize>) -> bool {
    forall|i: int|
        0 <= i < columns.len() ==> (#[trigger] columns[i]).atom_signature.is_positive
            && ids.contains(columns[i].atom_signature.rhs_id)
}

/// Whether a collection holds arguments of some positive atoms.
pub open spec fn is_of(collection: CollectionModel, ids: Set<usize>) -> bool {
    are_of(collection.keys, ids) && are_of(collection.values, ids)
}

/// Whether a step is one on a collection, a join or an antijoin of what it reads, with
/// the columns that it puts out.
#[verifier::opaque]
pub open spec fn is_made(step: TransformationModel) -> bool {
    let keys = step.output.keys;
    let values = step.output.values;
    if step.is_unary() {
        exists|
            consts: Seq<(AtomArgumentSignature, ConstModel)>,
            aliases: Seq<(AtomArgumentSignature, AtomArgumentSignature)>,
            compares: Seq<PlacedComparisonModel<AtomArgumentSignature>>,
        | #[trigger]
            kv_step(step.input, keys, values, consts, aliases, compares) == Some(step)
    } else if step.kind is NjKvK || step.kind is NjKK {
        aj_step(step.input, step.second->0, keys, values) == Some(step)
    } else {
        exists|compares: Seq<PlacedComparisonModel<AtomArgumentSignature>>| #[trigger]
            jn_step(step.input, step.second->0, keys, values, compares) == Some(step)
    }
}

/// Whether what a step puts out is no relation, is named by what the step does, and
/// has the columns of the flow.
#[verifier::opaque]
pub open spec fn is_named(step: TransformationModel) -> bool {
    let input = step.input.signature.name();
    &&& is_made(step)
    &&& !(step.output.signature is Atom)
    &&& step.flow.key().len() == step.output.keys.len()
    &&& step.flow.value().len() == step.output.values.len()
    &&& if step.is_unary() {
        step.flow is KVToKV && step.output.signature.name() == kv_name(
            input,
            step.output.keys.len() == 0,
            step.output.values.len() == 0,
            step.flow,
        )
    } else {
        step.is_binary() && step.flow is JnToKV && step.output.signature.name() == jn_name(
            step.kind,
            input,
            step.second->0.signature.name(),
            step.flow,
        )
    }
}

/// Whether the steps of a tree have names not longer than a step, and read
/// arguments of some positive atoms.
pub open spec fn is_shaped(steps: StepsModel, ids: Set<usize>) -> bool {
    &&& is_of(steps.last.output, ids)
    &&& is_named(steps.last)
    &&& forall|step: TransformationModel| #[trigger]
        steps.tree.contains_key(step) ==> name_len(step) <= name_len(steps.last) && is_of(
            step.input,
            ids,
        ) && is_named(step) && is_named(steps.tree[step].0) && is_named(steps.tree[step].1)
}

/// Whether the steps of a tree have names longer than a step.
pub open spec fn is_above(steps: StepsModel, first: TransformationModel) -> bool {
    &&& name_len(first) <= name_len(steps.last)
    &&& forall|step: TransformationModel| #[trigger]
        steps.tree.contains_key(step) ==> name_len(first) < name_len(step)
}

proof fn lemma_looked_up(
    columns: Seq<(AtomArgumentSignature, TransformationArgument)>,
    argument: AtomArgumentSignature,
)
    ensures
        lookup(columns, argument) is Some ==> exists|k: int|
            0 <= k < columns.len() && (#[trigger] columns[k]).0 == argument,
    decreases columns.len(),
{
    if columns.len() > 0 {
        let front = columns.drop_last();
        lemma_looked_up(front, argument);
        if columns.last().0 == argument {
            assert(columns[columns.len() - 1].0 == argument);
        } else if lookup(front, argument) is Some {
            let k = choose|k: int| 0 <= k < front.len() && (#[trigger] front[k]).0 == argument;
            assert(columns[k].0 == argument);
        }
    }
}

/// What flows from columns is among them.
proof fn lemma_flows(
    columns: Seq<(AtomArgumentSignature, TransformationArgument)>,
    arguments: Seq<AtomArgumentSignature>,
    ids: Set<usize>,
)
    requires
        forall|k: int|
            0 <= k < columns.len() ==> (#[trigger] columns[k]).0.atom_signature.is_positive
                && ids.contains(columns[k].0.atom_signature.rhs_id),
        flow_over(columns, arguments) is Some,
    ensures
        are_of(arguments, ids),
    decreases arguments.len(),
{
    if arguments.len() > 0 {
        lemma_flows(columns, arguments.drop_last(), ids);
        lemma_looked_up(columns, arguments.last());
        assert forall|i: int| 0 <= i < arguments.len() implies (
        #[trigger] arguments[i]).atom_signature.is_positive && ids.contains(
            arguments[i].atom_signature.rhs_id,
        ) by {
            if i < arguments.len() - 1 {
                assert(arguments.drop_last()[i] == arguments[i]);
            }
        }
    }
}

/// A join puts out arguments that its inputs hold.
pub proof fn lemma_joined_columns(
    left: CollectionModel,
    right: CollectionModel,
    key_columns: Seq<AtomArgumentSignature>,
    value_columns: Seq<AtomArgumentSignature>,
    compares: Seq<PlacedComparisonModel<AtomArgumentSignature>>,
    ids: Set<usize>,
)
    requires
        is_of(left, ids),
        are_of(right.values, ids),
    ensures
        jn_step(left, right, key_columns, value_columns, compares) matches Some(step) ==> is_named(
            step,
        ) && is_of(
            step.output,
            ids,
        ) && step.input == left && name_len(step) > left.signature.name().len() && name_len(step)
            > right.signature.name().len(),
        aj_step(left, right, key_columns, value_columns) matches Some(step) ==> is_named(
            step,
        ) && is_of(
            step.output,
            ids,
        ) && step.input == left && name_len(step) > left.signature.name().len() && name_len(step)
            > right.signature.name().len(),
{
    reveal(is_made);
    reveal(is_named);
    let columns = jn_columns(left.keys, left.values, right.values);
    assert forall|k: int| 0 <= k < columns.len() implies (
    #[trigger] columns[k]).0.atom_signature.is_positive && ids.contains(
        columns[k].0.atom_signature.rhs_id,
    ) by {
        let n = left.keys.len();
        let m = left.values.len();
        if k < n {
            assert(columns[k].0 == left.keys[k]);
        } else if k < n + m {
            assert(columns[k].0 == left.values[k - n]);
        } else {
            assert(columns[k].0 == right.values[k - n - m]);
        }
    }
    if let Some(step) = jn_step(left, right, key_columns, value_columns, compares) {
        assert(jn_step(step.input, step.second->0, key_columns, value_columns, compares) == Some(
            step,
        ));
        lemma_flows(columns, key_columns, ids);
        lemma_flows(columns, value_columns, ids);
        lemma_flow_over(columns, key_columns);
        lemma_flow_over(columns, value_columns);
        lemma_jn_name(step.kind, left.signature.name(), right.signature.name(), step.flow);
    }
    if let Some(step) = aj_step(left, right, key_columns, value_columns) {
        lemma_flows(columns, key_columns, ids);
        lemma_flows(columns, value_columns, ids);
        lemma_flow_over(columns, key_columns);
        lemma_flow_over(columns, value_columns);
        lemma_jn_name(step.kind, left.signature.name(), right.signature.name(), step.flow);
    }
}

/// A step on the relation of a positive atom puts out its arguments.
proof fn lemma_leaf_columns(
    rule: FLRuleModel,
    atom: AtomSignature,
    key_columns: Seq<AtomArgumentSignature>,
    value_columns: Seq<AtomArgumentSignature>,
    consts: Seq<(AtomArgumentSignature, ConstModel)>,
    aliases: Seq<(AtomArgumentSignature, AtomArgumentSignature)>,
    compares: Seq<PlacedComparisonModel<AtomArgumentSignature>>,
)
    requires
        atom.is_positive,
        atom.rhs_id < atoms_of(rule, true).len(),
    ensures
        kv_step(
            base_of(rule, atom),
            key_columns,
            value_columns,
            consts,
            aliases,
            compares,
        ) matches Some(step) ==> is_of(step.output, set![atom.rhs_id]) && is_named(step),
{
    reveal(is_made);
    reveal(is_named);
    let base = base_of(rule, atom);
    let columns = kv_columns(base.keys, base.values);
    let ids = set![atom.rhs_id];
    assert forall|k: int| 0 <= k < columns.len() implies (
    #[trigger] columns[k]).0.atom_signature.is_positive && ids.contains(
        columns[k].0.atom_signature.rhs_id,
    ) by {
        assert(columns[k].0 == base.values[k]);
        assert(base.values[k] == position(true, atom.rhs_id as int, k));
    }
    if let Some(step) = kv_step(base, key_columns, value_columns, consts, aliases, compares) {
        assert(kv_step(step.input, key_columns, value_columns, consts, aliases, compares) == Some(
            step,
        ));
        lemma_flows(columns, key_columns, ids);
        lemma_flows(columns, value_columns, ids);
        lemma_flow_over(columns, key_columns);
        lemma_flow_over(columns, value_columns);
    }
}

/// The step from the relation of an atom to its variables is named by what it does.
proof fn lemma_key_step_named(rule: FLRuleModel, atom: AtomSignature, comps: Seq<usize>)
    ensures
        key_step(rule, atom, comps) matches Some(step) ==> is_named(step)
            && step.output.values.len() == 0,
{
    reveal(is_made);
    reveal(is_named);
    let base = base_of(rule, atom);
    let columns = kv_columns(base.keys, base.values);
    lemma_flow_over(columns, var_columns(rule, atom));
    lemma_flow_over(columns, Seq::empty());
    if let Some(step) = key_step(rule, atom, comps) {
        let arguments = atom_positions(rule, atom.is_positive)[atom.rhs_id as int];
        assert(kv_step(
            step.input,
            step.output.keys,
            step.output.values,
            consts_at(rule, arguments),
            aliases_at(rule, arguments),
            assembled(rule, comps, seq![atom], key_vars(rule, atom))->0,
        ) == Some(step));
    }
}

pub proof fn lemma_semijoins_shape(
    rule: FLRuleModel,
    atom: AtomSignature,
    subs: Seq<AtomSignature>,
    keys: Seq<Seq<char>>,
    values: Seq<Seq<char>>,
    comps: Seq<usize>,
)
    requires
        atom.is_positive,
        atom.rhs_id < atoms_of(rule, true).len(),
    ensures
        semijoins(rule, atom, subs, keys, values, comps) matches Some(steps) ==> is_shaped(
            steps,
            set![atom.rhs_id],
        ),
    decreases subs.len(),
{
    let ids = set![atom.rhs_id];
    if semijoins(rule, atom, subs, keys, values, comps) is Some {
        let steps = semijoins(rule, atom, subs, keys, values, comps)->0;
        if subs.len() == 0 {
            let columns = atom_positions(rule, true)[atom.rhs_id as int];
            lemma_leaf_columns(
                rule,
                atom,
                trace(rule, keys, seq![atom])->0,
                trace(rule, values, seq![atom])->0,
                consts_at(rule, columns),
                aliases_at(rule, columns),
                assembled(rule, comps, seq![atom], strs_of(rule, columns))->0,
            );
        } else {
            let sub_keys = key_vars(rule, subs.last());
            let sub_values = carried(keys, values, sub_keys);
            lemma_semijoins_shape(rule, atom, subs.drop_last(), sub_keys, sub_values, comps);
            let left = semijoins(rule, atom, subs.drop_last(), sub_keys, sub_values, comps)->0;
            let right = key_step(rule, subs.last(), comps)->0;
            lemma_key_step_named(rule, subs.last(), comps);
            lemma_joined_columns(
                left.last.output,
                right.output,
                trace(rule, keys, seq![atom])->0,
                trace(rule, values, seq![atom])->0,
                Seq::empty(),
                ids,
            );
        }
    }
}

pub proof fn lemma_antijoins_shape(
    rule: FLRuleModel,
    atoms: Seq<AtomSignature>,
    first: TransformationModel,
    negated: Seq<AtomSignature>,
    keys: Seq<Seq<char>>,
    values: Seq<Seq<char>>,
    comps: Seq<usize>,
    ids: Set<usize>,
)
    requires
        is_of(first.output, ids),
        is_named(first),
    ensures
        antijoins(rule, atoms, first, negated, keys, values, comps) matches Some(steps)
            ==> is_shaped(steps, ids) && is_above(steps, first),
    decreases negated.len(),
{
    if negated.len() > 0 && antijoins(rule, atoms, first, negated, keys, values, comps) is Some {
        let last_keys = key_vars(rule, negated.last());
        let last_values = carried(keys, values, last_keys);
        let front = negated.drop_last();
        lemma_antijoins_shape(rule, atoms, first, front, last_keys, last_values, comps, ids);
        let left = antijoins(rule, atoms, first, front, last_keys, last_values, comps)->0;
        let right = key_step(rule, negated.last(), comps)->0;
        lemma_key_step_named(rule, negated.last(), comps);
        lemma_joined_columns(
            left.last.output,
            right.output,
            trace(rule, keys, atoms)->0,
            trace(rule, values, atoms)->0,
            Seq::empty(),
            ids,
        );
    }
}

/// The steps that `atom_steps` puts the antijoins on.
pub open spec fn first_steps(
    rule: FLRuleModel,
    atom: AtomSignature,
    subs: Seq<AtomSignature>,
    negated: Seq<AtomSignature>,
    keys: Seq<Seq<char>>,
    values: Seq<Seq<char>>,
    comps: Seq<usize>,
) -> Option<StepsModel> {
    let first_keys = key_vars(rule, negated[0]);
    semijoins(rule, atom, subs, first_keys, first_values(rule, atom, negated, keys, values), comps)
}

pub open spec fn first_values(
    rule: FLRuleModel,
    atom: AtomSignature,
    negated: Seq<AtomSignature>,
    keys: Seq<Seq<char>>,
    values: Seq<Seq<char>>,
) -> Seq<Seq<char>> {
    common(
        without(key_vars(rule, atom), key_vars(rule, negated[0])),
        keys + values + distinct(vars_of(rule, false, ids_of(negated))),
    )
}

pub proof fn lemma_atom_steps_shape(
    rule: FLRuleModel,
    atom: AtomSignature,
    subs: Seq<AtomSignature>,
    negated: Seq<AtomSignature>,
    keys: Seq<Seq<char>>,
    values: Seq<Seq<char>>,
    comps: Seq<usize>,
)
    requires
        atom.is_positive,
        atom.rhs_id < atoms_of(rule, true).len(),
    ensures
        atom_steps(rule, atom, subs, negated, keys, values, comps) matches Some(steps)
            ==> is_shaped(steps, set![atom.rhs_id]),
{
    if negated.len() == 0 {
        lemma_semijoins_shape(rule, atom, subs, keys, values, comps);
    } else if atom_steps(rule, atom, subs, negated, keys, values, comps) is Some {
        let first_keys = key_vars(rule, negated[0]);
        let values_below = first_values(rule, atom, negated, keys, values);
        lemma_semijoins_shape(rule, atom, subs, first_keys, values_below, comps);
        let bottom = first_steps(rule, atom, subs, negated, keys, values, comps)->0;
        lemma_antijoins_shape(
            rule,
            seq![atom],
            bottom.last,
            negated,
            keys,
            values,
            comps,
            set![atom.rhs_id],
        );
    }
}

pub proof fn lemma_join_steps_shape(
    rule: FLRuleModel,
    left: StepsModel,
    right: StepsModel,
    atoms: Seq<AtomSignature>,
    negated: Seq<AtomSignature>,
    sides: Seq<Seq<char>>,
    keys: Seq<Seq<char>>,
    values: Seq<Seq<char>>,
    compares: Option<Seq<PlacedComparisonModel<AtomArgumentSignature>>>,
    comps: Seq<usize>,
    left_ids: Set<usize>,
    right_ids: Set<usize>,
)
    requires
        is_shaped(left, left_ids),
        is_shaped(right, right_ids),
    ensures
        join_steps(
            rule,
            left,
            right,
            atoms,
            negated,
            sides,
            keys,
            values,
            compares,
            comps,
        ) matches Some(steps) ==> is_shaped(steps, left_ids.union(right_ids)),
{
    let ids = left_ids.union(right_ids);
    if join_steps(
        rule,
        left,
        right,
        atoms,
        negated,
        sides,
        keys,
        values,
        compares,
        comps,
    ) is Some {
        let join_keys = if negated.len() == 0 {
            keys
        } else {
            key_vars(rule, negated[0])
        };
        let join_values = if negated.len() == 0 {
            values
        } else {
            distinct(without(sides, join_keys))
        };
        let k = trace(rule, join_keys, atoms)->0;
        let v = trace(rule, join_values, atoms)->0;
        let join = jn_step(left.last.output, right.last.output, k, v, compares->0)->0;
        assert(is_of(left.last.output, ids));
        assert(is_of(right.last.output, ids));
        lemma_joined_columns(left.last.output, right.last.output, k, v, compares->0, ids);
        lemma_antijoins_shape(rule, atoms, join, negated, keys, values, comps, ids);
        let top = antijoins(rule, atoms, join, negated, keys, values, comps)->0;
        let steps = join_steps(
            rule,
            left,
            right,
            atoms,
            negated,
            sides,
            keys,
            values,
            compares,
            comps,
        )->0;
        assert forall|step: TransformationModel| #[trigger]
            steps.tree.contains_key(step) implies name_len(step) <= name_len(steps.last) && is_of(
            step.input,
            ids,
        ) && is_named(step) && is_named(steps.tree[step].0) && is_named(steps.tree[step].1) by {
            if right.tree.contains_key(step) {
                assert(is_of(step.input, right_ids));
            } else if left.tree.contains_key(step) {
                assert(is_of(step.input, left_ids));
            } else if step == join {
            } else {
                assert(top.tree.contains_key(step));
            }
        }
    }
}

/// The atoms of a tree.
pub open spec fn ids_in(tree: JoinTree) -> Set<usize> {
    tree.preorder().to_set()
}

pub proof fn lemma_ids_in(rest: JoinTree, last: JoinTree)
    ensures
        ids_in(JoinTree::Join(Box::new(rest), Box::new(last))) == ids_in(rest).union(ids_in(last)),
{
    let tree = JoinTree::Join(Box::new(rest), Box::new(last));
    assert(tree.preorder() == rest.preorder() + last.preorder());
    let all = tree.preorder();
    assert forall|id: usize| #[trigger] ids_in(tree).contains(id) <==> ids_in(rest).union(
        ids_in(last),
    ).contains(id) by {
        if ids_in(tree).contains(id) {
            let i = all.index_of(id);
            assert(all[i] == id);
            if i < rest.preorder().len() {
                assert(rest.preorder()[i] == id);
            } else {
                assert(last.preorder()[i - rest.preorder().len()] == id);
            }
        }
        if ids_in(rest).contains(id) {
            assert(all[rest.preorder().index_of(id)] == id);
        }
        if ids_in(last).contains(id) {
            assert(all[rest.preorder().len() + last.preorder().index_of(id)] == id);
        }
    }
    assert(ids_in(tree) =~= ids_in(rest).union(ids_in(last)));
}

/// What is handed to the parts of a tree of two sides.
pub struct Split {
    pub rest_vars: Seq<Seq<char>>,
    pub last_vars: Seq<Seq<char>>,
    pub across: Seq<usize>,
    pub negated: Seq<AtomSignature>,
    pub join_keys: Seq<Seq<char>>,
    pub last_values: Seq<Seq<char>>,
    pub rest_values: Seq<Seq<char>>,
    pub open: Seq<bool>,
    pub last_comps: Seq<usize>,
    pub rest_comps: Seq<usize>,
}

pub open spec fn split_of(
    rule: FLRuleModel,
    rest: JoinTree,
    last: JoinTree,
    keys: Seq<Seq<char>>,
    values: Seq<Seq<char>>,
    open_negated: Seq<bool>,
    comps: Seq<usize>,
) -> Split {
    let rest_vars = distinct(vars_of(rule, true, rest.preorder()));
    let last_vars = distinct(vars_of(rule, true, last.preorder()));
    let across = comps_across(rule, rest_vars, last_vars, comps);
    let negated = across_ids(rule, rest_vars, last_vars, open_negated, atoms_of(rule, false).len());
    let wanted = keys + values + comps_vars(rule, across) + vars_of(rule, false, ids_of(negated));
    Split {
        rest_vars,
        last_vars,
        across,
        negated,
        join_keys: common(last_vars, rest_vars),
        last_values: side_values(last_vars, rest_vars, wanted),
        rest_values: side_values(rest_vars, last_vars, wanted),
        open: still_open(rule, rest_vars, last_vars, open_negated),
        last_comps: comps_within(rule, last_vars, comps),
        rest_comps: comps_within(rule, rest_vars, comps),
    }
}

/// What is planned for the last part of a tree.
pub open spec fn last_planned(
    rule: FLRuleModel,
    last: JoinTree,
    split: Split,
    open_subs: Seq<bool>,
) -> Option<PlannedModel> {
    tree_steps(
        rule,
        last,
        last.preorder(),
        split.join_keys,
        split.last_values,
        split.open,
        open_subs,
        split.last_comps,
    )
}

/// What is planned for the other parts of a tree.
pub open spec fn rest_planned(
    rule: FLRuleModel,
    rest: JoinTree,
    full: Seq<usize>,
    split: Split,
    right: PlannedModel,
) -> Option<PlannedModel> {
    tree_steps(
        rule,
        rest,
        full,
        split.join_keys,
        split.rest_values,
        right.open_negated,
        right.open_subs,
        split.rest_comps,
    )
}

/// The steps that bring both sides of a tree together.
pub open spec fn split_steps(
    rule: FLRuleModel,
    full: Seq<usize>,
    split: Split,
    left: PlannedModel,
    right: PlannedModel,
    keys: Seq<Seq<char>>,
    values: Seq<Seq<char>>,
    comps: Seq<usize>,
) -> Option<StepsModel> {
    join_steps(
        rule,
        left.steps,
        right.steps,
        atoms_at(full),
        split.negated,
        split.join_keys + split.rest_values + split.last_values,
        keys,
        values,
        assembled(rule, split.across, atoms_at(full), split.rest_vars + split.last_vars),
        comps,
    )
}

/// The steps of a tree of two sides, taken apart.
pub proof fn lemma_split(
    rule: FLRuleModel,
    rest: JoinTree,
    last: JoinTree,
    full: Seq<usize>,
    keys: Seq<Seq<char>>,
    values: Seq<Seq<char>>,
    open_negated: Seq<bool>,
    open_subs: Seq<bool>,
    comps: Seq<usize>,
)
    requires
        tree_steps(
            rule,
            JoinTree::Join(Box::new(rest), Box::new(last)),
            full,
            keys,
            values,
            open_negated,
            open_subs,
            comps,
        ) is Some,
    ensures
        ({
            let planned = tree_steps(
                rule,
                JoinTree::Join(Box::new(rest), Box::new(last)),
                full,
                keys,
                values,
                open_negated,
                open_subs,
                comps,
            )->0;
            let split = split_of(rule, rest, last, keys, values, open_negated, comps);
            let right = last_planned(rule, last, split, open_subs);
            let left = rest_planned(rule, rest, full, split, right->0);
            let steps = split_steps(rule, full, split, left->0, right->0, keys, values, comps);
            &&& comps_covered(rule, split.rest_vars, split.last_vars, comps)
            &&& right is Some
            &&& left is Some
            &&& steps is Some
            &&& planned == (PlannedModel {
                steps: steps->0,
                open_negated: left->0.open_negated,
                open_subs: left->0.open_subs,
            })
        }),
{
}

pub proof fn lemma_tree_steps_shape(
    rule: FLRuleModel,
    tree: JoinTree,
    full: Seq<usize>,
    keys: Seq<Seq<char>>,
    values: Seq<Seq<char>>,
    open_negated: Seq<bool>,
    open_subs: Seq<bool>,
    comps: Seq<usize>,
)
    requires
        is_over(rule, tree),
    ensures
        tree_steps(
            rule,
            tree,
            full,
            keys,
            values,
            open_negated,
            open_subs,
            comps,
        ) matches Some(planned) ==> is_shaped(planned.steps, ids_in(tree)),
    decreases tree,
{
    if tree_steps(
        rule,
        tree,
        full,
        keys,
        values,
        open_negated,
        open_subs,
        comps,
    ) is Some {
        match tree {
            JoinTree::Atom(id) => {
                let atom = AtomSignature { is_positive: true, rhs_id: id };
                assert(tree.preorder()[0] == id);
                assert(ids_in(tree) =~= set![id]);
                let filters = filters_of(rule, atom, open_negated, open_subs);
                lemma_atom_steps_shape(rule, atom, filters.0.0, filters.1.0, keys, values, comps);
            },
            JoinTree::Join(rest, last) => {
                lemma_is_over_parts(rule, *rest, *last);
                lemma_ids_in(*rest, *last);
                lemma_split(
                    rule,
                    *rest,
                    *last,
                    full,
                    keys,
                    values,
                    open_negated,
                    open_subs,
                    comps,
                );
                let split = split_of(rule, *rest, *last, keys, values, open_negated, comps);
                lemma_tree_steps_shape(
                    rule,
                    *last,
                    last.preorder(),
                    split.join_keys,
                    split.last_values,
                    split.open,
                    open_subs,
                    split.last_comps,
                );
                let right = last_planned(rule, *last, split, open_subs)->0;
                lemma_tree_steps_shape(
                    rule,
                    *rest,
                    full,
                    split.join_keys,
                    split.rest_values,
                    right.open_negated,
                    right.open_subs,
                    split.rest_comps,
                );
                let left = rest_planned(rule, *rest, full, split, right)->0;
                lemma_join_steps_shape(
                    rule,
                    left.steps,
                    right.steps,
                    atoms_at(full),
                    split.negated,
                    split.join_keys + split.rest_values + split.last_values,
                    keys,
                    values,
                    assembled(
                        rule,
                        split.across,
                        atoms_at(full),
                        split.rest_vars + split.last_vars,
                    ),
                    comps,
                    ids_in(*rest),
                    ids_in(*last),
                );
            },
        }
    }
}

} // verus!
