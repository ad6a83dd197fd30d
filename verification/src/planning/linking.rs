//! How the steps of a plan fit together.
use vstd::prelude::*;
use crate::catalog::atoms::{AtomArgumentSignature, AtomSignature};
use crate::catalog::body::{
    are_positions_small, arg_of, atom_positions, atoms_of, comparisons, first_var, is_filtered,
    negated_atoms, position, positive_atoms, var_of,
};
use crate::catalog::compare::PlacedComparisonModel;
use crate::catalog::open::{are_atoms, ids_of, lemma_sub_atoms, lemma_sub_negated, take_open};
use crate::catalog::query::{
    across_ids, comps_across, comps_vars, comps_within, head_vars, presence_at, still_open,
    sub_atom_ids, sub_negated_ids, trace, trace_all, trace_one, vars_of,
};
use crate::catalog::rule::{is_core, strs_of, unfiltered};
use crate::optimizing::join_tree::{common, is_over, lemma_is_over_parts, JoinTree};
use crate::parsing::arithmetic::distinct;
use crate::parsing::rule::{AtomArgModel, FLRuleModel, PredicateModel};
use crate::planning::rule::{atoms_at, join_steps, rule_steps, side_values, tree_steps};
use crate::planning::steps::{
    antijoined, antijoins, assembled, atom_steps, base_of, carried, filters_of, joined, key_step,
    key_vars, semijoins, var_columns, without, StepsModel,
};
use crate::planning::flow::{
    flow_over, kv_columns, law_join_flow_can_be_flipped, lemma_flow_over, TransformationFlowModel,
};
use crate::planning::transformations::{
    aj_step, is_join_step, is_row_step, jn_name, jn_step, TransformationKind, TransformationModel,
};
use crate::strata::dependencies::{mentions, negates};
use crate::text::Written;

verus! {

/// Whether the columns hold the variables, one each.
pub open spec fn holds(
    rule: FLRuleModel,
    columns: Seq<AtomArgumentSignature>,
    vars: Seq<Seq<char>>,
) -> bool {
    &&& columns.len() == vars.len()
    &&& forall|i: int|
        0 <= i < vars.len() ==> var_of(rule, #[trigger] columns[i]) == Some(vars[i])
}

/// Whether a step puts out the wanted keys and values.
pub open spec fn puts_out(
    rule: FLRuleModel,
    step: TransformationModel,
    keys: Seq<Seq<char>>,
    values: Seq<Seq<char>>,
) -> bool {
    holds(rule, step.output.keys, keys) && holds(rule, step.output.values, values)
}

/// Whether a step reads the rows of a relation of the body of a rule.
pub open spec fn is_leaf(rule: FLRuleModel, step: TransformationModel) -> bool {
    &&& is_row_step(step)
    &&& step.input.signature is Atom
    &&& mentions(rule, step.input.signature.name())
}

/// Whether a step reads the rows of a relation, or its inputs come from the tree
/// or from one of the given steps.
pub open spec fn is_fed(
    rule: FLRuleModel,
    tree: Map<TransformationModel, (TransformationModel, TransformationModel)>,
    given: Set<TransformationModel>,
    step: TransformationModel,
) -> bool {
    tree.contains_key(step) || given.contains(step) || is_leaf(rule, step)
}

/// Whether a step joins what the two steps put out, on the same variables.
pub open spec fn is_join_of(
    rule: FLRuleModel,
    step: TransformationModel,
    left: TransformationModel,
    right: TransformationModel,
) -> bool {
    &&& is_join_step(step)
    &&& step.input == left.output
    &&& step.second == Some(right.output)
    &&& exists|vars: Seq<Seq<char>>| #[trigger]
        holds(rule, left.output.keys, vars) && holds(rule, right.output.keys, vars)
    &&& step.output.signature.name().len() > left.output.signature.name().len()
    &&& step.output.signature.name().len() > right.output.signature.name().len()
}

pub open spec fn is_link(
    rule: FLRuleModel,
    tree: Map<TransformationModel, (TransformationModel, TransformationModel)>,
    given: Set<TransformationModel>,
    step: TransformationModel,
) -> bool {
    &&& is_join_of(rule, step, tree[step].0, tree[step].1)
    &&& is_fed(rule, tree, given, tree[step].0)
    &&& is_fed(rule, tree, given, tree[step].1)
}

/// Whether every step of a tree joins what the steps below it put out.
pub open spec fn is_linked_to(
    rule: FLRuleModel,
    tree: Map<TransformationModel, (TransformationModel, TransformationModel)>,
    given: Set<TransformationModel>,
) -> bool {
    &&& tree.dom().finite()
    &&& forall|step: TransformationModel| #[trigger]
        tree.contains_key(step) ==> is_link(rule, tree, given, step)
}

/// Whether the steps reach down to relations without a gap.
pub open spec fn is_linked(rule: FLRuleModel, steps: StepsModel) -> bool {
    &&& is_linked_to(rule, steps.tree, Set::empty())
    &&& is_fed(rule, steps.tree, Set::empty(), steps.last)
}

proof fn lemma_empty(rule: FLRuleModel, given: Set<TransformationModel>)
    ensures
        is_linked_to(rule, Map::empty(), given),
{
}

proof fn lemma_insert(
    rule: FLRuleModel,
    tree: Map<TransformationModel, (TransformationModel, TransformationModel)>,
    given: Set<TransformationModel>,
    step: TransformationModel,
    left: TransformationModel,
    right: TransformationModel,
)
    requires
        is_linked_to(rule, tree, given),
        is_join_of(rule, step, left, right),
        is_fed(rule, tree, given, left),
        is_fed(rule, tree, given, right),
    ensures
        is_linked_to(rule, tree.insert(step, (left, right)), given),
{
    let all = tree.insert(step, (left, right));
    assert(all.dom() =~= tree.dom().insert(step));
    assert forall|s: TransformationModel| #[trigger] all.contains_key(s) implies is_link(
        rule,
        all,
        given,
        s,
    ) by {
        if s != step {
            assert(tree.contains_key(s));
        }
    }
}

proof fn lemma_union(
    rule: FLRuleModel,
    top: Map<TransformationModel, (TransformationModel, TransformationModel)>,
    bottom: Map<TransformationModel, (TransformationModel, TransformationModel)>,
    given: Set<TransformationModel>,
    rest: Set<TransformationModel>,
)
    requires
        is_linked_to(rule, top, given),
        is_linked_to(rule, bottom, rest),
        forall|s: TransformationModel| #[trigger] given.contains(s) ==> is_fed(rule, bottom, rest, s),
    ensures
        is_linked_to(rule, top.union_prefer_right(bottom), rest),
{
    let all = top.union_prefer_right(bottom);
    assert(all.dom() =~= top.dom().union(bottom.dom()));
    assert forall|s: TransformationModel| #[trigger] all.contains_key(s) implies is_link(
        rule,
        all,
        rest,
        s,
    ) by {
        if bottom.contains_key(s) {
        } else {
            assert(top.contains_key(s));
        }
    }
}

proof fn lemma_first_var(arguments: Seq<AtomArgModel>, var: Seq<char>)
    ensures
        first_var(arguments, var) matches Some(k) ==> k < arguments.len() && arguments[k as int]
            == AtomArgModel::Var(var),
    decreases arguments.len(),
{
    if arguments.len() > 0 {
        lemma_first_var(arguments.drop_last(), var);
    }
}

proof fn lemma_trace_one(rule: FLRuleModel, var: Seq<char>, atoms: Seq<AtomSignature>)
    requires
        are_positions_small(rule),
    ensures
        trace_one(rule, var, atoms) matches Some(s) ==> var_of(rule, s) == Some(var),
    decreases atoms.len(),
{
    if atoms.len() > 0 {
        lemma_trace_one(rule, var, atoms.drop_last());
        let id = atoms.last().rhs_id;
        if presence_at(rule, var, id) is Some {
            let arguments = positive_atoms(rule.rhs)[id as int].arguments;
            lemma_first_var(arguments, var);
            let k = first_var(arguments, var)->0;
            assert(presence_at(rule, var, id) == Some(position(true, id as int, k as int)));
            assert(arguments.len() <= usize::MAX);
        }
    }
}

/// A trace leads to columns that hold the variables.
pub proof fn law_trace_holds(
    rule: FLRuleModel,
    vars: Seq<Seq<char>>,
    atoms: Seq<AtomSignature>,
)
    requires
        are_positions_small(rule),
    ensures
        trace(rule, vars, atoms) matches Some(columns) ==> holds(rule, columns, vars),
{
    lemma_trace_all(rule, vars, atoms);
}

proof fn lemma_trace_all(rule: FLRuleModel, vars: Seq<Seq<char>>, atoms: Seq<AtomSignature>)
    requires
        are_positions_small(rule),
    ensures
        trace_all(rule, vars, atoms) matches Some(columns) ==> holds(rule, columns, vars),
    decreases vars.len(),
{
    if vars.len() > 0 {
        lemma_trace_all(rule, vars.drop_last(), atoms);
        lemma_trace_one(rule, vars.last(), atoms);
    }
}

proof fn lemma_unfiltered(rule: FLRuleModel, columns: Seq<AtomArgumentSignature>)
    requires
        forall|k: int| 0 <= k < columns.len() ==> arg_of(rule, #[trigger] columns[k]) is Some,
    ensures
        holds(rule, unfiltered(rule, columns), strs_of(rule, unfiltered(rule, columns))),
    decreases columns.len(),
{
    if columns.len() > 0 {
        let front = columns.drop_last();
        assert forall|k: int| 0 <= k < front.len() implies arg_of(
            rule,
            #[trigger] front[k],
        ) is Some by {
            assert(front[k] == columns[k]);
        }
        lemma_unfiltered(rule, front);
        let last = columns.last();
        assert(last == columns[columns.len() - 1]);
        if !is_filtered(rule, last) {
            let all = unfiltered(rule, columns);
            assert(all.drop_last() =~= unfiltered(rule, front));
            assert(var_of(rule, last) is Some);
        }
    }
}

pub proof fn lemma_key_columns(rule: FLRuleModel, atom: AtomSignature)
    requires
        are_positions_small(rule),
        atom.rhs_id < atoms_of(rule, atom.is_positive).len(),
    ensures
        holds(rule, var_columns(rule, atom), key_vars(rule, atom)),
{
    let columns = atom_positions(rule, atom.is_positive)[atom.rhs_id as int];
    let arguments = atoms_of(rule, atom.is_positive)[atom.rhs_id as int].arguments;
    assert(arguments.len() <= usize::MAX);
    assert forall|k: int| 0 <= k < columns.len() implies arg_of(
        rule,
        #[trigger] columns[k],
    ) is Some by {
        assert(columns[k] == position(atom.is_positive, atom.rhs_id as int, k));
    }
    lemma_unfiltered(rule, columns);
}

/// The body of a rule mentions the relations of its atoms.
pub proof fn lemma_mentions(rule: FLRuleModel, is_positive: bool, id: int)
    requires
        0 <= id < atoms_of(rule, is_positive).len(),
    ensures
        mentions(rule, atoms_of(rule, is_positive)[id].name),
{
    let i = lemma_atom_place(rule.rhs, is_positive, id);
    assert(rule.rhs[i].atom() == Some(atoms_of(rule, is_positive)[id]));
}

/// The body of a rule negates the relations of its negated atoms.
pub proof fn lemma_negates(rule: FLRuleModel, id: int)
    requires
        0 <= id < atoms_of(rule, false).len(),
    ensures
        negates(rule, atoms_of(rule, false)[id].name),
{
    let i = lemma_atom_place(rule.rhs, false, id);
    assert(rule.rhs[i] is NegatedAtomPredicate);
}

/// Where an atom stands in a body.
proof fn lemma_atom_place(rhs: Seq<PredicateModel>, is_positive: bool, id: int) -> (i: int)
    requires
        0 <= id < (if is_positive {
            positive_atoms(rhs)
        } else {
            negated_atoms(rhs)
        }).len(),
    ensures
        0 <= i < rhs.len(),
        rhs[i] is NegatedAtomPredicate <==> !is_positive,
        rhs[i].atom() == Some(
            (if is_positive {
                positive_atoms(rhs)
            } else {
                negated_atoms(rhs)
            })[id],
        ),
    decreases rhs.len(),
{
    let front = rhs.drop_last();
    let before = if is_positive {
        positive_atoms(front)
    } else {
        negated_atoms(front)
    };
    if id < before.len() {
        lemma_atom_place(front, is_positive, id)
    } else {
        rhs.len() - 1
    }
}

pub proof fn lemma_key_step(rule: FLRuleModel, atom: AtomSignature, comps: Seq<usize>)
    requires
        are_positions_small(rule),
        atom.rhs_id < atoms_of(rule, atom.is_positive).len(),
    ensures
        key_step(rule, atom, comps) matches Some(step) ==> is_leaf(rule, step) && holds(
            rule,
            step.output.keys,
            key_vars(rule, atom),
        ),
{
    lemma_key_columns(rule, atom);
    lemma_mentions(rule, atom.is_positive, atom.rhs_id as int);
    lemma_leaf(base_of(rule, atom), var_columns(rule, atom), Seq::empty());
}

/// A step on the rows of a relation puts out as many columns as it reads.
proof fn lemma_leaf(
    base: crate::planning::collections::CollectionModel,
    keys: Seq<AtomArgumentSignature>,
    values: Seq<AtomArgumentSignature>,
)
    ensures
        flow_over(kv_columns(base.keys, base.values), keys) matches Some(found) ==> found.len()
            == keys.len(),
        flow_over(kv_columns(base.keys, base.values), values) matches Some(found) ==> found.len()
            == values.len(),
{
    lemma_flow_over(kv_columns(base.keys, base.values), keys);
    lemma_flow_over(kv_columns(base.keys, base.values), values);
}

proof fn lemma_join_names(
    left: Seq<char>,
    right: Seq<char>,
    start: Seq<char>,
    comma: Seq<char>,
    end: Seq<char>,
    rest: Seq<char>,
)
    requires
        start.len() > 0,
    ensures
        (start + left + comma + right + end + rest).len() > left.len(),
        (start + left + comma + right + end + rest).len() > right.len(),
{
}

pub proof fn lemma_jn_name(
    kind: TransformationKind,
    left: Seq<char>,
    right: Seq<char>,
    flow: TransformationFlowModel,
)
    ensures
        jn_name(kind, left, right, flow).len() > left.len(),
        jn_name(kind, left, right, flow).len() > right.len(),
{
    reveal_strlit("JnKK(");
    reveal_strlit("JnKvK(");
    reveal_strlit("JnKvKv(");
    reveal_strlit("JnKKv(");
    reveal_strlit("NjKK(");
    reveal_strlit("NjKvK(");
    reveal_strlit("Cartesian(");
    let start = match kind {
        TransformationKind::JnKK => "JnKK("@,
        TransformationKind::JnKvK => "JnKvK("@,
        TransformationKind::JnKvKv => "JnKvKv("@,
        TransformationKind::JnKKv => "JnKKv("@,
        TransformationKind::NjKK => "NjKK("@,
        TransformationKind::NjKvK => "NjKvK("@,
        _ => "Cartesian("@,
    };
    lemma_join_names(left, right, start, ", "@, ")"@, flow.text());
}

pub proof fn lemma_jn_step(
    rule: FLRuleModel,
    left: TransformationModel,
    right: TransformationModel,
    keys: Seq<AtomArgumentSignature>,
    values: Seq<AtomArgumentSignature>,
    compares: Seq<PlacedComparisonModel<AtomArgumentSignature>>,
    vars: Seq<Seq<char>>,
)
    requires
        holds(rule, left.output.keys, vars),
        holds(rule, right.output.keys, vars),
    ensures
        jn_step(left.output, right.output, keys, values, compares) matches Some(step) ==> {
            &&& is_join_of(rule, step, left, right)
            &&& step.output.keys == keys
            &&& step.output.values == values
        },
        right.output.keys.len() > 0 && aj_step(
            left.output,
            right.output,
            keys,
            values,
        ) is Some ==> {
            let step = aj_step(left.output, right.output, keys, values)->0;
            &&& is_join_of(rule, step, left, right)
            &&& step.output.keys == keys
            &&& step.output.values == values
        },
{
    law_join_flow_can_be_flipped(
        left.output.keys,
        left.output.values,
        right.output.values,
        keys,
        values,
        compares,
    );
    law_join_flow_can_be_flipped(
        left.output.keys,
        left.output.values,
        right.output.values,
        keys,
        values,
        Seq::empty(),
    );
    if let Some(step) = jn_step(left.output, right.output, keys, values, compares) {
        lemma_jn_name(
            step.kind,
            left.output.signature.name(),
            right.output.signature.name(),
            step.flow,
        );
    }
    if let Some(step) = aj_step(left.output, right.output, keys, values) {
        lemma_jn_name(
            step.kind,
            left.output.signature.name(),
            right.output.signature.name(),
            step.flow,
        );
    }
}

pub proof fn lemma_semijoins(
    rule: FLRuleModel,
    atom: AtomSignature,
    subs: Seq<AtomSignature>,
    keys: Seq<Seq<char>>,
    values: Seq<Seq<char>>,
    comps: Seq<usize>,
)
    requires
        are_positions_small(rule),
        atom.rhs_id < atoms_of(rule, atom.is_positive).len(),
        are_atoms(rule, subs, true),
    ensures
        semijoins(rule, atom, subs, keys, values, comps) matches Some(steps) ==> is_linked(
            rule,
            steps,
        ) && puts_out(rule, steps.last, keys, values),
    decreases subs.len(),
{
    law_trace_holds(rule, keys, seq![atom]);
    law_trace_holds(rule, values, seq![atom]);
    if subs.len() == 0 {
        lemma_empty(rule, Set::empty());
        if let (Some(k), Some(v)) = (trace(rule, keys, seq![atom]), trace(rule, values, seq![atom])) {
            lemma_mentions(rule, atom.is_positive, atom.rhs_id as int);
            lemma_leaf(base_of(rule, atom), k, v);
        }
    } else {
        let sub = subs[subs.len() - 1];
        let sub_keys = key_vars(rule, sub);
        let sub_values = carried(keys, values, sub_keys);
        assert(sub.is_positive);
        lemma_semijoins(rule, atom, subs.drop_last(), sub_keys, sub_values, comps);
        lemma_key_step(rule, sub, comps);
        match (
            semijoins(rule, atom, subs.drop_last(), sub_keys, sub_values, comps),
            key_step(rule, sub, comps),
            trace(rule, keys, seq![atom]),
            trace(rule, values, seq![atom]),
        ) {
            (Some(left), Some(right), Some(k), Some(v)) => {
                lemma_jn_step(rule, left.last, right, k, v, Seq::empty(), sub_keys);
                if let Some(steps) = joined(left, right, k, v) {
                    lemma_insert(rule, left.tree, Set::empty(), steps.last, left.last, right);
                }
            },
            _ => {},
        }
    }
}

pub proof fn lemma_antijoins(
    rule: FLRuleModel,
    atoms: Seq<AtomSignature>,
    first: TransformationModel,
    negated: Seq<AtomSignature>,
    keys: Seq<Seq<char>>,
    values: Seq<Seq<char>>,
    comps: Seq<usize>,
)
    requires
        are_positions_small(rule),
        are_atoms(rule, negated, false),
        negated.len() > 0 ==> holds(rule, first.output.keys, key_vars(rule, negated[0])),
        negated.len() == 0 ==> puts_out(rule, first, keys, values),
    ensures
        antijoins(rule, atoms, first, negated, keys, values, comps) matches Some(steps) ==> {
            &&& is_linked_to(rule, steps.tree, set![first])
            &&& is_fed(rule, steps.tree, set![first], steps.last)
            &&& puts_out(rule, steps.last, keys, values)
        },
        negated.len() > 0 && antijoins(rule, atoms, first, negated, keys, values, comps) is Some
            ==> trace(rule, keys, atoms) is Some && trace(rule, values, atoms) is Some,
    decreases negated.len(),
{
    law_trace_holds(rule, keys, atoms);
    law_trace_holds(rule, values, atoms);
    if negated.len() == 0 {
        lemma_empty(rule, set![first]);
    } else {
        let last = negated[negated.len() - 1];
        let front = negated.drop_last();
        let last_keys = key_vars(rule, last);
        let last_values = carried(keys, values, last_keys);
        assert(!last.is_positive);
        match (
            antijoins(rule, atoms, first, front, last_keys, last_values, comps),
            key_step(rule, last, comps),
            trace(rule, keys, atoms),
            trace(rule, values, atoms),
        ) {
            (Some(left), Some(right), Some(k), Some(v)) => {
                lemma_key_step(rule, last, comps);
                if front.len() > 0 {
                    assert(front[0] == negated[0]);
                    lemma_antijoins(rule, atoms, first, front, last_keys, last_values, comps);
                } else {
                    lemma_empty(rule, set![first]);
                }
                lemma_jn_step(rule, left.last, right, k, v, Seq::empty(), last_keys);
                if let Some(steps) = antijoined(left, right, k, v) {
                    lemma_insert(rule, left.tree, set![first], steps.last, left.last, right);
                }
            },
            _ => {},
        }
    }
}

pub proof fn lemma_atom_steps(
    rule: FLRuleModel,
    atom: AtomSignature,
    subs: Seq<AtomSignature>,
    negated: Seq<AtomSignature>,
    keys: Seq<Seq<char>>,
    values: Seq<Seq<char>>,
    comps: Seq<usize>,
)
    requires
        are_positions_small(rule),
        atom.rhs_id < atoms_of(rule, atom.is_positive).len(),
        are_atoms(rule, subs, true),
        are_atoms(rule, negated, false),
    ensures
        atom_steps(rule, atom, subs, negated, keys, values, comps) matches Some(steps)
            ==> is_linked(rule, steps) && puts_out(rule, steps.last, keys, values),
{
    if negated.len() == 0 {
        lemma_semijoins(rule, atom, subs, keys, values, comps);
    } else {
        let first_keys = key_vars(rule, negated[0]);
        let first_values = common(
            without(key_vars(rule, atom), first_keys),
            keys + values + distinct(
                vars_of(
                    rule,
                    false,
                    ids_of(negated),
                ),
            ),
        );
        lemma_semijoins(rule, atom, subs, first_keys, first_values, comps);
        if let Some(bottom) = semijoins(rule, atom, subs, first_keys, first_values, comps) {
            lemma_antijoins(rule, seq![atom], bottom.last, negated, keys, values, comps);
            if let Some(top) = antijoins(
                rule,
                seq![atom],
                bottom.last,
                negated,
                keys,
                values,
                comps,
            ) {
                lemma_union(rule, top.tree, bottom.tree, set![bottom.last], Set::empty());
            }
        }
    }
}

pub proof fn lemma_take_open(rule: FLRuleModel, atoms: Seq<AtomSignature>, open: Seq<bool>, positive: bool)
    requires
        are_atoms(rule, atoms, positive),
    ensures
        are_atoms(rule, take_open(atoms, open).0, positive),
    decreases atoms.len(),
{
    if atoms.len() > 0 {
        assert(are_atoms(rule, atoms.drop_last(), positive)) by {
            assert forall|i: int| 0 <= i < atoms.drop_last().len() implies (
            #[trigger] atoms.drop_last()[i]).is_positive == positive
                && atoms.drop_last()[i].rhs_id < atoms_of(rule, positive).len() by {
                assert(atoms.drop_last()[i] == atoms[i]);
            }
        }
        lemma_take_open(rule, atoms.drop_last(), open, positive);
        assert(atoms[atoms.len() - 1] == atoms.last());
    }
}

pub proof fn lemma_join_steps(
    rule: FLRuleModel,
    left: StepsModel,
    right: StepsModel,
    atoms: Seq<AtomSignature>,
    negated: Seq<AtomSignature>,
    sides: Seq<Seq<char>>,
    keys: Seq<Seq<char>>,
    values: Seq<Seq<char>>,
    compares: Option<
        Seq<PlacedComparisonModel<AtomArgumentSignature>>,
    >,
    comps: Seq<usize>,
    vars: Seq<Seq<char>>,
)
    requires
        are_positions_small(rule),
        are_atoms(rule, negated, false),
        is_linked(rule, left),
        is_linked(rule, right),
        holds(rule, left.last.output.keys, vars),
        holds(rule, right.last.output.keys, vars),
    ensures
        join_steps(
            rule,
            left,
            right,
            atoms,
            negated,
            sides,
            keys,
            values,
            compares,
            comps,
        ) matches Some(steps) ==> is_linked(rule, steps) && puts_out(
            rule,
            steps.last,
            keys,
            values,
        ),
{
    let join_keys = if negated.len() == 0 {
        keys
    } else {
        key_vars(rule, negated[0])
    };
    let join_values = if negated.len() == 0 {
        values
    } else {
        distinct(without(sides, join_keys))
    };
    law_trace_holds(rule, join_keys, atoms);
    law_trace_holds(rule, join_values, atoms);
    match (compares, trace(rule, join_keys, atoms), trace(rule, join_values, atoms)) {
        (Some(found), Some(k), Some(v)) => {
            lemma_jn_step(rule, left.last, right.last, k, v, found, vars);
            if let Some(join) = jn_step(left.last.output, right.last.output, k, v, found) {
                lemma_antijoins(rule, atoms, join, negated, keys, values, comps);
                if let Some(top) = antijoins(rule, atoms, join, negated, keys, values, comps) {
                    let ends = set![left.last, right.last];
                    let links = Map::<
                        TransformationModel,
                        (TransformationModel, TransformationModel),
                    >::empty().insert(join, (left.last, right.last));
                    lemma_empty(rule, ends);
                    lemma_insert(rule, Map::empty(), ends, join, left.last, right.last);
                    lemma_union(rule, top.tree, links, set![join], ends);
                    assert(top.tree.union_prefer_right(links) =~= top.tree.insert(
                        join,
                        (left.last, right.last),
                    ));
                    let upper = top.tree.insert(join, (left.last, right.last));
                    let right_end = set![right.last];
                    assert(is_linked_to(rule, left.tree, right_end)) by {
                        assert forall|s: TransformationModel| #[trigger]
                            left.tree.contains_key(s) implies is_link(
                            rule,
                            left.tree,
                            right_end,
                            s,
                        ) by {
                            assert(is_link(rule, left.tree, Set::empty(), s));
                        }
                    }
                    lemma_union(rule, upper, left.tree, ends, right_end);
                    let middle = upper.union_prefer_right(left.tree);
                    lemma_union(rule, middle, right.tree, right_end, Set::empty());
                    let all = middle.union_prefer_right(right.tree);
                    assert(is_fed(rule, top.tree, set![join], top.last));
                    assert(upper.contains_key(join));
                }
            }
        },
        _ => {},
    }
}

pub proof fn lemma_across_atoms(
    rule: FLRuleModel,
    left: Seq<Seq<char>>,
    right: Seq<Seq<char>>,
    open: Seq<bool>,
    upto: nat,
)
    requires
        upto <= atoms_of(rule, false).len(),
        atoms_of(rule, false).len() <= usize::MAX,
    ensures
        are_atoms(rule, across_ids(rule, left, right, open, upto), false),
    decreases upto,
{
    if upto > 0 {
        lemma_across_atoms(rule, left, right, open, (upto - 1) as nat);
    }
}

pub proof fn lemma_tree_steps(
    rule: FLRuleModel,
    tree: JoinTree,
    full: Seq<usize>,
    keys: Seq<Seq<char>>,
    values: Seq<Seq<char>>,
    open_negated: Seq<bool>,
    open_subs: Seq<bool>,
    comps: Seq<usize>,
)
    requires
        are_positions_small(rule),
        is_over(rule, tree),
    ensures
        tree_steps(
            rule,
            tree,
            full,
            keys,
            values,
            open_negated,
            open_subs,
            comps,
        ) matches Some(planned) ==> is_linked(rule, planned.steps) && puts_out(
            rule,
            planned.steps.last,
            keys,
            values,
        ),
    decreases tree,
{
    match tree {
        JoinTree::Atom(id) => {
            let atom = AtomSignature { is_positive: true, rhs_id: id };
            assert(tree.preorder()[0] == id);
            let vars = key_vars(rule, atom);
            let filters = filters_of(rule, atom, open_negated, open_subs);
            lemma_sub_atoms(rule, vars, atoms_of(rule, true).len());
            lemma_sub_negated(rule, vars, atoms_of(rule, false).len());
            lemma_take_open(
                rule,
                sub_atom_ids(rule, vars, atoms_of(rule, true).len()),
                open_subs,
                true,
            );
            lemma_take_open(
                rule,
                sub_negated_ids(rule, vars, atoms_of(rule, false).len()),
                open_negated,
                false,
            );
            lemma_atom_steps(rule, atom, filters.0.0, filters.1.0, keys, values, comps);
        },
        JoinTree::Join(rest, last) => {
            lemma_is_over_parts(rule, *rest, *last);
            let rest_vars = distinct(vars_of(rule, true, rest.preorder()));
            let last_vars = distinct(vars_of(rule, true, last.preorder()));
            let across = comps_across(rule, rest_vars, last_vars, comps);
            let n = atoms_of(rule, false).len();
            let negated = across_ids(rule, rest_vars, last_vars, open_negated, n);
            let wanted = keys + values + comps_vars(rule, across) + vars_of(
                rule,
                false,
                ids_of(negated),
            );
            let join_keys = common(last_vars, rest_vars);
            let last_values = side_values(last_vars, rest_vars, wanted);
            let rest_values = side_values(rest_vars, last_vars, wanted);
            let last_comps = comps_within(rule, last_vars, comps);
            let rest_comps = comps_within(rule, rest_vars, comps);
            let open = still_open(rule, rest_vars, last_vars, open_negated);
            lemma_across_atoms(rule, rest_vars, last_vars, open_negated, n);
            lemma_tree_steps(
                rule,
                *last,
                last.preorder(),
                join_keys,
                last_values,
                open,
                open_subs,
                last_comps,
            );
            if let Some(right) = tree_steps(
                rule,
                *last,
                last.preorder(),
                join_keys,
                last_values,
                open,
                open_subs,
                last_comps,
            ) {
                lemma_tree_steps(
                    rule,
                    *rest,
                    full,
                    join_keys,
                    rest_values,
                    right.open_negated,
                    right.open_subs,
                    rest_comps,
                );
                if let Some(left) = tree_steps(
                    rule,
                    *rest,
                    full,
                    join_keys,
                    rest_values,
                    right.open_negated,
                    right.open_subs,
                    rest_comps,
                ) {
                    lemma_join_steps(
                        rule,
                        left.steps,
                        right.steps,
                        atoms_at(full),
                        negated,
                        join_keys + rest_values + last_values,
                        keys,
                        values,
                        assembled(rule, across, atoms_at(full), rest_vars + last_vars),
                        comps,
                        join_keys,
                    );
                }
            }
        },
    }
}

/// The steps of a plan reach down to relations without a gap, every join has the
/// same variables as keys on both sides, and the last step puts out the variables
/// of the head.
pub proof fn law_plan_is_linked(rule: FLRuleModel, shape: JoinTree)
    requires
        are_positions_small(rule),
        is_over(rule, shape),
    ensures
        rule_steps(rule, shape) matches Some(steps) ==> is_linked(rule, steps) && puts_out(
            rule,
            steps.last,
            Seq::empty(),
            head_vars(rule.head.head_arguments),
        ),
{
    lemma_tree_steps(
        rule,
        shape,
        shape.preorder(),
        Seq::empty(),
        head_vars(rule.head.head_arguments),
        Seq::new(atoms_of(rule, false).len(), |i: int| true),
        Seq::new(atoms_of(rule, true).len(), |i: int| !is_core(rule, i)),
        Seq::new(comparisons(rule.rhs).len(), |i: int| i as usize),
    );
}

} // verus!
