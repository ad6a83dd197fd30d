//! Rules of one atom can be planned.
use vstd::prelude::*;
use crate::catalog::arithmetic::{place_arithmetic, rest_places, PlacedFactorModel};
use crate::catalog::atoms::{AtomArgumentSignature, AtomSignature};
use crate::catalog::body::{
    alias_of, are_positions_small, atom_positions, atoms_of, comparisons, const_of, lemma_first_var,
    occurs, position, positive_atoms,
};
use crate::catalog::cores::{core_ids, lemma_core_below};
use crate::catalog::open::none_open;
use crate::catalog::query::{
    aliases_at, consts_at, head_vars, presence_at, sub_atom_ids, trace, trace_all, trace_one,
};
use crate::catalog::rule::{atom_strs, is_core, subset};
use crate::catalog::sideways::{has_var, lemma_atom_strs};
use crate::lists::lookup;
use crate::optimizing::covering::law_join_tree_covers;
use crate::optimizing::join_tree::JoinTree;
use crate::optimizing::optimizer::PlanTree;
use crate::parsing::arithmetic::{rest_vars, ArithmeticModel, ArithmeticOperator, FactorModel};
use crate::parsing::rule::{AtomArgModel, FLRuleModel};
use crate::planning::arguments::TransformationArgument;
use crate::planning::flow::{flow_aliases, flow_comparisons, flow_consts, flow_over, kv_columns};
use crate::planning::linking::law_trace_holds;
use crate::planning::rule::{is_join_tree, is_plannable, rule_steps};
use crate::planning::steps::{
    all_positive, assembled, base_of, filters_of, key_vars, leaf_step, traced_comparison,
};

verus! {

/// Whether all of some places are among columns.
pub open spec fn are_there(
    columns: Seq<(AtomArgumentSignature, TransformationArgument)>,
    places: Seq<AtomArgumentSignature>,
) -> bool {
    forall|i: int| 0 <= i < places.len() ==> lookup(columns, #[trigger] places[i]) is Some
}

pub proof fn lemma_flow_there(
    columns: Seq<(AtomArgumentSignature, TransformationArgument)>,
    places: Seq<AtomArgumentSignature>,
)
    requires
        are_there(columns, places),
    ensures
        flow_over(columns, places) is Some,
    decreases places.len(),
{
    if places.len() > 0 {
        let front = places.drop_last();
        assert forall|i: int| 0 <= i < front.len() implies lookup(
            columns,
            #[trigger] front[i],
        ) is Some by {
            assert(front[i] == places[i]);
        }
        lemma_flow_there(columns, front);
        assert(lookup(columns, places[places.len() - 1]) is Some);
    }
}

pub proof fn lemma_lookup_there(
    columns: Seq<(AtomArgumentSignature, TransformationArgument)>,
    i: int,
)
    requires
        0 <= i < columns.len(),
    ensures
        lookup(columns, columns[i].0) is Some,
    decreases columns.len(),
{
    if i < columns.len() - 1 {
        assert(columns.drop_last()[i] == columns[i]);
        lemma_lookup_there(columns.drop_last(), i);
    }
}

/// The columns of the relation of the only atom of a rule.
spec fn own_columns(rule: FLRuleModel) -> Seq<(AtomArgumentSignature, TransformationArgument)> {
    kv_columns(Seq::empty(), atom_positions(rule, true)[0])
}

proof fn lemma_own(rule: FLRuleModel, k: int)
    requires
        atoms_of(rule, true).len() > 0,
        0 <= k < atoms_of(rule, true)[0].arguments.len(),
    ensures
        lookup(own_columns(rule), position(true, 0, k)) is Some,
{
    let columns = own_columns(rule);
    assert(columns[k].0 == atom_positions(rule, true)[0][k]);
    assert(columns[k].0 == position(true, 0, k));
    lemma_lookup_there(columns, k);
}

proof fn lemma_filters_there(rule: FLRuleModel, n: int)
    requires
        are_positions_small(rule),
        atoms_of(rule, true).len() > 0,
        0 <= n <= atoms_of(rule, true)[0].arguments.len(),
    ensures
        flow_consts(
            own_columns(rule),
            consts_at(rule, atom_positions(rule, true)[0].take(n)),
        ) is Some,
        flow_aliases(
            own_columns(rule),
            aliases_at(rule, atom_positions(rule, true)[0].take(n)),
        ) is Some,
    decreases n,
{
    let columns = own_columns(rule);
    let all = atom_positions(rule, true)[0];
    let arguments = atoms_of(rule, true)[0].arguments;
    if n > 0 {
        let s = all[n - 1];
        lemma_filters_there(rule, n - 1);
        assert(all.take(n).drop_last() =~= all.take(n - 1));
        assert(all.take(n).last() == s);
        assert(s == position(true, 0, n - 1));
        lemma_own(rule, n - 1);
        let consts = consts_at(rule, all.take(n - 1));
        let aliases = aliases_at(rule, all.take(n - 1));
        if let Some(constant) = const_of(rule, s) {
            assert(consts.push((s, constant)).drop_last() =~= consts);
        }
        if let Some(first) = alias_of(rule, s) {
            assert(arguments.len() <= usize::MAX);
            let var = arguments[n - 1]->Var_0;
            lemma_first_var(arguments.take(s.argument_id as int), var);
            lemma_own(rule, first.argument_id as int);
            assert(first == position(true, 0, first.argument_id as int));
            assert(aliases.push((first, s)).drop_last() =~= aliases);
        }
    } else {
        assert(all.take(0) =~= Seq::empty());
    }
}

/// Variables of the only atom can be traced to it.
proof fn lemma_trace_there(rule: FLRuleModel, vars: Seq<Seq<char>>)
    requires
        are_positions_small(rule),
        atoms_of(rule, true).len() == 1,
        subset(vars, atom_strs(rule, true, 0)),
    ensures
        trace(rule, vars, seq![AtomSignature { is_positive: true, rhs_id: 0 }]) is Some,
        are_there(
            own_columns(rule),
            trace(rule, vars, seq![AtomSignature { is_positive: true, rhs_id: 0 }])->0,
        ),
    decreases vars.len(),
{
    let atom = AtomSignature { is_positive: true, rhs_id: 0 };
    let atoms = seq![atom];
    let arguments = atoms_of(rule, true)[0].arguments;
    assert(atoms[0].is_positive);
    if vars.len() > 0 {
        let front = vars.drop_last();
        let var = vars.last();
        assert forall|x: Seq<char>| #[trigger] front.contains(x) implies atom_strs(
            rule,
            true,
            0,
        ).contains(x) by {
            let i = choose|i: int| 0 <= i < front.len() && front[i] == x;
            assert(vars[i] == x);
            assert(vars.contains(x));
        }
        lemma_trace_there(rule, front);
        assert(vars.contains(vars[vars.len() - 1]));
        assert(arguments.len() <= usize::MAX);
        lemma_atom_strs(rule, true, 0, var);
        assert(has_var(atoms_of(rule, true)[0], var));
        assert(positive_atoms(rule.rhs)[0].arguments.contains(AtomArgModel::Var(var)));
        assert(occurs(positive_atoms(rule.rhs), var));
        lemma_first_var(arguments, var);
        assert(atoms.drop_last() =~= Seq::empty());
        assert(trace_one(rule, var, atoms.drop_last()) is None);
        assert(atoms.last() == atom);
        let found = trace_one(rule, var, atoms)->0;
        assert(presence_at(rule, var, 0) is Some);
        lemma_own(rule, found.argument_id as int);
        assert(found == position(true, 0, found.argument_id as int));
        let before = trace_all(rule, front, atoms)->0;
        let all = trace_all(rule, vars, atoms)->0;
        assert(all == before.push(found));
        assert forall|i: int| 0 <= i < all.len() implies lookup(
            own_columns(rule),
            #[trigger] all[i],
        ) is Some by {
            if i < before.len() {
                assert(all[i] == before[i]);
            }
        }
    }
}

proof fn lemma_rest_vars(rest: Seq<(ArithmeticOperator, FactorModel)>, k: int)
    requires
        0 <= k < rest.len(),
    ensures
        rest_vars(rest.take(k)).len() + rest[k].1.vars().len() <= rest_vars(rest).len(),
    decreases rest.len(),
{
    let front = rest.drop_last();
    if k == rest.len() - 1 {
        assert(rest.take(k) =~= front);
    } else {
        assert(front.take(k) =~= rest.take(k));
        assert(front[k] == rest[k]);
        lemma_rest_vars(front, k);
    }
}

/// The places of an expression are among those that its variables have.
pub proof fn lemma_placed_there(
    columns: Seq<(AtomArgumentSignature, TransformationArgument)>,
    arithmetic: ArithmeticModel,
    places: Seq<AtomArgumentSignature>,
)
    requires
        are_there(columns, places),
        places.len() == arithmetic.vars().len(),
    ensures
        are_there(columns, place_arithmetic(arithmetic, places).places()),
{
    let placed = place_arithmetic(arithmetic, places);
    assert(arithmetic.vars().len() == arithmetic.init.vars().len() + rest_vars(
        arithmetic.rest,
    ).len());
    assert(are_there(columns, placed.init.places())) by {
        if arithmetic.init is Var {
            assert(lookup(columns, places[0]) is Some);
        }
    }
    assert forall|k: int| 0 <= k < placed.rest.len() implies are_there(
        columns,
        (#[trigger] placed.rest[k]).1.places(),
    ) by {
        lemma_rest_vars(arithmetic.rest, k);
        let at = (arithmetic.init.vars().len() + rest_vars(arithmetic.rest.take(k)).len()) as int;
        if arithmetic.rest[k].1 is Var {
            assert(lookup(columns, places[at]) is Some);
        }
    }
    lemma_rest_there(columns, placed.rest);
    lemma_there_add(columns, placed.init.places(), rest_places(placed.rest));
}

proof fn lemma_there_add(
    columns: Seq<(AtomArgumentSignature, TransformationArgument)>,
    a: Seq<AtomArgumentSignature>,
    b: Seq<AtomArgumentSignature>,
)
    requires
        are_there(columns, a),
        are_there(columns, b),
    ensures
        are_there(columns, a + b),
{
    assert forall|i: int| 0 <= i < (a + b).len() implies lookup(
        columns,
        #[trigger] (a + b)[i],
    ) is Some by {
        if i < a.len() {
            assert((a + b)[i] == a[i]);
        } else {
            assert((a + b)[i] == b[i - a.len()]);
        }
    }
}

proof fn lemma_rest_there(
    columns: Seq<(AtomArgumentSignature, TransformationArgument)>,
    rest: Seq<(ArithmeticOperator, PlacedFactorModel<AtomArgumentSignature>)>,
)
    requires
        forall|k: int| 0 <= k < rest.len() ==> are_there(columns, (#[trigger] rest[k]).1.places()),
    ensures
        are_there(columns, rest_places(rest)),
    decreases rest.len(),
{
    if rest.len() > 0 {
        let front = rest.drop_last();
        assert forall|k: int| 0 <= k < front.len() implies are_there(
            columns,
            (#[trigger] front[k]).1.places(),
        ) by {
            assert(front[k] == rest[k]);
        }
        lemma_rest_there(columns, front);
        assert(are_there(columns, rest[rest.len() - 1].1.places()));
        lemma_there_add(columns, rest_places(front), rest.last().1.places());
    }
}

/// Comparisons of variables of the only atom can be placed at it.
proof fn lemma_compares_there(rule: FLRuleModel, ids: Seq<usize>)
    requires
        are_positions_small(rule),
        atoms_of(rule, true).len() == 1,
        forall|k: int|
            0 <= k < ids.len() ==> (#[trigger] ids[k]) < comparisons(rule.rhs).len() && subset(
                comparisons(rule.rhs)[ids[k] as int].vars(),
                atom_strs(rule, true, 0),
            ),
    ensures
        ({
            let found = assembled(
                rule,
                ids,
                seq![AtomSignature { is_positive: true, rhs_id: 0 }],
                atom_strs(rule, true, 0),
            );
            &&& found is Some
            &&& found->0.len() == ids.len()
            &&& flow_comparisons(own_columns(rule), found->0) is Some
        }),
    decreases ids.len(),
{
    let columns = own_columns(rule);
    let atom = AtomSignature { is_positive: true, rhs_id: 0 };
    let atoms = seq![atom];
    let vars = atom_strs(rule, true, 0);
    if ids.len() > 0 {
        let front = ids.drop_last();
        assert forall|k: int| 0 <= k < front.len() implies (#[trigger] front[k]) < comparisons(
            rule.rhs,
        ).len() && subset(comparisons(rule.rhs)[front[k] as int].vars(), vars) by {
            assert(front[k] == ids[k]);
        }
        lemma_compares_there(rule, front);
        let id = ids[ids.len() - 1];
        assert(id < comparisons(rule.rhs).len());
        let comparison = comparisons(rule.rhs)[id as int];
        let (left, right) = (comparison.left.vars(), comparison.right.vars());
        assert forall|x: Seq<char>| #[trigger] left.contains(x) implies vars.contains(x) by {
            let i = choose|i: int| 0 <= i < left.len() && left[i] == x;
            assert(comparison.vars()[i] == x);
            assert(comparison.vars().contains(x));
        }
        assert forall|x: Seq<char>| #[trigger] right.contains(x) implies vars.contains(x) by {
            let i = choose|i: int| 0 <= i < right.len() && right[i] == x;
            assert(comparison.vars()[left.len() + i] == x);
            assert(comparison.vars().contains(x));
        }
        lemma_trace_there(rule, left);
        lemma_trace_there(rule, right);
        law_trace_holds(rule, left, atoms);
        law_trace_holds(rule, right, atoms);
        assert(all_positive(atoms));
        let traced = traced_comparison(rule, comparison, atoms)->0;
        lemma_placed_there(columns, comparison.left, trace(rule, left, atoms)->0);
        lemma_placed_there(columns, comparison.right, trace(rule, right, atoms)->0);
        lemma_flow_there(columns, traced.left.places());
        lemma_flow_there(columns, traced.right.places());
        let before = assembled(rule, front, atoms, vars)->0;
        let found = assembled(rule, ids, atoms, vars)->0;
        assert(found == before.push(traced));
        assert(found.drop_last() =~= before);
    }
}

/// A rule of one atom has one join tree, the atom.
proof fn lemma_one_atom_tree(rule: FLRuleModel, is_optimized: bool, shape: JoinTree)
    requires
        are_positions_small(rule),
        atoms_of(rule, true).len() == 1,
        is_join_tree(rule, is_optimized, shape),
    ensures
        is_core(rule, 0),
        shape == JoinTree::Atom(0),
{
    lemma_core_below(rule, 1);
    assert(positive_atoms(rule.rhs).len() == 1);
    assert(is_core(rule, 0));
    assert(core_ids(rule).contains(0));
    assert(core_ids(rule).len() > 0);
    let plan = choose|plan: PlanTree| #[trigger]
        plan.describes(rule, is_optimized) && plan.shape == shape;
    law_join_tree_covers(rule, is_optimized, plan);
    let order = shape.preorder();
    match shape {
        JoinTree::Atom(id) => {
            assert(order[0] == id);
            assert(order.contains(id));
        },
        JoinTree::Join(rest, last) => {
            lemma_preorder_len(*rest);
            lemma_preorder_len(*last);
            assert(order.contains(order[0]) && order.contains(order[1]));
            assert(order[0] == 0 && order[1] == 0);
        },
    }
}

proof fn lemma_preorder_len(tree: JoinTree)
    ensures
        tree.preorder().len() > 0,
    decreases tree,
{
    match tree {
        JoinTree::Atom(id) => {},
        JoinTree::Join(rest, last) => {
            lemma_preorder_len(*rest);
        },
    }
}

/// The step for the only atom of a rule can be built.
proof fn lemma_leaf_there(rule: FLRuleModel)
    requires
        are_positions_small(rule),
        atoms_of(rule, true).len() == 1,
        comparisons(rule.rhs).len() <= usize::MAX,
        head_vars(rule.head.head_arguments).len() > 0,
        subset(head_vars(rule.head.head_arguments), atom_strs(rule, true, 0)),
        forall|c: int|
            0 <= c < comparisons(rule.rhs).len() ==> subset(
                (#[trigger] comparisons(rule.rhs)[c]).vars(),
                atom_strs(rule, true, 0),
            ),
    ensures
        leaf_step(
            rule,
            AtomSignature { is_positive: true, rhs_id: 0 },
            Seq::empty(),
            head_vars(rule.head.head_arguments),
            Seq::new(comparisons(rule.rhs).len(), |i: int| i as usize),
        ) is Some,
{
    let columns = own_columns(rule);
    let atom = AtomSignature { is_positive: true, rhs_id: 0 };
    let all = atom_positions(rule, true)[0];
    let vars = head_vars(rule.head.head_arguments);
    let none = Seq::<Seq<char>>::empty();
    let comps = Seq::new(comparisons(rule.rhs).len(), |i: int| i as usize);
    assert forall|k: int| 0 <= k < comps.len() implies (#[trigger] comps[k]) < comparisons(
        rule.rhs,
    ).len() && subset(comparisons(rule.rhs)[comps[k] as int].vars(), atom_strs(rule, true, 0)) by {
        assert(comparisons(rule.rhs)[k].vars() == comparisons(rule.rhs)[comps[k] as int].vars());
    }
    lemma_compares_there(rule, comps);
    lemma_trace_there(rule, none);
    lemma_trace_there(rule, vars);
    law_trace_holds(rule, vars, seq![atom]);
    law_trace_holds(rule, none, seq![atom]);
    lemma_flow_there(columns, trace(rule, none, seq![atom])->0);
    lemma_flow_there(columns, trace(rule, vars, seq![atom])->0);
    lemma_filters_there(rule, atoms_of(rule, true)[0].arguments.len() as int);
    assert(all.take(all.len() as int) =~= all);
    let base = base_of(rule, atom);
    assert(base.keys =~= Seq::empty());
}

/// A rule of one atom, without negation, can be planned where its head has a variable
/// and its head and its comparisons use only variables of the atom.
pub proof fn law_rules_of_one_atom_can_be_planned(rule: FLRuleModel, is_optimized: bool)
    requires
        are_positions_small(rule),
        comparisons(rule.rhs).len() <= usize::MAX,
        atoms_of(rule, true).len() == 1,
        atoms_of(rule, false).len() == 0,
        head_vars(rule.head.head_arguments).len() > 0,
        subset(head_vars(rule.head.head_arguments), atom_strs(rule, true, 0)),
        forall|c: int|
            0 <= c < comparisons(rule.rhs).len() ==> subset(
                (#[trigger] comparisons(rule.rhs)[c]).vars(),
                atom_strs(rule, true, 0),
            ),
    ensures
        is_plannable(rule, is_optimized),
{
    let atom = AtomSignature { is_positive: true, rhs_id: 0 };
    lemma_core_below(rule, 1);
    assert(positive_atoms(rule.rhs).len() == 1);
    assert(is_core(rule, 0));
    assert(core_ids(rule).contains(0));
    lemma_leaf_there(rule);
    assert forall|shape: JoinTree| #[trigger] is_join_tree(
        rule,
        is_optimized,
        shape,
    ) implies rule_steps(rule, shape) is Some by {
        lemma_one_atom_tree(rule, is_optimized, shape);
        let open_negated = Seq::new(atoms_of(rule, false).len(), |i: int| true);
        let open_subs = Seq::new(atoms_of(rule, true).len(), |i: int| !is_core(rule, i));
        let vars = key_vars(rule, atom);
        reveal_with_fuel(sub_atom_ids, 2);
        assert(sub_atom_ids(rule, vars, 1) =~= Seq::empty());
        let filters = filters_of(rule, atom, open_negated, open_subs);
        assert(filters.0.0.len() == 0 && filters.0.1 == open_subs);
        assert(filters.1.0.len() == 0 && filters.1.1 == open_negated);
        assert(none_open(open_subs));
        assert(none_open(open_negated));
    }
}

} // verus!
