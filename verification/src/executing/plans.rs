//! The plan of a rule derives the rows that the rule says.
use vstd::prelude::*;
use crate::catalog::atoms::{AtomArgumentSignature, AtomSignature};
use crate::catalog::body::{are_positions_small, atoms_of, comparisons};
use crate::catalog::compare::PlacedComparisonModel;
use crate::catalog::cores::core_ids;
use crate::catalog::open::{
    are_atoms, lemma_sub_atoms, lemma_sub_negated, none_open, take_open,
};
use crate::catalog::query::{
    across_ids, comp_vars, comps_across, comps_covered, comps_within, head_vars, is_across,
    sub_atom_ids, sub_negated_ids, trace, vars_of,
};
use crate::catalog::rule::{atom_strs, is_core, subset, Catalog};
use crate::executing::answers::{are_among, is_countable, is_side, lemma_join_gives};
use crate::executing::deriving::{
    atoms_are_at, can_run, filtered_part, has_steps, lemma_antijoins_give, lemma_atom_steps_give,
    lemma_atom_vars, lemma_compares_as, lemma_filtered_within, vars_at, with_all_failing,
};
use crate::executing::heads::{head_row_of, law_answers_are_head_rows};
use crate::executing::meaning::{
    atom_at, atom_holds, comparison_holds, comps_in, comps_set, gives, has_var, is_answer, is_binding,
    is_image, is_within, makes, part_holds, part_union, satisfies, vals, Database, Part, Valuation,
};
use crate::executing::shapes::{
    ids_in, is_above, is_of, is_shaped, last_planned, lemma_antijoins_shape, lemma_ids_in,
    lemma_joined_columns, lemma_split, lemma_tree_steps_shape, name_len, rest_planned, split_of,
    split_steps,
};
use crate::lists::lemma_entries_key;
use crate::optimizing::covering::{joins_core, law_join_tree_covers};
use crate::optimizing::join_tree::{common, is_over, lemma_is_over_parts, JoinTree};
use crate::parsing::arithmetic::{distinct, lemma_distinct};
use crate::parsing::head::HeadModel;
use crate::parsing::rule::{FLRuleModel, PredicateModel};
use crate::planning::collections::Collection;
use crate::planning::linking::{
    is_link, law_plan_is_linked, law_trace_holds, lemma_across_atoms, lemma_take_open,
    lemma_tree_steps, puts_out,
};
use crate::planning::rule::{
    atoms_at, join_steps, rule_steps, side_values, tree_steps, PlannedModel, RuleQueryPlan,
};
use crate::planning::steps::{
    all_positive, antijoins, assembled, filters_of, key_vars, without, Steps, StepsModel,
};
use crate::planning::transformations::{jn_step, Transformation, TransformationModel};

verus! {

/// The atoms of one sign that were open and are so no longer.
pub open spec fn consumed(before: Seq<bool>, after: Seq<bool>, positive: bool) -> Set<
    AtomSignature,
> {
    Set::new(
        |atom: AtomSignature|
            atom.is_positive == positive && atom.rhs_id < before.len()
                && before[atom.rhs_id as int] && !after[atom.rhs_id as int],
    )
}

/// Whether nothing was opened.
pub open spec fn shrinks(before: Seq<bool>, after: Seq<bool>) -> bool {
    &&& after.len() == before.len()
    &&& forall|i: int| 0 <= i < before.len() && #[trigger] after[i] ==> before[i]
}

/// The positive atoms of a tree.
pub open spec fn atoms_in(tree: JoinTree) -> Set<AtomSignature> {
    Set::new(|atom: AtomSignature| atom.is_positive && ids_in(tree).contains(atom.rhs_id))
}

/// The variables of the atoms of a tree.
pub open spec fn tree_vars(rule: FLRuleModel, tree: JoinTree) -> Set<Seq<char>> {
    Set::new(
        |var: Seq<char>|
            exists|atom: AtomSignature|
                atoms_in(tree).contains(atom) && #[trigger] has_var(rule, atom, var),
    )
}

/// The part of a body that the steps for a tree take care of.
pub open spec fn tree_part(
    tree: JoinTree,
    open_negated: Seq<bool>,
    open_subs: Seq<bool>,
    planned: PlannedModel,
    comps: Seq<usize>,
) -> Part {
    Part {
        holding: atoms_in(tree).union(consumed(open_subs, planned.open_subs, true)),
        failing: consumed(open_negated, planned.open_negated, false),
        comps: comps_set(comps),
    }
}

proof fn lemma_common(a: Seq<Seq<char>>, b: Seq<Seq<char>>, var: Seq<char>)
    ensures
        common(a, b).contains(var) <==> a.contains(var) && b.contains(var),
    decreases a.len(),
{
    if a.len() > 0 {
        let front = a.drop_last();
        let all = common(a, b);
        let before = common(front, b);
        lemma_common(front, b, var);
        if all.contains(var) {
            let i = all.index_of(var);
            assert(all[i] == var);
            if i < before.len() {
                assert(before[i] == var);
                assert(before.contains(var));
                assert(a[front.index_of(var)] == var);
            } else {
                assert(a[a.len() - 1] == var);
            }
        }
        if a.contains(var) && b.contains(var) {
            let k = a.index_of(var);
            if k < front.len() {
                assert(front[k] == var);
                assert(front.contains(var));
                assert(all[before.index_of(var)] == var);
            } else {
                assert(all[before.len() as int] == var);
            }
        }
    }
}

proof fn lemma_without(a: Seq<Seq<char>>, b: Seq<Seq<char>>, var: Seq<char>)
    ensures
        without(a, b).contains(var) ==> a.contains(var),
    decreases a.len(),
{
    if a.len() > 0 {
        let front = a.drop_last();
        let all = without(a, b);
        let before = without(front, b);
        lemma_without(front, b, var);
        if all.contains(var) {
            let i = all.index_of(var);
            assert(all[i] == var);
            if i < before.len() {
                assert(before[i] == var);
                assert(before.contains(var));
                assert(a[front.index_of(var)] == var);
            } else {
                assert(a[a.len() - 1] == var);
            }
        }
    }
}

/// What one side of a join carries are variables of this side.
proof fn lemma_side_values(
    vars: Seq<Seq<char>>,
    other: Seq<Seq<char>>,
    wanted: Seq<Seq<char>>,
    all: Set<Seq<char>>,
)
    requires
        forall|var: Seq<char>| #[trigger] vars.contains(var) ==> all.contains(var),
    ensures
        are_among(side_values(vars, other, wanted), all),
{
    let found = side_values(vars, other, wanted);
    assert forall|i: int| 0 <= i < found.len() implies all.contains(#[trigger] found[i]) by {
        assert(found.contains(found[i]));
        lemma_common(without(vars, other), wanted, found[i]);
        lemma_without(vars, other, found[i]);
    }
}

pub proof fn lemma_vars_of(rule: FLRuleModel, ids: Seq<usize>, var: Seq<char>)
    requires
        are_positions_small(rule),
        forall|k: int| 0 <= k < ids.len() ==> (#[trigger] ids[k]) < atoms_of(rule, true).len(),
    ensures
        vars_of(rule, true, ids).contains(var) <==> exists|k: int|
            0 <= k < ids.len() && has_var(
                rule,
                AtomSignature { is_positive: true, rhs_id: #[trigger] ids[k] },
                var,
            ),
    decreases ids.len(),
{
    if ids.len() > 0 {
        let front = ids.drop_last();
        assert forall|k: int| 0 <= k < front.len() implies (#[trigger] front[k]) < atoms_of(
            rule,
            true,
        ).len() by {
            assert(front[k] == ids[k]);
        }
        lemma_vars_of(rule, front, var);
        let last = ids[ids.len() - 1];
        let atom = AtomSignature { is_positive: true, rhs_id: last };
        let before = vars_of(rule, true, front);
        let more = key_vars(rule, atom);
        let all = vars_of(rule, true, ids);
        assert(all == before + more);
        lemma_atom_vars(rule, atom, var);
        if all.contains(var) {
            let i = all.index_of(var);
            assert(all[i] == var);
            if i < before.len() {
                assert(before[i] == var);
                assert(before.contains(var));
                let k = choose|k: int|
                    0 <= k < front.len() && has_var(
                        rule,
                        AtomSignature { is_positive: true, rhs_id: #[trigger] front[k] },
                        var,
                    );
                assert(ids[k] == front[k]);
            } else {
                assert(more[i - before.len()] == var);
                assert(more.contains(var));
                assert(ids[ids.len() - 1] == last);
            }
        }
        if exists|k: int|
            0 <= k < ids.len() && has_var(
                rule,
                AtomSignature { is_positive: true, rhs_id: #[trigger] ids[k] },
                var,
            ) {
            let k = choose|k: int|
                0 <= k < ids.len() && has_var(
                    rule,
                    AtomSignature { is_positive: true, rhs_id: #[trigger] ids[k] },
                    var,
                );
            if k < front.len() {
                assert(front[k] == ids[k]);
                assert(before.contains(var));
                assert(all[before.index_of(var)] == var);
            } else {
                assert(more.contains(var));
                assert(all[before.len() + more.index_of(var)] == var);
            }
        }
    }
}

/// The listed variables of a tree are those of its atoms.
proof fn lemma_tree_vars(rule: FLRuleModel, tree: JoinTree, var: Seq<char>)
    requires
        are_positions_small(rule),
        is_over(rule, tree),
    ensures
        distinct(vars_of(rule, true, tree.preorder())).contains(var) <==> tree_vars(
            rule,
            tree,
        ).contains(var),
{
    let ids = tree.preorder();
    lemma_distinct(vars_of(rule, true, ids));
    lemma_vars_of(rule, ids, var);
    if vars_of(rule, true, ids).contains(var) {
        let k = choose|k: int|
            0 <= k < ids.len() && has_var(
                rule,
                AtomSignature { is_positive: true, rhs_id: #[trigger] ids[k] },
                var,
            );
        let atom = AtomSignature { is_positive: true, rhs_id: ids[k] };
        assert(ids.to_set().contains(ids[k]));
        assert(atoms_in(tree).contains(atom) && has_var(rule, atom, var));
    }
    if tree_vars(rule, tree).contains(var) {
        let atom = choose|atom: AtomSignature|
            atoms_in(tree).contains(atom) && #[trigger] has_var(rule, atom, var);
        let k = ids.index_of(atom.rhs_id);
        assert(ids[k] == atom.rhs_id);
        assert(atom == (AtomSignature { is_positive: true, rhs_id: ids[k] }));
    }
}

/// What is taken was open, and what was closed is taken.
proof fn lemma_taken(atoms: Seq<AtomSignature>, open: Seq<bool>)
    requires
        forall|i: int| 0 <= i < atoms.len() ==> (#[trigger] atoms[i]).rhs_id < open.len(),
    ensures
        shrinks(open, take_open(atoms, open).1),
        forall|atom: AtomSignature| #[trigger]
            take_open(atoms, open).0.contains(atom) ==> atoms.contains(atom) && open[atom.rhs_id as int]
                && !take_open(atoms, open).1[atom.rhs_id as int],
        forall|j: int|
            0 <= j < open.len() && open[j] && !#[trigger] take_open(atoms, open).1[j] ==> exists|
                k: int,
            |
                0 <= k < take_open(atoms, open).0.len() && (#[trigger] take_open(
                    atoms,
                    open,
                ).0[k]).rhs_id == j,
    decreases atoms.len(),
{
    if atoms.len() > 0 {
        let front = atoms.drop_last();
        assert forall|i: int| 0 <= i < front.len() implies (#[trigger] front[i]).rhs_id
            < open.len() by {
            assert(front[i] == atoms[i]);
        }
        lemma_taken(front, open);
        let (taken, left) = take_open(front, open);
        let (all, after) = take_open(atoms, open);
        let last = atoms[atoms.len() - 1];
        let id = last.rhs_id as int;
        assert(last.rhs_id < open.len());
        assert forall|atom: AtomSignature| #[trigger] all.contains(atom) implies atoms.contains(
            atom,
        ) && open[atom.rhs_id as int] && !after[atom.rhs_id as int] by {
            let i = all.index_of(atom);
            if i < taken.len() {
                assert(taken[i] == atom);
                assert(taken.contains(atom));
                assert(atoms[front.index_of(atom)] == atom);
            } else {
                assert(atoms[atoms.len() - 1] == atom);
            }
        }
        assert forall|j: int| 0 <= j < open.len() && open[j] && !#[trigger] after[j] implies exists|
            k: int,
        | 0 <= k < all.len() && (#[trigger] all[k]).rhs_id == j by {
            if left[j] {
                assert(j == id);
                assert(all[taken.len() as int].rhs_id == j);
            } else {
                let k = choose|k: int| 0 <= k < taken.len() && (#[trigger] taken[k]).rhs_id == j;
                assert(all[k] == taken[k]);
            }
        }
    }
}

/// What is taken is what was consumed.
pub proof fn lemma_taken_set(
    rule: FLRuleModel,
    atoms: Seq<AtomSignature>,
    open: Seq<bool>,
    positive: bool,
)
    requires
        are_atoms(rule, atoms, positive),
        open.len() == atoms_of(rule, positive).len(),
    ensures
        take_open(atoms, open).0.to_set() == consumed(open, take_open(atoms, open).1, positive),
        shrinks(open, take_open(atoms, open).1),
        forall|atom: AtomSignature| #[trigger]
            take_open(atoms, open).0.contains(atom) ==> atoms.contains(atom),
{
    assert forall|i: int| 0 <= i < atoms.len() implies (#[trigger] atoms[i]).rhs_id
        < open.len() by {}
    lemma_taken(atoms, open);
    let (taken, after) = take_open(atoms, open);
    let used = consumed(open, after, positive);
    assert forall|atom: AtomSignature| #[trigger] taken.to_set().contains(atom)
        <==> used.contains(atom) by {
        if taken.to_set().contains(atom) {
            assert(taken.contains(atom));
            let k = atoms.index_of(atom);
            assert(atoms[k] == atom);
        }
        if used.contains(atom) {
            let j = atom.rhs_id as int;
            assert(!after[j]);
            let k = choose|k: int| 0 <= k < taken.len() && (#[trigger] taken[k]).rhs_id == j;
            assert(taken.contains(taken[k]));
            let m = atoms.index_of(taken[k]);
            assert(atoms[m] == taken[k]);
            assert(taken[k] == atom);
        }
    }
    assert(taken.to_set() =~= used);
}

pub proof fn lemma_sub_vars(rule: FLRuleModel, strs: Seq<Seq<char>>, upto: nat, atom: AtomSignature)
    requires
        upto <= atoms_of(rule, true).len(),
        upto <= usize::MAX,
    ensures
        sub_atom_ids(rule, strs, upto).contains(atom) ==> subset(
            atom_strs(rule, true, atom.rhs_id as int),
            strs,
        ),
    decreases upto,
{
    if upto > 0 {
        lemma_sub_vars(rule, strs, (upto - 1) as nat, atom);
        let all = sub_atom_ids(rule, strs, upto);
        let front = sub_atom_ids(rule, strs, (upto - 1) as nat);
        if all.contains(atom) {
            let i = all.index_of(atom);
            assert(all[i] == atom);
            if i < front.len() {
                assert(front[i] == atom);
                assert(front.contains(atom));
            }
        }
    }
}

pub proof fn lemma_negated_vars(
    rule: FLRuleModel,
    strs: Seq<Seq<char>>,
    upto: nat,
    atom: AtomSignature,
)
    requires
        upto <= atoms_of(rule, false).len(),
        upto <= usize::MAX,
    ensures
        sub_negated_ids(rule, strs, upto).contains(atom) ==> subset(
            atom_strs(rule, false, atom.rhs_id as int),
            strs,
        ),
    decreases upto,
{
    if upto > 0 {
        lemma_negated_vars(rule, strs, (upto - 1) as nat, atom);
        let all = sub_negated_ids(rule, strs, upto);
        let front = sub_negated_ids(rule, strs, (upto - 1) as nat);
        if all.contains(atom) {
            let i = all.index_of(atom);
            assert(all[i] == atom);
            if i < front.len() {
                assert(front[i] == atom);
                assert(front.contains(atom));
            }
        }
    }
}

/// The steps for one atom.
proof fn lemma_atom_gives(
    db: Database,
    rule: FLRuleModel,
    steps_tree: Map<TransformationModel, (TransformationModel, TransformationModel)>,
    id: usize,
    full: Seq<usize>,
    keys: Seq<Seq<char>>,
    values: Seq<Seq<char>>,
    open_negated: Seq<bool>,
    open_subs: Seq<bool>,
    comps: Seq<usize>,
    planned: PlannedModel,
)
    requires
        are_positions_small(rule),
        id < atoms_of(rule, true).len(),
        open_negated.len() == atoms_of(rule, false).len(),
        open_subs.len() == atoms_of(rule, true).len(),
        tree_steps(
            rule,
            JoinTree::Atom(id),
            full,
            keys,
            values,
            open_negated,
            open_subs,
            comps,
        ) == Some(planned),
        has_steps(steps_tree, planned.steps.tree),
        can_run(steps_tree),
    ensures
        ({
            let tree = JoinTree::Atom(id);
            let part = tree_part(tree, open_negated, open_subs, planned, comps);
            &&& gives(db, rule, steps_tree, planned.steps.last, keys + values, part)
            &&& is_within(rule, part, tree_vars(rule, tree))
            &&& shrinks(open_negated, planned.open_negated)
            &&& shrinks(open_subs, planned.open_subs)
        }),
{
    let tree = JoinTree::Atom(id);
    let atom = AtomSignature { is_positive: true, rhs_id: id };
    let all = vars_at(rule, atom);
    let vars = key_vars(rule, atom);
    let filters = filters_of(rule, atom, open_negated, open_subs);
    let subs = filters.0.0;
    let negated = filters.1.0;
    let n = atoms_of(rule, true).len();
    let m = atoms_of(rule, false).len();
    let part = tree_part(tree, open_negated, open_subs, planned, comps);
    lemma_sub_atoms(rule, vars, n);
    lemma_sub_negated(rule, vars, m);
    lemma_taken_set(rule, sub_atom_ids(rule, vars, n), open_subs, true);
    lemma_taken_set(rule, sub_negated_ids(rule, vars, m), open_negated, false);
    lemma_take_open(rule, sub_atom_ids(rule, vars, n), open_subs, true);
    lemma_take_open(rule, sub_negated_ids(rule, vars, m), open_negated, false);
    assert(atoms_are_at(rule, subs, all)) by {
        assert forall|k: int, var: Seq<char>|
            0 <= k < subs.len() && #[trigger] has_var(rule, subs[k], var) implies all.contains(
            var,
        ) by {
            assert(subs.contains(subs[k]));
            lemma_sub_vars(rule, vars, n, subs[k]);
            lemma_atom_vars(rule, subs[k], var);
            assert(atom_strs(rule, true, subs[k].rhs_id as int).contains(var));
            assert(vars.contains(var));
            lemma_atom_vars(rule, atom, var);
        }
    }
    assert(atoms_are_at(rule, negated, all)) by {
        assert forall|k: int, var: Seq<char>|
            0 <= k < negated.len() && #[trigger] has_var(rule, negated[k], var) implies all.contains(
            var,
        ) by {
            assert(negated.contains(negated[k]));
            lemma_negated_vars(rule, vars, m, negated[k]);
            lemma_atom_vars(rule, negated[k], var);
            assert(atom_strs(rule, false, negated[k].rhs_id as int).contains(var));
            assert(vars.contains(var));
            lemma_atom_vars(rule, atom, var);
        }
    }
    lemma_atom_steps_give(db, rule, steps_tree, atom, subs, negated, keys, values, comps);
    lemma_filtered_within(rule, atom, subs, negated, comps);
    assert(tree.preorder()[0] == id);
    assert(ids_in(tree) =~= set![id]);
    assert(atoms_in(tree) =~= set![atom]);
    let made = filtered_part(atom, subs, negated, comps);
    assert(made.holding =~= part.holding);
    assert(made.failing =~= part.failing);
    assert(made =~= part);
    assert(tree_vars(rule, tree) =~= all) by {
        assert forall|var: Seq<char>| #[trigger] tree_vars(rule, tree).contains(var)
            <==> all.contains(var) by {
            if all.contains(var) {
                assert(atoms_in(tree).contains(atom) && has_var(rule, atom, var));
            }
        }
    }
}

/// The keys that a join of two sides puts out.
spec fn joined_keys(rule: FLRuleModel, negated: Seq<AtomSignature>, keys: Seq<Seq<char>>) -> Seq<
    Seq<char>,
> {
    if negated.len() == 0 {
        keys
    } else {
        key_vars(rule, negated[0])
    }
}

/// The values that a join of two sides puts out.
spec fn joined_values(
    rule: FLRuleModel,
    negated: Seq<AtomSignature>,
    sides: Seq<Seq<char>>,
    keys: Seq<Seq<char>>,
    values: Seq<Seq<char>>,
) -> Seq<Seq<char>> {
    if negated.len() == 0 {
        values
    } else {
        distinct(without(sides, joined_keys(rule, negated, keys)))
    }
}

/// The step that joins two sides.
spec fn join_of(
    rule: FLRuleModel,
    left: StepsModel,
    right: StepsModel,
    atoms: Seq<AtomSignature>,
    negated: Seq<AtomSignature>,
    sides: Seq<Seq<char>>,
    keys: Seq<Seq<char>>,
    values: Seq<Seq<char>>,
    compares: Seq<PlacedComparisonModel<AtomArgumentSignature>>,
) -> Option<TransformationModel> {
    jn_step(
        left.last.output,
        right.last.output,
        trace(rule, joined_keys(rule, negated, keys), atoms)->0,
        trace(rule, joined_values(rule, negated, sides, keys, values), atoms)->0,
        compares,
    )
}

/// A tree that has the steps of a join of two sides has the steps of both sides,
/// those of the antijoins on the join, and the join.
proof fn lemma_has_sides(
    tree: Map<TransformationModel, (TransformationModel, TransformationModel)>,
    left: StepsModel,
    right: StepsModel,
    top: StepsModel,
    join: TransformationModel,
    left_ids: Set<usize>,
    right_ids: Set<usize>,
)
    requires
        is_shaped(left, left_ids),
        is_shaped(right, right_ids),
        left_ids.disjoint(right_ids),
        is_above(top, join),
        name_len(join) > name_len(left.last),
        name_len(join) > name_len(right.last),
        can_run(tree),
        has_steps(
            tree,
            top.tree.insert(join, (left.last, right.last)).union_prefer_right(
                left.tree,
            ).union_prefer_right(right.tree),
        ),
    ensures
        has_steps(tree, left.tree),
        has_steps(tree, right.tree),
        has_steps(tree, top.tree),
        tree.contains_key(join),
        tree[join] == (left.last, right.last),
{
    let upper = top.tree.insert(join, (left.last, right.last));
    let all = upper.union_prefer_right(left.tree).union_prefer_right(right.tree);
    assert forall|step: TransformationModel| #[trigger]
        right.tree.contains_key(step) implies tree.contains_key(step) && tree[step]
        == right.tree[step] by {
        assert(all.contains_key(step));
    }
    assert forall|step: TransformationModel| #[trigger]
        left.tree.contains_key(step) implies tree.contains_key(step) && tree[step]
        == left.tree[step] by {
        assert(all.contains_key(step));
        if right.tree.contains_key(step) {
            if step.input.keys.len() > 0 {
                let id = step.input.keys[0].atom_signature.rhs_id;
                assert(left_ids.contains(id) && right_ids.contains(id));
            } else {
                assert(step.input.values.len() > 0);
                let id = step.input.values[0].atom_signature.rhs_id;
                assert(left_ids.contains(id) && right_ids.contains(id));
            }
        }
    }
    assert forall|step: TransformationModel| #[trigger]
        upper.contains_key(step) implies tree.contains_key(step) && tree[step] == upper[step] by {
        assert(name_len(step) >= name_len(join)) by {
            if step != join {
                assert(top.tree.contains_key(step));
            }
        }
        assert(!left.tree.contains_key(step));
        assert(!right.tree.contains_key(step));
        assert(all.contains_key(step));
    }
    assert(upper.contains_key(join));
    assert forall|step: TransformationModel| #[trigger]
        top.tree.contains_key(step) implies tree.contains_key(step) && tree[step]
        == top.tree[step] by {
        assert(step != join);
        assert(upper.contains_key(step));
    }
}

/// The part of a body that a join of two sides takes care of.
spec fn both_parts(left: Part, right: Part, comps: Set<int>) -> Part {
    part_union(
        part_union(left, right),
        Part { holding: Set::empty(), failing: Set::empty(), comps },
    )
}

/// A join of two sides, with negated atoms taken away, gives the values for which
/// both parts and the comparisons hold and the negated atoms do not.
proof fn lemma_join_steps_give(
    db: Database,
    rule: FLRuleModel,
    tree: Map<TransformationModel, (TransformationModel, TransformationModel)>,
    left: StepsModel,
    right: StepsModel,
    atoms: Seq<AtomSignature>,
    negated: Seq<AtomSignature>,
    sides: Seq<Seq<char>>,
    keys: Seq<Seq<char>>,
    values: Seq<Seq<char>>,
    across: Seq<usize>,
    side_vars: Seq<Seq<char>>,
    comps: Seq<usize>,
    join_keys: Seq<Seq<char>>,
    left_values: Seq<Seq<char>>,
    right_values: Seq<Seq<char>>,
    left_part: Part,
    right_part: Part,
    left_vars: Set<Seq<char>>,
    right_vars: Set<Seq<char>>,
    left_ids: Set<usize>,
    right_ids: Set<usize>,
    steps: StepsModel,
)
    requires
        are_positions_small(rule),
        all_positive(atoms),
        are_atoms(rule, negated, false),
        join_steps(
            rule,
            left,
            right,
            atoms,
            negated,
            sides,
            keys,
            values,
            assembled(rule, across, atoms, side_vars),
            comps,
        ) == Some(steps),
        has_steps(tree, steps.tree),
        can_run(tree),
        is_shaped(left, left_ids),
        is_shaped(right, right_ids),
        left_ids.disjoint(right_ids),
        is_side(db, rule, tree, left.last, join_keys, left_values, left_part, left_vars),
        is_side(db, rule, tree, right.last, join_keys, right_values, right_part, right_vars),
        forall|var: Seq<char>| #[trigger]
            left_vars.contains(var) && right_vars.contains(var) ==> join_keys.contains(var),
        comps_set(comps).subset_of(
            both_parts(left_part, right_part, comps_in(rule, across, side_vars)).comps,
        ),
    ensures
        gives(
            db,
            rule,
            tree,
            steps.last,
            keys + values,
            with_all_failing(
                both_parts(left_part, right_part, comps_in(rule, across, side_vars)),
                negated,
            ),
        ),
{
    let ids = left_ids.union(right_ids);
    let compares = assembled(rule, across, atoms, side_vars)->0;
    let out_keys = joined_keys(rule, negated, keys);
    let out_values = joined_values(rule, negated, sides, keys, values);
    let key_columns = trace(rule, out_keys, atoms)->0;
    let value_columns = trace(rule, out_values, atoms)->0;
    let join = join_of(rule, left, right, atoms, negated, sides, keys, values, compares)->0;
    let top = antijoins(rule, atoms, join, negated, keys, values, comps)->0;
    let within = comps_in(rule, across, side_vars);
    let part = both_parts(left_part, right_part, within);
    assert(is_of(left.last.output, ids));
    assert(is_of(right.last.output, ids));
    lemma_joined_columns(
        left.last.output,
        right.last.output,
        key_columns,
        value_columns,
        compares,
        ids,
    );
    lemma_antijoins_shape(rule, atoms, join, negated, keys, values, comps, ids);
    lemma_has_sides(tree, left, right, top, join, left_ids, right_ids);
    law_trace_holds(rule, out_keys, atoms);
    law_trace_holds(rule, out_values, atoms);
    lemma_compares_as(rule, across, atoms, side_vars);
    lemma_join_gives(
        db,
        rule,
        tree,
        join,
        left.last,
        right.last,
        join_keys,
        left_values,
        right_values,
        left_part,
        right_part,
        left_vars,
        right_vars,
        key_columns,
        value_columns,
        compares,
        within,
        out_keys,
        out_values,
    );
    lemma_antijoins_give(
        db,
        rule,
        tree,
        atoms,
        join,
        negated,
        keys,
        values,
        comps,
        out_keys,
        out_values,
        part,
        ids,
    );
}

proof fn lemma_comps_within(rule: FLRuleModel, vars: Seq<Seq<char>>, ids: Seq<usize>, c: usize)
    ensures
        comps_within(rule, vars, ids).contains(c) <==> ids.contains(c) && subset(
            comp_vars(rule, c),
            vars,
        ),
    decreases ids.len(),
{
    if ids.len() > 0 {
        let front = ids.drop_last();
        let all = comps_within(rule, vars, ids);
        let before = comps_within(rule, vars, front);
        lemma_comps_within(rule, vars, front, c);
        if all.contains(c) {
            let i = all.index_of(c);
            assert(all[i] == c);
            if i < before.len() {
                assert(before[i] == c);
                assert(before.contains(c));
                assert(ids[front.index_of(c)] == c);
            } else {
                assert(ids[ids.len() - 1] == c);
            }
        }
        if ids.contains(c) && subset(comp_vars(rule, c), vars) {
            let k = ids.index_of(c);
            if k < front.len() {
                assert(front[k] == c);
                assert(front.contains(c));
                assert(all[before.index_of(c)] == c);
            } else {
                assert(all[before.len() as int] == c);
            }
        }
    }
}

proof fn lemma_comps_across(
    rule: FLRuleModel,
    left: Seq<Seq<char>>,
    right: Seq<Seq<char>>,
    ids: Seq<usize>,
    c: usize,
)
    ensures
        comps_across(rule, left, right, ids).contains(c) <==> ids.contains(c) && !subset(
            comp_vars(rule, c),
            left,
        ) && !subset(comp_vars(rule, c), right),
    decreases ids.len(),
{
    if ids.len() > 0 {
        let front = ids.drop_last();
        let all = comps_across(rule, left, right, ids);
        let before = comps_across(rule, left, right, front);
        lemma_comps_across(rule, left, right, front, c);
        if all.contains(c) {
            let i = all.index_of(c);
            assert(all[i] == c);
            if i < before.len() {
                assert(before[i] == c);
                assert(before.contains(c));
                assert(ids[front.index_of(c)] == c);
            } else {
                assert(ids[ids.len() - 1] == c);
            }
        }
        if ids.contains(c) && !subset(comp_vars(rule, c), left) && !subset(
            comp_vars(rule, c),
            right,
        ) {
            let k = ids.index_of(c);
            if k < front.len() {
                assert(front[k] == c);
                assert(front.contains(c));
                assert(all[before.index_of(c)] == c);
            } else {
                assert(all[before.len() as int] == c);
            }
        }
    }
}

/// Each comparison goes to one side or waits for the join.
proof fn lemma_comps_split(
    rule: FLRuleModel,
    left: Seq<Seq<char>>,
    right: Seq<Seq<char>>,
    comps: Seq<usize>,
)
    requires
        comps_covered(rule, left, right, comps),
    ensures
        comps_set(comps_within(rule, left, comps)).union(
            comps_set(comps_within(rule, right, comps)),
        ).union(comps_in(rule, comps_across(rule, left, right, comps), left + right))
            == comps_set(comps),
{
    let across = comps_across(rule, left, right, comps);
    let made = comps_set(comps_within(rule, left, comps)).union(
        comps_set(comps_within(rule, right, comps)),
    ).union(comps_in(rule, across, left + right));
    assert forall|c: int| #[trigger] made.contains(c) <==> comps_set(comps).contains(c) by {
        if 0 <= c <= usize::MAX {
            lemma_comps_within(rule, left, comps, c as usize);
            lemma_comps_within(rule, right, comps, c as usize);
            lemma_comps_across(rule, left, right, comps, c as usize);
            if comps.contains(c as usize) {
                let k = comps.index_of(c as usize);
                assert(comps[k] == c as usize);
                assert(subset(comp_vars(rule, comps[k]), left + right));
            }
        }
    }
    assert(made =~= comps_set(comps));
}

proof fn lemma_across(
    rule: FLRuleModel,
    left: Seq<Seq<char>>,
    right: Seq<Seq<char>>,
    open: Seq<bool>,
    upto: nat,
    atom: AtomSignature,
)
    requires
        upto <= usize::MAX,
    ensures
        across_ids(rule, left, right, open, upto).contains(atom) <==> !atom.is_positive
            && atom.rhs_id < upto && is_across(rule, left, right, open, atom.rhs_id as int),
    decreases upto,
{
    if upto > 0 {
        let i = (upto - 1) as nat;
        let all = across_ids(rule, left, right, open, upto);
        let front = across_ids(rule, left, right, open, i);
        lemma_across(rule, left, right, open, i, atom);
        if all.contains(atom) {
            let k = all.index_of(atom);
            assert(all[k] == atom);
            if k < front.len() {
                assert(front[k] == atom);
                assert(front.contains(atom));
            }
        }
        if !atom.is_positive && atom.rhs_id < upto && is_across(
            rule,
            left,
            right,
            open,
            atom.rhs_id as int,
        ) {
            if atom.rhs_id < i {
                assert(front.contains(atom));
                assert(all[front.index_of(atom)] == atom);
            } else {
                assert(all[front.len() as int] == atom);
            }
        }
    }
}

/// The parts that the sides of a tree and their join take care of make up the part
/// of the tree.
proof fn lemma_parts_meet(
    rule: FLRuleModel,
    rest: JoinTree,
    last: JoinTree,
    keys: Seq<Seq<char>>,
    values: Seq<Seq<char>>,
    open_negated: Seq<bool>,
    open_subs: Seq<bool>,
    comps: Seq<usize>,
    left: PlannedModel,
    right: PlannedModel,
    planned: PlannedModel,
)
    requires
        are_positions_small(rule),
        open_negated.len() == atoms_of(rule, false).len(),
        planned.open_negated == left.open_negated,
        planned.open_subs == left.open_subs,
        ({
            let split = split_of(rule, rest, last, keys, values, open_negated, comps);
            &&& comps_covered(rule, split.rest_vars, split.last_vars, comps)
            &&& shrinks(split.open, right.open_negated)
            &&& shrinks(open_subs, right.open_subs)
            &&& shrinks(right.open_negated, left.open_negated)
            &&& shrinks(right.open_subs, left.open_subs)
        }),
    ensures
        ({
            let split = split_of(rule, rest, last, keys, values, open_negated, comps);
            let left_part = tree_part(
                rest,
                right.open_negated,
                right.open_subs,
                left,
                split.rest_comps,
            );
            let right_part = tree_part(last, split.open, open_subs, right, split.last_comps);
            let within = comps_in(rule, split.across, split.rest_vars + split.last_vars);
            &&& with_all_failing(both_parts(left_part, right_part, within), split.negated)
                == tree_part(
                JoinTree::Join(Box::new(rest), Box::new(last)),
                open_negated,
                open_subs,
                planned,
                comps,
            )
            &&& both_parts(left_part, right_part, within).comps == comps_set(comps)
            &&& shrinks(open_negated, planned.open_negated)
            &&& shrinks(open_subs, planned.open_subs)
        }),
{
    let tree = JoinTree::Join(Box::new(rest), Box::new(last));
    let split = split_of(rule, rest, last, keys, values, open_negated, comps);
    let left_part = tree_part(rest, right.open_negated, right.open_subs, left, split.rest_comps);
    let right_part = tree_part(last, split.open, open_subs, right, split.last_comps);
    let within = comps_in(rule, split.across, split.rest_vars + split.last_vars);
    let made = with_all_failing(both_parts(left_part, right_part, within), split.negated);
    let whole = tree_part(tree, open_negated, open_subs, planned, comps);
    let n = atoms_of(rule, false).len();
    lemma_ids_in(rest, last);
    lemma_comps_split(rule, split.rest_vars, split.last_vars, comps);
    assert(shrinks(open_subs, planned.open_subs)) by {
        assert forall|i: int| 0 <= i < open_subs.len() && #[trigger] planned.open_subs[i] implies
        open_subs[i] by {
            assert(left.open_subs[i]);
            assert(right.open_subs[i]);
        }
    }
    assert(shrinks(open_negated, planned.open_negated)) by {
        assert forall|i: int|
            0 <= i < open_negated.len() && #[trigger] planned.open_negated[i] implies
        open_negated[i] by {
            assert(left.open_negated[i]);
            assert(right.open_negated[i]);
            assert(split.open[i]);
        }
    }
    assert forall|a: AtomSignature| #[trigger] made.holding.contains(a)
        <==> whole.holding.contains(a) by {
        let j = a.rhs_id as int;
        if 0 <= j < open_subs.len() {
            if left.open_subs[j] {
                assert(right.open_subs[j]);
            }
            if right.open_subs[j] {
                assert(open_subs[j]);
            }
        }
    }
    assert forall|a: AtomSignature| #[trigger] made.failing.contains(a)
        <==> whole.failing.contains(a) by {
        let j = a.rhs_id as int;
        lemma_across(rule, split.rest_vars, split.last_vars, open_negated, n, a);
        if 0 <= j < open_negated.len() {
            if left.open_negated[j] {
                assert(right.open_negated[j]);
            }
            if right.open_negated[j] {
                assert(split.open[j]);
            }
        }
    }
    assert(made.holding =~= whole.holding);
    assert(made.failing =~= whole.failing);
    assert(made =~= whole);
}

/// The variables of a tree are those of its sides.
proof fn lemma_tree_vars_parts(rule: FLRuleModel, rest: JoinTree, last: JoinTree)
    ensures
        tree_vars(rule, rest).subset_of(
            tree_vars(rule, JoinTree::Join(Box::new(rest), Box::new(last))),
        ),
        tree_vars(rule, last).subset_of(
            tree_vars(rule, JoinTree::Join(Box::new(rest), Box::new(last))),
        ),
{
    let tree = JoinTree::Join(Box::new(rest), Box::new(last));
    lemma_ids_in(rest, last);
    assert forall|var: Seq<char>| #[trigger]
        tree_vars(rule, rest).contains(var) implies tree_vars(rule, tree).contains(var) by {
        let atom = choose|atom: AtomSignature|
            atoms_in(rest).contains(atom) && #[trigger] has_var(rule, atom, var);
        assert(atoms_in(tree).contains(atom));
    }
    assert forall|var: Seq<char>| #[trigger]
        tree_vars(rule, last).contains(var) implies tree_vars(rule, tree).contains(var) by {
        let atom = choose|atom: AtomSignature|
            atoms_in(last).contains(atom) && #[trigger] has_var(rule, atom, var);
        assert(atoms_in(tree).contains(atom));
    }
}

/// What both sides and their join take care of has no variables but those of the
/// tree.
proof fn lemma_parts_within(
    rule: FLRuleModel,
    rest: JoinTree,
    last: JoinTree,
    left_part: Part,
    right_part: Part,
    negated: Seq<AtomSignature>,
    open_negated: Seq<bool>,
    across: Seq<usize>,
)
    requires
        are_positions_small(rule),
        is_over(rule, rest),
        is_over(rule, last),
        is_within(rule, left_part, tree_vars(rule, rest)),
        is_within(rule, right_part, tree_vars(rule, last)),
        negated == across_ids(
            rule,
            distinct(vars_of(rule, true, rest.preorder())),
            distinct(vars_of(rule, true, last.preorder())),
            open_negated,
            atoms_of(rule, false).len(),
        ),
    ensures
        is_within(
            rule,
            with_all_failing(
                both_parts(
                    left_part,
                    right_part,
                    comps_in(
                        rule,
                        across,
                        distinct(vars_of(rule, true, rest.preorder())) + distinct(
                            vars_of(rule, true, last.preorder()),
                        ),
                    ),
                ),
                negated,
            ),
            tree_vars(rule, JoinTree::Join(Box::new(rest), Box::new(last))),
        ),
{
    let rest_vars = distinct(vars_of(rule, true, rest.preorder()));
    let last_vars = distinct(vars_of(rule, true, last.preorder()));
    let both = rest_vars + last_vars;
    let all = tree_vars(rule, JoinTree::Join(Box::new(rest), Box::new(last)));
    let within = comps_in(rule, across, both);
    let part = with_all_failing(both_parts(left_part, right_part, within), negated);
    lemma_tree_vars_parts(rule, rest, last);
    assert forall|var: Seq<char>| #[trigger] both.contains(var) implies all.contains(var) by {
        let i = both.index_of(var);
        assert(both[i] == var);
        lemma_tree_vars(rule, rest, var);
        lemma_tree_vars(rule, last, var);
        if i < rest_vars.len() {
            assert(rest_vars[i] == var);
            assert(rest_vars.contains(var));
            assert(tree_vars(rule, rest).contains(var));
        } else {
            assert(last_vars[i - rest_vars.len()] == var);
            assert(last_vars.contains(var));
            assert(tree_vars(rule, last).contains(var));
        }
    }
    assert forall|a: AtomSignature, var: Seq<char>|
        (part.holding.contains(a) || part.failing.contains(a)) && #[trigger] has_var(
            rule,
            a,
            var,
        ) implies all.contains(var) by {
        if left_part.holding.contains(a) || left_part.failing.contains(a) {
            assert(tree_vars(rule, rest).contains(var));
        } else if right_part.holding.contains(a) || right_part.failing.contains(a) {
            assert(tree_vars(rule, last).contains(var));
        } else {
            assert(negated.contains(a));
            lemma_across(
                rule,
                rest_vars,
                last_vars,
                open_negated,
                atoms_of(rule, false).len(),
                a,
            );
            lemma_atom_vars(rule, a, var);
            assert(atom_strs(rule, false, a.rhs_id as int).contains(var));
            assert(both.contains(var));
        }
    }
    assert forall|c: int, var: Seq<char>|
        part.comps.contains(c) && #[trigger] comparisons(rule.rhs)[c].vars().contains(
            var,
        ) implies all.contains(var) by {
        if left_part.comps.contains(c) {
            assert(tree_vars(rule, rest).contains(var));
        } else if right_part.comps.contains(c) {
            assert(tree_vars(rule, last).contains(var));
        } else {
            assert(within.contains(c));
            assert(comp_vars(rule, c as usize).contains(var));
            assert(both.contains(var));
        }
    }
}

/// What joins the sides of a tree: the keys are the variables of both sides.
proof fn lemma_join_keys(
    rule: FLRuleModel,
    rest: JoinTree,
    last: JoinTree,
    wanted: Seq<Seq<char>>,
)
    requires
        are_positions_small(rule),
        is_over(rule, rest),
        is_over(rule, last),
    ensures
        ({
            let rest_vars = distinct(vars_of(rule, true, rest.preorder()));
            let last_vars = distinct(vars_of(rule, true, last.preorder()));
            let keys = common(last_vars, rest_vars);
            &&& are_among(keys, tree_vars(rule, rest))
            &&& are_among(keys, tree_vars(rule, last))
            &&& are_among(side_values(rest_vars, last_vars, wanted), tree_vars(rule, rest))
            &&& are_among(side_values(last_vars, rest_vars, wanted), tree_vars(rule, last))
            &&& forall|var: Seq<char>| #[trigger]
                tree_vars(rule, rest).contains(var) && tree_vars(rule, last).contains(var)
                    ==> keys.contains(var)
        }),
{
    let rest_vars = distinct(vars_of(rule, true, rest.preorder()));
    let last_vars = distinct(vars_of(rule, true, last.preorder()));
    let keys = common(last_vars, rest_vars);
    assert forall|i: int| 0 <= i < keys.len() implies tree_vars(rule, rest).contains(
        #[trigger] keys[i],
    ) && tree_vars(rule, last).contains(keys[i]) by {
        assert(keys.contains(keys[i]));
        lemma_common(last_vars, rest_vars, keys[i]);
        lemma_tree_vars(rule, rest, keys[i]);
        lemma_tree_vars(rule, last, keys[i]);
    }
    assert forall|var: Seq<char>| #[trigger] rest_vars.contains(var) implies tree_vars(
        rule,
        rest,
    ).contains(var) by {
        lemma_tree_vars(rule, rest, var);
    }
    assert forall|var: Seq<char>| #[trigger] last_vars.contains(var) implies tree_vars(
        rule,
        last,
    ).contains(var) by {
        lemma_tree_vars(rule, last, var);
    }
    lemma_side_values(rest_vars, last_vars, wanted, tree_vars(rule, rest));
    lemma_side_values(last_vars, rest_vars, wanted, tree_vars(rule, last));
    assert forall|var: Seq<char>| #[trigger]
        tree_vars(rule, rest).contains(var) && tree_vars(rule, last).contains(
            var,
        ) implies keys.contains(var) by {
        lemma_tree_vars(rule, rest, var);
        lemma_tree_vars(rule, last, var);
        lemma_common(last_vars, rest_vars, var);
    }
}

/// The atoms of the two sides of a tree without repetitions differ.
proof fn lemma_sides_differ(rest: JoinTree, last: JoinTree)
    requires
        JoinTree::Join(Box::new(rest), Box::new(last)).preorder().no_duplicates(),
    ensures
        rest.preorder().no_duplicates(),
        last.preorder().no_duplicates(),
        ids_in(rest).disjoint(ids_in(last)),
{
    let all = JoinTree::Join(Box::new(rest), Box::new(last)).preorder();
    let a = rest.preorder();
    let b = last.preorder();
    assert(all == a + b);
    assert forall|i: int, j: int| 0 <= i < a.len() && 0 <= j < a.len() && i != j implies a[i]
        != a[j] by {
        assert(all[i] == a[i] && all[j] == a[j]);
    }
    assert forall|i: int, j: int| 0 <= i < b.len() && 0 <= j < b.len() && i != j implies b[i]
        != b[j] by {
        assert(all[a.len() + i] == b[i] && all[a.len() + j] == b[j]);
    }
    assert forall|id: usize| #[trigger] ids_in(rest).contains(id) implies !ids_in(last).contains(
        id,
    ) by {
        if ids_in(last).contains(id) {
            let i = a.index_of(id);
            let j = b.index_of(id);
            assert(all[i] == id && all[a.len() + j] == id);
        }
    }
}

/// A tree that has the steps of a join of two sides has the steps of both sides.
proof fn lemma_join_has_sides(
    rule: FLRuleModel,
    tree: Map<TransformationModel, (TransformationModel, TransformationModel)>,
    left: StepsModel,
    right: StepsModel,
    atoms: Seq<AtomSignature>,
    negated: Seq<AtomSignature>,
    sides: Seq<Seq<char>>,
    keys: Seq<Seq<char>>,
    values: Seq<Seq<char>>,
    compares: Option<Seq<PlacedComparisonModel<AtomArgumentSignature>>>,
    comps: Seq<usize>,
    left_ids: Set<usize>,
    right_ids: Set<usize>,
    steps: StepsModel,
)
    requires
        join_steps(
            rule,
            left,
            right,
            atoms,
            negated,
            sides,
            keys,
            values,
            compares,
            comps,
        ) == Some(steps),
        has_steps(tree, steps.tree),
        can_run(tree),
        is_shaped(left, left_ids),
        is_shaped(right, right_ids),
        left_ids.disjoint(right_ids),
    ensures
        has_steps(tree, left.tree),
        has_steps(tree, right.tree),
{
    let ids = left_ids.union(right_ids);
    let join = join_of(rule, left, right, atoms, negated, sides, keys, values, compares->0)->0;
    let top = antijoins(rule, atoms, join, negated, keys, values, comps)->0;
    assert(is_of(left.last.output, ids));
    assert(is_of(right.last.output, ids));
    lemma_joined_columns(
        left.last.output,
        right.last.output,
        trace(rule, joined_keys(rule, negated, keys), atoms)->0,
        trace(rule, joined_values(rule, negated, sides, keys, values), atoms)->0,
        compares->0,
        ids,
    );
    lemma_antijoins_shape(rule, atoms, join, negated, keys, values, comps, ids);
    lemma_has_sides(tree, left, right, top, join, left_ids, right_ids);
}

/// Whether the steps for a tree give the values for which the part of the body that
/// they take care of holds.
spec fn tree_gives(
    db: Database,
    rule: FLRuleModel,
    steps_tree: Map<TransformationModel, (TransformationModel, TransformationModel)>,
    tree: JoinTree,
    keys: Seq<Seq<char>>,
    values: Seq<Seq<char>>,
    open_negated: Seq<bool>,
    open_subs: Seq<bool>,
    comps: Seq<usize>,
    planned: PlannedModel,
) -> bool {
    let part = tree_part(tree, open_negated, open_subs, planned, comps);
    &&& gives(db, rule, steps_tree, planned.steps.last, keys + values, part)
    &&& is_within(rule, part, tree_vars(rule, tree))
    &&& shrinks(open_negated, planned.open_negated)
    &&& shrinks(open_subs, planned.open_subs)
}

/// The steps for a tree, from what the steps for its sides give.
proof fn lemma_sides_give(
    db: Database,
    rule: FLRuleModel,
    steps_tree: Map<TransformationModel, (TransformationModel, TransformationModel)>,
    rest: JoinTree,
    last: JoinTree,
    full: Seq<usize>,
    keys: Seq<Seq<char>>,
    values: Seq<Seq<char>>,
    open_negated: Seq<bool>,
    open_subs: Seq<bool>,
    comps: Seq<usize>,
    left: PlannedModel,
    right: PlannedModel,
    planned: PlannedModel,
)
    requires
        are_positions_small(rule),
        is_over(rule, rest),
        is_over(rule, last),
        open_negated.len() == atoms_of(rule, false).len(),
        open_subs.len() == atoms_of(rule, true).len(),
        ids_in(rest).disjoint(ids_in(last)),
        has_steps(steps_tree, planned.steps.tree),
        can_run(steps_tree),
        is_shaped(left.steps, ids_in(rest)),
        is_shaped(right.steps, ids_in(last)),
        ({
            let split = split_of(rule, rest, last, keys, values, open_negated, comps);
            &&& comps_covered(rule, split.rest_vars, split.last_vars, comps)
            &&& split_steps(rule, full, split, left, right, keys, values, comps) == Some(
                planned.steps,
            )
            &&& planned.open_negated == left.open_negated
            &&& planned.open_subs == left.open_subs
            &&& puts_out(rule, left.steps.last, split.join_keys, split.rest_values)
            &&& puts_out(rule, right.steps.last, split.join_keys, split.last_values)
            &&& tree_gives(
                db,
                rule,
                steps_tree,
                rest,
                split.join_keys,
                split.rest_values,
                right.open_negated,
                right.open_subs,
                split.rest_comps,
                left,
            )
            &&& tree_gives(
                db,
                rule,
                steps_tree,
                last,
                split.join_keys,
                split.last_values,
                split.open,
                open_subs,
                split.last_comps,
                right,
            )
        }),
    ensures
        tree_gives(
            db,
            rule,
            steps_tree,
            JoinTree::Join(Box::new(rest), Box::new(last)),
            keys,
            values,
            open_negated,
            open_subs,
            comps,
            planned,
        ),
{
    let split = split_of(rule, rest, last, keys, values, open_negated, comps);
    let left_part = tree_part(rest, right.open_negated, right.open_subs, left, split.rest_comps);
    let right_part = tree_part(last, split.open, open_subs, right, split.last_comps);
    let wanted = keys + values + crate::catalog::query::comps_vars(rule, split.across) + vars_of(
        rule,
        false,
        crate::catalog::open::ids_of(split.negated),
    );
    lemma_join_keys(rule, rest, last, wanted);
    lemma_across_atoms(
        rule,
        split.rest_vars,
        split.last_vars,
        open_negated,
        atoms_of(rule, false).len(),
    );
    lemma_parts_meet(
        rule,
        rest,
        last,
        keys,
        values,
        open_negated,
        open_subs,
        comps,
        left,
        right,
        planned,
    );
    assert(all_positive(atoms_at(full)));
    lemma_join_steps_give(
        db,
        rule,
        steps_tree,
        left.steps,
        right.steps,
        atoms_at(full),
        split.negated,
        split.join_keys + split.rest_values + split.last_values,
        keys,
        values,
        split.across,
        split.rest_vars + split.last_vars,
        comps,
        split.join_keys,
        split.rest_values,
        split.last_values,
        left_part,
        right_part,
        tree_vars(rule, rest),
        tree_vars(rule, last),
        ids_in(rest),
        ids_in(last),
        planned.steps,
    );
    lemma_parts_within(
        rule,
        rest,
        last,
        left_part,
        right_part,
        split.negated,
        open_negated,
        split.across,
    );
}

/// The steps for a tree give the values for which the part of the body that they
/// take care of holds.
proof fn lemma_tree_gives(
    db: Database,
    rule: FLRuleModel,
    steps_tree: Map<TransformationModel, (TransformationModel, TransformationModel)>,
    tree: JoinTree,
    full: Seq<usize>,
    keys: Seq<Seq<char>>,
    values: Seq<Seq<char>>,
    open_negated: Seq<bool>,
    open_subs: Seq<bool>,
    comps: Seq<usize>,
    planned: PlannedModel,
)
    requires
        are_positions_small(rule),
        is_over(rule, tree),
        tree.preorder().no_duplicates(),
        open_negated.len() == atoms_of(rule, false).len(),
        open_subs.len() == atoms_of(rule, true).len(),
        tree_steps(
            rule,
            tree,
            full,
            keys,
            values,
            open_negated,
            open_subs,
            comps,
        ) == Some(planned),
        has_steps(steps_tree, planned.steps.tree),
        can_run(steps_tree),
    ensures
        tree_gives(
            db,
            rule,
            steps_tree,
            tree,
            keys,
            values,
            open_negated,
            open_subs,
            comps,
            planned,
        ),
    decreases tree,
{
    match tree {
        JoinTree::Atom(id) => {
            assert(tree.preorder()[0] == id);
            lemma_atom_gives(
                db,
                rule,
                steps_tree,
                id,
                full,
                keys,
                values,
                open_negated,
                open_subs,
                comps,
                planned,
            );
        },
        JoinTree::Join(rest, last) => {
            let split = split_of(rule, *rest, *last, keys, values, open_negated, comps);
            lemma_is_over_parts(rule, *rest, *last);
            lemma_sides_differ(*rest, *last);
            lemma_split(
                rule,
                *rest,
                *last,
                full,
                keys,
                values,
                open_negated,
                open_subs,
                comps,
            );
            let right = last_planned(rule, *last, split, open_subs)->0;
            let left = rest_planned(rule, *rest, full, split, right)->0;
            lemma_tree_steps_shape(
                rule,
                *last,
                last.preorder(),
                split.join_keys,
                split.last_values,
                split.open,
                open_subs,
                split.last_comps,
            );
            lemma_tree_steps_shape(
                rule,
                *rest,
                full,
                split.join_keys,
                split.rest_values,
                right.open_negated,
                right.open_subs,
                split.rest_comps,
            );
            lemma_join_has_sides(
                rule,
                steps_tree,
                left.steps,
                right.steps,
                atoms_at(full),
                split.negated,
                split.join_keys + split.rest_values + split.last_values,
                keys,
                values,
                assembled(rule, split.across, atoms_at(full), split.rest_vars + split.last_vars),
                comps,
                ids_in(*rest),
                ids_in(*last),
                planned.steps,
            );
            lemma_tree_gives(
                db,
                rule,
                steps_tree,
                *last,
                last.preorder(),
                split.join_keys,
                split.last_values,
                split.open,
                open_subs,
                split.last_comps,
                right,
            );
            lemma_tree_gives(
                db,
                rule,
                steps_tree,
                *rest,
                full,
                split.join_keys,
                split.rest_values,
                right.open_negated,
                right.open_subs,
                split.rest_comps,
                left,
            );
            lemma_tree_steps(
                rule,
                *last,
                last.preorder(),
                split.join_keys,
                split.last_values,
                split.open,
                open_subs,
                split.last_comps,
            );
            lemma_tree_steps(
                rule,
                *rest,
                full,
                split.join_keys,
                split.rest_values,
                right.open_negated,
                right.open_subs,
                split.rest_comps,
            );
            lemma_sides_give(
                db,
                rule,
                steps_tree,
                *rest,
                *last,
                full,
                keys,
                values,
                open_negated,
                open_subs,
                comps,
                left,
                right,
                planned,
            );
        },
    }
}

/// The steps of the plan of a rule put out the values of the variables of the head,
/// for all values under which the atoms and the comparisons of the body hold and the
/// negated atoms do not, and no others. This is said of plans whose joins read rows
/// with columns.
pub proof fn law_plan_binds_the_head(
    db: Database,
    rule: FLRuleModel,
    shape: JoinTree,
    row: Seq<i64>,
)
    requires
        are_positions_small(rule),
        comparisons(rule.rhs).len() <= usize::MAX,
        joins_core(rule, shape),
        rule_steps(rule, shape) is Some,
        can_run(rule_steps(rule, shape)->0.tree),
    ensures
        makes(db, rule_steps(rule, shape)->0.tree, rule_steps(rule, shape)->0.last, row)
            <==> is_binding(db, rule, row),
{
    let steps = rule_steps(rule, shape)->0;
    let vars = head_vars(rule.head.head_arguments);
    let open_negated = Seq::new(atoms_of(rule, false).len(), |i: int| true);
    let open_subs = Seq::new(atoms_of(rule, true).len(), |i: int| !is_core(rule, i));
    let comps = Seq::new(comparisons(rule.rhs).len(), |i: int| i as usize);
    let planned = tree_steps(
        rule,
        shape,
        shape.preorder(),
        Seq::empty(),
        vars,
        open_negated,
        open_subs,
        comps,
    )->0;
    lemma_tree_gives(
        db,
        rule,
        steps.tree,
        shape,
        shape.preorder(),
        Seq::empty(),
        vars,
        open_negated,
        open_subs,
        comps,
        planned,
    );
    let part = tree_part(shape, open_negated, open_subs, planned, comps);
    assert(Seq::<Seq<char>>::empty() + vars =~= vars);
    assert forall|valuation: Valuation|
        part_holds(db, rule, part, valuation) <==> #[trigger] satisfies(db, rule, valuation) by {
        lemma_whole_body(db, rule, shape, open_negated, open_subs, planned, comps, valuation);
    }
    if is_image(db, rule, vars, part, row) {
        let valuation = choose|valuation: Valuation|
            part_holds(db, rule, part, valuation) && row == #[trigger] vals(valuation, vars);
        assert(satisfies(db, rule, valuation));
    }
    if is_binding(db, rule, row) {
        let valuation = choose|valuation: Valuation|
            satisfies(db, rule, valuation) && row == #[trigger] vals(valuation, vars);
        assert(part_holds(db, rule, part, valuation));
    }
    assert(makes(db, steps.tree, steps.last, row) <==> is_image(db, rule, vars, part, row));
}

/// Whether the joins of a plan read rows with columns.
pub open spec fn reads_columns(
    tree: Map<TransformationModel, (TransformationModel, TransformationModel)>,
) -> bool {
    forall|step: TransformationModel| #[trigger]
        tree.contains_key(step) ==> step.input.keys.len() + step.input.values.len() > 0
}

/// The columns of the steps of a plan can be counted.
proof fn lemma_steps_countable(steps: Steps, step: TransformationModel)
    requires
        steps.deep_view().tree.contains_key(step),
        step.is_binary(),
        step.second is Some,
    ensures
        is_countable(step),
{
    let entries = steps.tree.entries.deep_view();
    lemma_entries_key(entries, step);
    let i = choose|i: int| 0 <= i < entries.len() && (#[trigger] entries[i]).0 == step;
    let made = steps.tree.entries@[i].0;
    assert(made.deep_view() == step);
    match made {
        Transformation::RowToRow { .. } | Transformation::RowToK { .. }
        | Transformation::RowToKv { .. } | Transformation::KvToKv { .. }
        | Transformation::KvToK { .. } => {},
        Transformation::JnKK { input, .. } | Transformation::JnKKv { input, .. }
        | Transformation::JnKvK { input, .. } | Transformation::JnKvKv { input, .. }
        | Transformation::Cartesian { input, .. } | Transformation::NjKvK { input, .. }
        | Transformation::NjKK { input, .. } => {
            lemma_collection_countable(input.0);
            lemma_collection_countable(input.1);
        },
    }
}

proof fn lemma_collection_countable(collection: Collection)
    ensures
        collection.deep_view().keys.len() <= usize::MAX,
        collection.deep_view().values.len() <= usize::MAX,
{
    assert(collection.key_argument_signatures.len() <= usize::MAX);
    assert(collection.value_argument_signatures.len() <= usize::MAX);
}

/// Whether a row is what a head stands for on values that a step of a plan puts out.
pub open spec fn is_derived_row(
    db: Database,
    steps: StepsModel,
    head: HeadModel,
    row: Seq<i64>,
) -> bool {
    exists|values: Seq<i64>| #[trigger]
        makes(db, steps.tree, steps.last, values) && head_row_of(head, values) == Some(row)
}

/// The steps of the plan of a rule derive what the rule says: the rows that its head
/// stands for, on what the last step puts out, are the answers of the rule. This is
/// said of plans whose joins read rows with columns.
pub proof fn law_plan_derives_the_rule(
    db: Database,
    rule: FLRuleModel,
    shape: JoinTree,
    row: Seq<i64>,
)
    requires
        are_positions_small(rule),
        comparisons(rule.rhs).len() <= usize::MAX,
        joins_core(rule, shape),
        rule_steps(rule, shape) is Some,
        can_run(rule_steps(rule, shape)->0.tree),
    ensures
        is_derived_row(db, rule_steps(rule, shape)->0, rule.head, row) <==> is_answer(
            db,
            rule,
            row,
        ),
{
    let steps = rule_steps(rule, shape)->0;
    law_answers_are_head_rows(db, rule, row);
    if is_answer(db, rule, row) {
        let values = choose|values: Seq<i64>| #[trigger]
            is_binding(db, rule, values) && head_row_of(rule.head, values) == Some(row);
        law_plan_binds_the_head(db, rule, shape, values);
        assert(makes(db, steps.tree, steps.last, values));
    }
    if is_derived_row(db, steps, rule.head, row) {
        let values = choose|values: Seq<i64>| #[trigger]
            makes(db, steps.tree, steps.last, values) && head_row_of(rule.head, values) == Some(
                row,
            );
        law_plan_binds_the_head(db, rule, shape, values);
        assert(is_binding(db, rule, values));
    }
}

/// The plan that is made of a rule derives what the rule says: the rows that the head
/// stands for, on what its last step puts out, are the answers of the rule, and there
/// are no others. This is said of plans whose joins read rows with columns.
pub proof fn law_rule_plan_derives_the_rule(
    db: Database,
    catalog: Catalog,
    is_optimized: bool,
    plan: RuleQueryPlan,
    row: Seq<i64>,
)
    requires
        catalog.wf(),
        core_ids(catalog.rule.deep_view()).len() > 0,
        plan.describes(catalog.rule.deep_view(), is_optimized),
        reads_columns(plan.steps.deep_view().tree),
    ensures
        is_derived_row(db, plan.steps.deep_view(), catalog.rule.deep_view().head, row)
            <==> is_answer(db, catalog.rule.deep_view(), row),
{
    let rule = catalog.rule.deep_view();
    let tree = plan.steps.deep_view().tree;
    catalog.lemma_positions_small();
    lemma_few_comparisons(catalog.rule.rhs.deep_view());
    assert(catalog.rule.rhs.len() <= usize::MAX);
    law_join_tree_covers(rule, is_optimized, plan.plan);
    law_plan_is_linked(rule, plan.plan.shape);
    assert(can_run(tree)) by {
        assert forall|step: TransformationModel| #[trigger]
            tree.contains_key(step) implies step.is_binary() && is_countable(step)
            && step.input.keys.len() + step.input.values.len() > 0 by {
            assert(is_link(rule, tree, Set::empty(), step));
            lemma_steps_countable(plan.steps, step);
        }
    }
    law_plan_derives_the_rule(db, rule, plan.plan.shape, row);
}

proof fn lemma_few_comparisons(rhs: Seq<PredicateModel>)
    ensures
        comparisons(rhs).len() <= rhs.len(),
    decreases rhs.len(),
{
    if rhs.len() > 0 {
        lemma_few_comparisons(rhs.drop_last());
    }
}

/// The part of a body that is all of it.
proof fn lemma_whole_body(
    db: Database,
    rule: FLRuleModel,
    shape: JoinTree,
    open_negated: Seq<bool>,
    open_subs: Seq<bool>,
    planned: PlannedModel,
    comps: Seq<usize>,
    valuation: Valuation,
)
    requires
        are_positions_small(rule),
        comparisons(rule.rhs).len() <= usize::MAX,
        joins_core(rule, shape),
        open_negated == Seq::new(atoms_of(rule, false).len(), |i: int| true),
        open_subs == Seq::new(atoms_of(rule, true).len(), |i: int| !is_core(rule, i)),
        comps == Seq::new(comparisons(rule.rhs).len(), |i: int| i as usize),
        shrinks(open_negated, planned.open_negated),
        shrinks(open_subs, planned.open_subs),
        none_open(planned.open_negated),
        none_open(planned.open_subs),
    ensures
        part_holds(
            db,
            rule,
            tree_part(shape, open_negated, open_subs, planned, comps),
            valuation,
        ) <==> satisfies(db, rule, valuation),
{
    let part = tree_part(shape, open_negated, open_subs, planned, comps);
    if part_holds(db, rule, part, valuation) {
        assert forall|i: int| 0 <= i < atoms_of(rule, true).len() implies atom_holds(
            db,
            #[trigger] atoms_of(rule, true)[i],
            valuation,
        ) by {
            let atom = AtomSignature { is_positive: true, rhs_id: i as usize };
            if is_core(rule, i) {
                assert(shape.preorder().contains(i as usize));
                assert(ids_in(shape).contains(i as usize));
            } else {
                assert(open_subs[i]);
                assert(!planned.open_subs[i]);
            }
            assert(part.holding.contains(atom));
            assert(atom_at(rule, atom) == atoms_of(rule, true)[i]);
        }
        assert forall|i: int| 0 <= i < atoms_of(rule, false).len() implies !atom_holds(
            db,
            #[trigger] atoms_of(rule, false)[i],
            valuation,
        ) by {
            let atom = AtomSignature { is_positive: false, rhs_id: i as usize };
            assert(open_negated[i]);
            assert(!planned.open_negated[i]);
            assert(part.failing.contains(atom));
            assert(atom_at(rule, atom) == atoms_of(rule, false)[i]);
        }
        assert forall|i: int| 0 <= i < comparisons(rule.rhs).len() implies comparison_holds(
            valuation,
            #[trigger] comparisons(rule.rhs)[i],
        ) by {
            assert(comps[i] == i as usize);
            assert(part.comps.contains(i));
        }
    }
    if satisfies(db, rule, valuation) {
        assert forall|atom: AtomSignature| #[trigger]
            part.holding.contains(atom) implies atom_holds(
            db,
            atom_at(rule, atom),
            valuation,
        ) by {
            if atoms_in(shape).contains(atom) {
                let k = shape.preorder().index_of(atom.rhs_id);
                assert(shape.preorder()[k] == atom.rhs_id);
            }
            assert(atom_at(rule, atom) == atoms_of(rule, true)[atom.rhs_id as int]);
        }
        assert forall|atom: AtomSignature| #[trigger]
            part.failing.contains(atom) implies !atom_holds(
            db,
            atom_at(rule, atom),
            valuation,
        ) by {
            assert(atom_at(rule, atom) == atoms_of(rule, false)[atom.rhs_id as int]);
        }
        assert forall|c: int| #[trigger] part.comps.contains(c) implies comparison_holds(
            valuation,
            comparisons(rule.rhs)[c],
        ) by {
            let k = comps.index_of(c as usize);
            assert(comps[k] == k as usize);
        }
    }
}

} // verus!
