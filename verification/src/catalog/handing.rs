//! What the rules that a rule is rewritten into build on.
use vstd::prelude::*;
use crate::catalog::body::{are_positions_small, atoms_of, comparisons, positive_atoms};
use crate::catalog::cores::{core_ids, lemma_core_below};
use crate::catalog::open::{lemma_sub_atoms, lemma_sub_negated, lemma_take_open, take_open};
use crate::catalog::query::{sub_atom_ids, sub_negated_ids};
use crate::catalog::rule::{atom_strs, is_core};
use crate::catalog::sideways::{
    backward_suffix, final_rule, forward_suffix, lemma_marked_from, lemma_met, marked_items,
    met_comparisons, negated_predicates, neighbours, positive_predicates, reduce, reduce_one,
    reduced_both, reduced_forward, sideways_rules, unreduced, SidewaysModel,
};
use crate::parsing::arithmetic::distinct;
use crate::parsing::compare::ComparisonExprModel;
use crate::parsing::rule::{AtomModel, FLRuleModel, PredicateModel};
use crate::planning::linking::lemma_mentions;
use crate::strata::dependencies::mentions;

verus! {

/// Whether a rule mentions a relation, or one of the first made rules adds to it.
pub open spec fn comes_from(
    rule: FLRuleModel,
    made: Seq<FLRuleModel>,
    upto: int,
    name: Seq<char>,
) -> bool {
    mentions(rule, name) || exists|j: int|
        0 <= j < upto && (#[trigger] made[j]).head.name == name
}

/// Whether each made rule builds on what the rule mentions and on what rules made
/// before it add.
pub open spec fn builds_up(rule: FLRuleModel, made: Seq<FLRuleModel>) -> bool {
    forall|j: int, name: Seq<char>|
        0 <= j < made.len() && #[trigger] mentions(made[j], name) ==> comes_from(
            rule,
            made,
            j,
            name,
        )
}

/// Whether the atoms of a rewriting, and the rules made in it, build on what is there.
spec fn is_handed(rule: FLRuleModel, state: SidewaysModel) -> bool {
    &&& state.atoms.len() == atoms_of(rule, true).len()
    &&& forall|i: int|
        0 <= i < state.atoms.len() ==> comes_from(
            rule,
            state.rules,
            state.rules.len() as int,
            (#[trigger] state.atoms[i]).name,
        )
    &&& builds_up(rule, state.rules)
}

/// Whether the atoms among some predicates build on what is there.
spec fn is_within(rule: FLRuleModel, made: Seq<FLRuleModel>, rhs: Seq<PredicateModel>) -> bool {
    forall|k: int|
        0 <= k < rhs.len() && (#[trigger] rhs[k]).atom() is Some ==> comes_from(
            rule,
            made,
            made.len() as int,
            rhs[k].atom()->0.name,
        )
}

proof fn lemma_within_add(
    rule: FLRuleModel,
    made: Seq<FLRuleModel>,
    a: Seq<PredicateModel>,
    b: Seq<PredicateModel>,
)
    requires
        is_within(rule, made, a),
        is_within(rule, made, b),
    ensures
        is_within(rule, made, a + b),
{
    let all = a + b;
    assert forall|k: int| 0 <= k < all.len() && (#[trigger] all[k]).atom() is Some implies comes_from(
        rule,
        made,
        made.len() as int,
        all[k].atom()->0.name,
    ) by {
        if k < a.len() {
            assert(all[k] == a[k]);
        } else {
            assert(all[k] == b[k - a.len()]);
        }
    }
}

proof fn lemma_neighbours_within(
    rule: FLRuleModel,
    state: SidewaysModel,
    ids: Seq<usize>,
    vars: Seq<Seq<char>>,
)
    requires
        is_handed(rule, state),
        forall|k: int| 0 <= k < ids.len() ==> (#[trigger] ids[k]) < state.atoms.len(),
    ensures
        is_within(rule, state.rules, neighbours(rule, state.atoms, ids, vars)),
    decreases ids.len(),
{
    if ids.len() > 0 {
        let front = ids.drop_last();
        assert forall|k: int| 0 <= k < front.len() implies (#[trigger] front[k])
            < state.atoms.len() by {
            assert(front[k] == ids[k]);
        }
        lemma_neighbours_within(rule, state, front, vars);
        assert(ids[ids.len() - 1] < state.atoms.len());
        let id = ids.last() as int;
        let before = neighbours(rule, state.atoms, front, vars);
        let all = neighbours(rule, state.atoms, ids, vars);
        assert forall|k: int| 0 <= k < all.len() && (#[trigger] all[k]).atom() is Some implies
            comes_from(
            rule,
            state.rules,
            state.rules.len() as int,
            all[k].atom()->0.name,
        ) by {
            if k < before.len() {
                assert(all[k] == before[k]);
            } else {
                assert(all[k].atom()->0.name == state.atoms[id].name);
            }
        }
    }
}

/// The body of the rule that reduces an atom builds on what is there.
proof fn lemma_body_within(
    rule: FLRuleModel,
    state: SidewaysModel,
    order: Seq<usize>,
    i: int,
)
    requires
        are_positions_small(rule),
        is_handed(rule, state),
        state.open_subs.len() == atoms_of(rule, true).len(),
        state.open_negated.len() == atoms_of(rule, false).len(),
        0 <= i < order.len(),
        forall|k: int| 0 <= k < order.len() ==> (#[trigger] order[k]) < atoms_of(rule, true).len(),
    ensures
        ({
            let id = order[i] as int;
            let strs = atom_strs(rule, true, id);
            let vars = distinct(strs);
            let subs = take_open(
                sub_atom_ids(rule, strs, atoms_of(rule, true).len()),
                state.open_subs,
            );
            let negated = take_open(
                sub_negated_ids(rule, strs, atoms_of(rule, false).len()),
                state.open_negated,
            );
            is_within(
                rule,
                state.rules,
                seq![PredicateModel::AtomPredicate(state.atoms[id])] + positive_predicates(
                    state.atoms,
                    subs.0,
                ) + negated_predicates(atoms_of(rule, false), negated.0) + met_comparisons(
                    rule,
                    vars,
                    comparisons(rule.rhs).len(),
                ) + neighbours(rule, state.atoms, order.take(i), vars),
            )
        }),
{
    let made = state.rules;
    let id = order[i] as int;
    let strs = atom_strs(rule, true, id);
    let vars = distinct(strs);
    let n = atoms_of(rule, true).len();
    let m = atoms_of(rule, false).len();
    let sub_ids = sub_atom_ids(rule, strs, n);
    let negated_ids = sub_negated_ids(rule, strs, m);
    lemma_sub_atoms(rule, strs, n);
    lemma_sub_negated(rule, strs, m);
    lemma_take_open(sub_ids, state.open_subs);
    lemma_take_open(negated_ids, state.open_negated);
    let subs = take_open(sub_ids, state.open_subs).0;
    let negated = take_open(negated_ids, state.open_negated).0;
    let a = seq![PredicateModel::AtomPredicate(state.atoms[id])];
    let b = positive_predicates(state.atoms, subs);
    let c = negated_predicates(atoms_of(rule, false), negated);
    let d = met_comparisons(rule, vars, comparisons(rule.rhs).len());
    let e = neighbours(rule, state.atoms, order.take(i), vars);
    assert(is_within(rule, made, a));
    assert(is_within(rule, made, b)) by {
        assert forall|k: int| 0 <= k < b.len() && (#[trigger] b[k]).atom() is Some implies
            comes_from(rule, made, made.len() as int, b[k].atom()->0.name) by {
            assert(sub_ids.contains(subs[k]));
            assert(b[k].atom()->0 == state.atoms[subs[k].rhs_id as int]);
        }
    }
    assert(is_within(rule, made, c)) by {
        assert forall|k: int| 0 <= k < c.len() && (#[trigger] c[k]).atom() is Some implies
            comes_from(rule, made, made.len() as int, c[k].atom()->0.name) by {
            assert(negated_ids.contains(negated[k]));
            lemma_mentions(rule, false, negated[k].rhs_id as int);
        }
    }
    lemma_met(rule, vars, comparisons(rule.rhs).len());
    assert(is_within(rule, made, d));
    assert forall|k: int| 0 <= k < order.take(i).len() implies (#[trigger] order.take(i)[k])
        < state.atoms.len() by {
        assert(order.take(i)[k] == order[k]);
    }
    lemma_neighbours_within(rule, state, order.take(i), vars);
    lemma_within_add(rule, made, a, b);
    lemma_within_add(rule, made, a + b, c);
    lemma_within_add(rule, made, a + b + c, d);
    lemma_within_add(rule, made, a + b + c + d, e);
}

/// One more made rule, which builds on what is there.
proof fn lemma_one_more(rule: FLRuleModel, made: Seq<FLRuleModel>, new: FLRuleModel)
    requires
        builds_up(rule, made),
        is_within(rule, made, new.rhs),
    ensures
        builds_up(rule, made.push(new)),
{
    let all = made.push(new);
    assert forall|j: int, name: Seq<char>|
        0 <= j < all.len() && #[trigger] mentions(all[j], name) implies comes_from(
        rule,
        all,
        j,
        name,
    ) by {
        if j < made.len() {
            assert(all[j] == made[j]);
            assert(comes_from(rule, made, j, name));
            if !mentions(rule, name) {
                let m = choose|m: int| 0 <= m < j && (#[trigger] made[m]).head.name == name;
                assert(all[m].head.name == name);
            }
        } else {
            let k = choose|k: int|
                0 <= k < new.rhs.len() && (#[trigger] new.rhs[k]).atom() is Some
                    && new.rhs[k].atom()->0.name == name;
            assert(comes_from(rule, made, made.len() as int, name));
            if !mentions(rule, name) {
                let m = choose|m: int|
                    0 <= m < made.len() && (#[trigger] made[m]).head.name == name;
                assert(all[m].head.name == name);
            }
        }
    }
}

proof fn lemma_handed_one(
    rule: FLRuleModel,
    suffix: Seq<char>,
    order: Seq<usize>,
    i: int,
    state: SidewaysModel,
)
    requires
        are_positions_small(rule),
        is_handed(rule, state),
        state.open_subs.len() == atoms_of(rule, true).len(),
        state.open_negated.len() == atoms_of(rule, false).len(),
        0 <= i < order.len(),
        forall|k: int| 0 <= k < order.len() ==> (#[trigger] order[k]) < atoms_of(rule, true).len(),
    ensures
        is_handed(rule, reduce_one(rule, suffix, order, i, state)),
        reduce_one(rule, suffix, order, i, state).open_subs.len() == atoms_of(rule, true).len(),
        reduce_one(rule, suffix, order, i, state).open_negated.len() == atoms_of(
            rule,
            false,
        ).len(),
{
    let id = order[i] as int;
    let strs = atom_strs(rule, true, id);
    lemma_sub_atoms(rule, strs, atoms_of(rule, true).len());
    lemma_sub_negated(rule, strs, atoms_of(rule, false).len());
    lemma_take_open(sub_atom_ids(rule, strs, atoms_of(rule, true).len()), state.open_subs);
    lemma_take_open(
        sub_negated_ids(rule, strs, atoms_of(rule, false).len()),
        state.open_negated,
    );
    lemma_body_within(rule, state, order, i);
    let after = reduce_one(rule, suffix, order, i, state);
    if after.rules.len() > state.rules.len() {
        let new = after.rules.last();
        assert(after.rules == state.rules.push(new));
        lemma_one_more(rule, state.rules, new);
        assert forall|k: int| 0 <= k < after.atoms.len() implies comes_from(
            rule,
            after.rules,
            after.rules.len() as int,
            (#[trigger] after.atoms[k]).name,
        ) by {
            if k == id {
                assert(after.rules[state.rules.len() as int].head.name == after.atoms[k].name);
            } else {
                let name = state.atoms[k].name;
                assert(after.atoms[k] == state.atoms[k]);
                assert(comes_from(rule, state.rules, state.rules.len() as int, name));
                if !mentions(rule, name) {
                    let m = choose|m: int|
                        0 <= m < state.rules.len() && (
                        #[trigger] state.rules[m]).head.name == name;
                    assert(after.rules[m].head.name == name);
                }
            }
        }
    }
}

proof fn lemma_handed(
    rule: FLRuleModel,
    suffix: Seq<char>,
    order: Seq<usize>,
    upto: nat,
    state: SidewaysModel,
)
    requires
        are_positions_small(rule),
        is_handed(rule, state),
        state.open_subs.len() == atoms_of(rule, true).len(),
        state.open_negated.len() == atoms_of(rule, false).len(),
        upto <= order.len(),
        forall|k: int| 0 <= k < order.len() ==> (#[trigger] order[k]) < atoms_of(rule, true).len(),
    ensures
        is_handed(rule, reduce(rule, suffix, order, upto, state)),
        reduce(rule, suffix, order, upto, state).open_subs.len() == atoms_of(rule, true).len(),
        reduce(rule, suffix, order, upto, state).open_negated.len() == atoms_of(rule, false).len(),
    decreases upto,
{
    if upto > 0 {
        lemma_handed(rule, suffix, order, (upto - 1) as nat, state);
        let before = reduce(rule, suffix, order, (upto - 1) as nat, state);
        lemma_handed_one(rule, suffix, order, upto - 1, before);
    }
}

/// The rules that a rule is rewritten into build on what the rule mentions and on
/// what those before them add; the last one adds to the relation of the rule.
pub proof fn law_rewritten_rules_build_up(rule: FLRuleModel, rule_loc: usize)
    requires
        are_positions_small(rule),
    ensures
        builds_up(rule, sideways_rules(rule, rule_loc)),
        sideways_rules(rule, rule_loc).len() > 0,
        sideways_rules(rule, rule_loc).last().head == rule.head,
{
    let start = unreduced(rule);
    let order = core_ids(rule);
    let back = order.reverse();
    let forward = reduced_forward(rule, rule_loc);
    let state = reduced_both(rule, rule_loc);
    lemma_core_below(rule, positive_atoms(rule.rhs).len());
    assert forall|k: int| 0 <= k < order.len() implies (#[trigger] order[k]) < atoms_of(
        rule,
        true,
    ).len() by {
        assert(order.contains(order[k]));
    }
    assert forall|k: int| 0 <= k < back.len() implies (#[trigger] back[k]) < atoms_of(
        rule,
        true,
    ).len() by {
        assert(back[k] == order[order.len() - 1 - k]);
    }
    assert(is_handed(rule, start)) by {
        assert forall|i: int| 0 <= i < start.atoms.len() implies comes_from(
            rule,
            start.rules,
            start.rules.len() as int,
            (#[trigger] start.atoms[i]).name,
        ) by {
            lemma_mentions(rule, true, i);
        }
    }
    lemma_handed(rule, forward_suffix(rule_loc), order, order.len(), start);
    lemma_handed(rule, backward_suffix(rule_loc), back, back.len(), forward);
    lemma_final_within(rule, state);
    lemma_one_more(rule, state.rules, final_rule(rule, state));
    assert(sideways_rules(rule, rule_loc).last() == final_rule(rule, state));
}

proof fn lemma_final_within(rule: FLRuleModel, state: SidewaysModel)
    requires
        is_handed(rule, state),
    ensures
        is_within(rule, state.rules, final_rule(rule, state).rhs),
{
    let made = state.rules;
    let rhs = final_rule(rule, state).rhs;
    let marks = Seq::new(
        atoms_of(rule, true).len(),
        |i: int| is_core(rule, i),
    );
    let left = marked_items(state.atoms, marks);
    let open = marked_items(atoms_of(rule, false), state.open_negated);
    lemma_marked_from(state.atoms, marks);
    lemma_marked_from(atoms_of(rule, false), state.open_negated);
    let a = left.map_values(|a: AtomModel| PredicateModel::AtomPredicate(a));
    let b = open.map_values(|a: AtomModel| PredicateModel::NegatedAtomPredicate(a));
    let c = comparisons(rule.rhs).map_values(
        |c: ComparisonExprModel| PredicateModel::ComparePredicate(c),
    );
    assert(is_within(rule, made, a)) by {
        assert forall|k: int| 0 <= k < a.len() && (#[trigger] a[k]).atom() is Some implies
            comes_from(rule, made, made.len() as int, a[k].atom()->0.name) by {
            assert(state.atoms.contains(left[k]));
            let i = choose|i: int| 0 <= i < state.atoms.len() && state.atoms[i] == left[k];
            assert(a[k].atom()->0 == state.atoms[i]);
        }
    }
    assert(is_within(rule, made, b)) by {
        assert forall|k: int| 0 <= k < b.len() && (#[trigger] b[k]).atom() is Some implies
            comes_from(rule, made, made.len() as int, b[k].atom()->0.name) by {
            let negated = atoms_of(rule, false);
            assert(negated.contains(open[k]));
            let i = choose|i: int| 0 <= i < negated.len() && negated[i] == open[k];
            lemma_mentions(rule, false, i);
        }
    }
    assert(is_within(rule, made, c));
    lemma_within_add(rule, made, a, b);
    lemma_within_add(rule, made, a + b, c);
    assert(rhs =~= a + b + c);
}

} // verus!
