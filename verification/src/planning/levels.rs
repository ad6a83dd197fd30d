//! What the levels of optimisation, the groups of rules and the sizes of plans are.
use vstd::prelude::*;
use vstd::string::*;
use crate::catalog::atoms::AtomArgumentSignature;
use crate::catalog::compare::PlacedComparisonModel;
use crate::optimizing::join_tree::common;
use crate::parsing::rule::{ConstModel, FLRuleModel};
use crate::planning::collections::{
    collection_text, inside_bars, without_flows, CollectionModel, CollectionSignatureModel,
};
use crate::planning::flow::TransformationFlowModel;
use crate::planning::program::{
    all_groups, all_steps, arities, arity_of, at_level, expand_rule, expand_stratum, groups_of,
    has_sip, input_arities, program_text, rules_at, step_arities,
};
use crate::planning::steps::without;
use crate::planning::strata::{
    flat, group_text, head_arities, rule_blocks, step_lines, GroupPlanModel,
};
use crate::planning::transformations::{kv_step, TransformationModel};
use crate::strata::stratification::Strata;
use crate::text::{join_text, nat_text, texts, Written};

verus! {

/// A level of optimisation decides of a rule only whether it is planned and whether it
/// passes values sideways: its first bit stands for passing sideways and its second bit
/// for planning. Without a level the rule decides, and any higher level turns both off.
pub proof fn law_levels(rule: FLRuleModel, level: u8)
    ensures
        at_level(rule, None) == rule,
        at_level(rule, Some(level)).head == rule.head,
        at_level(rule, Some(level)).rhs == rule.rhs,
        level < 4 ==> (at_level(rule, Some(level)).is_sip <==> level % 2 == 1),
        level < 4 ==> (at_level(rule, Some(level)).is_planning <==> level / 2 == 1),
        level >= 4 ==> !at_level(rule, Some(level)).is_sip && !at_level(
            rule,
            Some(level),
        ).is_planning,
{
}

/// A rule that passes no values sideways stands for itself. The rules of a stratum are
/// expanded one after the other, each at its place in the stratum, and planned as the
/// rule that they come from is.
pub proof fn law_strata_are_expanded_in_order(rules: Seq<FLRuleModel>, rule: FLRuleModel, i: int)
    requires
        rules.len() < usize::MAX,
    ensures
        !rule.is_sip ==> expand_rule(rule, rules.len() as usize) == seq![(rule, rule.is_planning)],
        0 <= i < expand_rule(rule, rules.len() as usize).len() ==> expand_rule(
            rule,
            rules.len() as usize,
        )[i].1 == rule.is_planning,
        expand_stratum(Seq::empty()) == Seq::<(FLRuleModel, bool)>::empty(),
        expand_stratum(rules.push(rule)) == expand_stratum(rules) + expand_rule(
            rule,
            rules.len() as usize,
        ),
{
    assert(rules.push(rule).drop_last() =~= rules);
    if !rule.is_sip {
        assert(expand_rule(rule, rules.len() as usize) =~= seq![(rule, rule.is_planning)]);
    }
}

/// The groups of a stratum hold its expanded rules, all of them and in their order. A
/// group is recursive exactly if the stratum is, and a recursive stratum is one group.
pub proof fn law_groups_hold_the_rules_of_their_stratum(
    rules: Seq<FLRuleModel>,
    is_recursive: bool,
    i: int,
)
    requires
        0 <= i < groups_of(rules, is_recursive).len(),
    ensures
        groups_of(rules, is_recursive)[i].0 == is_recursive,
        is_recursive || !has_sip(rules) ==> groups_of(rules, is_recursive).len() == 1,
        flat(
            Seq::new(
                groups_of(rules, is_recursive).len(),
                |k: int| groups_of(rules, is_recursive)[k].1,
            ),
        ) == expand_stratum(rules),
{
    let groups = groups_of(rules, is_recursive);
    let lists = Seq::new(groups.len(), |k: int| groups[k].1);
    let expanded = expand_stratum(rules);
    if !is_recursive && has_sip(rules) {
        lemma_flat_ones(expanded, lists);
    } else {
        assert(lists.drop_last() =~= Seq::empty());
        assert(flat(lists.drop_last()) =~= Seq::empty());
        assert(lists.last() == expanded);
        assert(flat(lists) =~= expanded);
    }
}

proof fn lemma_flat_ones<A>(items: Seq<A>, lists: Seq<Seq<A>>)
    requires
        lists.len() == items.len(),
        forall|i: int| 0 <= i < items.len() ==> #[trigger] lists[i] == seq![items[i]],
    ensures
        flat(lists) == items,
    decreases items.len(),
{
    if items.len() == 0 {
        assert(flat(lists) =~= items);
    } else {
        lemma_flat_ones(items.drop_last(), lists.drop_last());
        assert(lists[items.len() - 1] == seq![items.last()]);
        assert(flat(lists) =~= items);
    }
}

/// Lists are put together in their order.
pub proof fn law_lists_are_put_together<A>(a: Seq<Seq<A>>, b: Seq<Seq<A>>)
    ensures
        a.len() == 0 ==> flat(a) == Seq::<A>::empty(),
        a.len() == 1 ==> flat(a) == a[0],
        flat(a + b) == flat(a) + flat(b),
    decreases b.len(),
{
    if a.len() == 1 {
        assert(flat(a.drop_last()) =~= Seq::empty());
        assert(flat(a) =~= a[0]);
    }
    if b.len() == 0 {
        assert(a + b =~= a);
        assert(flat(a) + flat(b) =~= flat(a));
    } else {
        law_lists_are_put_together(a, b.drop_last());
        assert((a + b).drop_last() =~= a + b.drop_last());
        assert(flat(a + b) =~= flat(a) + flat(b));
    }
}

/// The steps of a program are those of its groups, one group after the other.
pub proof fn law_steps_of_groups(groups: Seq<GroupPlanModel>, group: GroupPlanModel)
    ensures
        all_steps(Seq::empty()) == Seq::<TransformationModel>::empty(),
        all_steps(groups.push(group)) == all_steps(groups) + flat(group.strata_plan),
{
    assert(groups.push(group).drop_last() =~= groups);
}

/// The sizes of steps are those of their outputs and inputs: each of them is listed, and
/// no others.
pub proof fn law_sizes_are_those_of_collections(
    steps: Seq<TransformationModel>,
    pair: (usize, usize),
)
    ensures
        arities(steps).contains(pair) <==> exists|i: int|
            0 <= i < steps.len() && (pair == arity_of((#[trigger] steps[i]).output) || pair
                == arity_of(steps[i].input) || (!steps[i].is_unary() && pair == arity_of(
                steps[i].second->0,
            ))),
    decreases steps.len(),
{
    let all = arities(steps);
    if steps.len() > 0 {
        let front = steps.drop_last();
        let last = steps.last();
        let n = steps.len() - 1;
        law_sizes_are_those_of_collections(front, pair);
        assert(steps[n] == last);
        assert(forall|i: int| 0 <= i < front.len() ==> front[i] == steps[i]);
        let before = arities(front);
        let here = seq![arity_of(last.output)] + input_arities(last);
        assert(all =~= before + here);
        if all.contains(pair) {
            let k = choose|k: int| 0 <= k < all.len() && all[k] == pair;
            if k < before.len() {
                assert(before[k] == pair);
                assert(before.contains(pair));
                let i = choose|i: int|
                    0 <= i < front.len() && (pair == arity_of((#[trigger] front[i]).output)
                        || pair == arity_of(front[i].input) || (!front[i].is_unary() && pair
                        == arity_of(front[i].second->0)));
                assert(steps[i] == front[i]);
            } else {
                assert(here[k - before.len()] == pair);
            }
        }
        if exists|i: int|
            0 <= i < steps.len() && (pair == arity_of((#[trigger] steps[i]).output) || pair
                == arity_of(steps[i].input) || (!steps[i].is_unary() && pair == arity_of(
                steps[i].second->0,
            ))) {
            let i = choose|i: int|
                0 <= i < steps.len() && (pair == arity_of((#[trigger] steps[i]).output) || pair
                    == arity_of(steps[i].input) || (!steps[i].is_unary() && pair == arity_of(
                    steps[i].second->0,
                )));
            if i < n {
                assert(front[i] == steps[i]);
                assert(before.contains(pair));
                let k = choose|k: int| 0 <= k < before.len() && before[k] == pair;
                assert(all[k] == pair);
            } else {
                assert(here[0] == arity_of(last.output));
                assert(here[1] == arity_of(last.input));
                if !last.is_unary() {
                    assert(here[2] == arity_of(last.second->0));
                }
                assert(all[before.len() as int] == here[0]);
                assert(all[(before.len() + 1) as int] == here[1]);
                if !last.is_unary() {
                    assert(all[(before.len() + 2) as int] == here[2]);
                }
                assert(all.contains(pair));
            }
        }
    }
}

/// The size of a collection is the number of its keys and of its values.
pub proof fn law_sizes_count_keys_and_values(step: TransformationModel)
    requires
        step.output.keys.len() <= usize::MAX,
        step.output.values.len() <= usize::MAX,
    ensures
        arity_of(step.output).0 == step.output.keys.len(),
        arity_of(step.output).1 == step.output.values.len(),
{
}

/// Each relation that rules define has the number of columns of the last rule for it,
/// and no other relation has one.
pub proof fn law_last_rule_gives_the_columns(rules: Seq<FLRuleModel>, name: Seq<char>)
    ensures
        head_arities(rules).contains_key(name) <==> exists|i: int|
            0 <= i < rules.len() && (#[trigger] rules[i]).head.name == name,
        head_arities(rules).contains_key(name) ==> exists|i: int|
            0 <= i < rules.len() && (#[trigger] rules[i]).head.name == name && head_arities(
                rules,
            )[name] == rules[i].head.head_arguments.len() as usize && forall|j: int|
                i < j < rules.len() ==> (#[trigger] rules[j]).head.name != name,
    decreases rules.len(),
{
    if rules.len() > 0 {
        let front = rules.drop_last();
        let n = rules.len() - 1;
        law_last_rule_gives_the_columns(front, name);
        assert(rules[n] == rules.last());
        assert(forall|i: int| 0 <= i < front.len() ==> front[i] == rules[i]);
        if rules.last().head.name != name && head_arities(front).contains_key(name) {
            let i = choose|i: int|
                0 <= i < front.len() && (#[trigger] front[i]).head.name == name && head_arities(
                    front,
                )[name] == front[i].head.head_arguments.len() as usize && forall|j: int|
                    i < j < front.len() ==> (#[trigger] front[j]).head.name != name;
            assert(rules[i].head.name == name);
            assert forall|j: int| i < j < rules.len() implies (#[trigger] rules[j]).head.name
                != name by {
                if j < n {
                    assert(front[j] == rules[j]);
                }
            }
        }
        if rules.last().head.name != name && !head_arities(front).contains_key(name) {
            assert forall|i: int| 0 <= i < rules.len() implies (#[trigger] rules[i]).head.name
                != name by {
                if i < n {
                    assert(front[i].head.name != name);
                }
            }
        }
    }
}

/// What stands between bars is left out of a name, and everything else stays.
pub proof fn law_names_without_flows(name: Seq<char>, flow: Seq<char>, rest: Seq<char>)
    requires
        !name.contains('|'),
        !flow.contains('|'),
    ensures
        without_flows(name) == name,
        without_flows(name.push('|') + flow.push('|') + rest) == name + without_flows(rest),
{
    lemma_no_bars(name);
    let open = name.push('|');
    assert(open.drop_last() =~= name);
    assert(inside_bars(open));
    assert(without_flows(open) == name);
    lemma_inside(open, flow);
    let closed = open + flow.push('|');
    assert(closed.drop_last() =~= open + flow);
    assert(!inside_bars(closed));
    assert(without_flows(closed) == name);
    lemma_outside(closed, rest);
}

proof fn lemma_no_bars(s: Seq<char>)
    requires
        !s.contains('|'),
    ensures
        without_flows(s) == s,
        !inside_bars(s),
    decreases s.len(),
{
    if s.len() == 0 {
        assert(without_flows(s) =~= s);
    } else {
        let front = s.drop_last();
        assert(s.contains(s.last()));
        assert forall|i: int| 0 <= i < front.len() implies front[i] != '|' by {
            assert(s.contains(s[i]));
        }
        lemma_no_bars(front);
        assert(front.push(s.last()) =~= s);
    }
}

proof fn lemma_inside(open: Seq<char>, flow: Seq<char>)
    requires
        inside_bars(open),
        !flow.contains('|'),
    ensures
        inside_bars(open + flow),
        without_flows(open + flow) == without_flows(open),
    decreases flow.len(),
{
    if flow.len() == 0 {
        assert(open + flow =~= open);
    } else {
        let front = flow.drop_last();
        assert(flow.contains(flow.last()));
        assert forall|i: int| 0 <= i < front.len() implies front[i] != '|' by {
            assert(flow.contains(flow[i]));
        }
        lemma_inside(open, front);
        assert((open + flow).drop_last() =~= open + front);
    }
}

proof fn lemma_outside(closed: Seq<char>, rest: Seq<char>)
    requires
        !inside_bars(closed),
    ensures
        inside_bars(closed + rest) == inside_bars(rest),
        without_flows(closed + rest) == without_flows(closed) + without_flows(rest),
    decreases rest.len(),
{
    if rest.len() == 0 {
        assert(closed + rest =~= closed);
        assert(without_flows(closed) + without_flows(rest) =~= without_flows(closed));
    } else {
        lemma_outside(closed, rest.drop_last());
        assert((closed + rest).drop_last() =~= closed + rest.drop_last());
        assert(without_flows(closed + rest) =~= without_flows(closed) + without_flows(rest));
    }
}

/// A step is listed under the name of its output, without what flows through it, with the
/// sizes of its inputs and of its output.
pub proof fn law_steps_are_listed_by_output(step: TransformationModel)
    ensures
        step_arities(step).0 == without_flows(step.output.signature.name()),
        step_arities(step).1[0] == arity_of(step.input),
        step_arities(step).1.len() == if step.is_unary() {
            1nat
        } else {
            2nat
        },
        !step.is_unary() ==> step_arities(step).1[1] == arity_of(step.second->0),
        step_arities(step).2 == arity_of(step.output),
{
}

/// What is left of a list without another one stands in the first and not in the second,
/// in the order of the first.
pub proof fn law_items_that_are_left(a: Seq<Seq<char>>, b: Seq<Seq<char>>, item: Seq<char>)
    ensures
        without(Seq::empty(), b) == Seq::<Seq<char>>::empty(),
        without(a.push(item), b) == if b.contains(item) {
            without(a, b)
        } else {
            without(a, b).push(item)
        },
        without(a, b).len() + common(a, b).len() == a.len(),
    decreases a.len(),
{
    assert(a.push(item).drop_last() =~= a);
    if a.len() > 0 {
        law_items_that_are_left(a.drop_last(), b, item);
    }
}

/// The text of a program numbers its groups from zero and shows them in their order.
pub proof fn law_groups_are_shown_in_order(
    groups: Seq<GroupPlanModel>,
    group: GroupPlanModel,
    scopes: Seq<Seq<CollectionSignatureModel>>,
)
    requires
        groups.len() < scopes.len(),
    ensures
        program_text(Seq::empty(), scopes) == Seq::<char>::empty(),
        program_text(groups.push(group), scopes) == program_text(groups, scopes) + "#"@ + nat_text(
            groups.len(),
        ) + "\n"@ + group_text(group, scopes[groups.len() as int]) + "\n"@ + "\n"@,
{
    assert(groups.push(group).drop_last() =~= groups);
}

/// The text of a group shows each rule above its steps; the last step of a rule closes
/// the branch that the others leave open.
pub proof fn law_rules_are_shown_above_their_steps(
    rules: Seq<FLRuleModel>,
    rows: Seq<Seq<TransformationModel>>,
    i: int,
    k: int,
)
    requires
        0 <= i < rows.len(),
        0 <= k < rows[i].len(),
    ensures
        rule_blocks(rules, rows).len() == rows.len(),
        rule_blocks(rules, rows)[i] == rules[i].text() + "\n"@ + join_text(
            step_lines(rows[i]),
            "\n"@,
        ),
        step_lines(rows[i]).len() == rows[i].len(),
        step_lines(rows[i])[k] == (if k + 1 < rows[i].len() {
            "  ├── "@
        } else {
            "  └── "@
        }) + rows[i][k].text(),
{
}

/// A collection is shown with its keys before its values, and without a colon where it
/// has no keys.
pub proof fn law_collections_are_shown(collection: CollectionModel, key: AtomArgumentSignature)
    requires
        collection.keys.len() == 0,
    ensures
        collection_text(collection) == collection.signature.name() + "("@ + join_text(
            texts(collection.values),
            ", "@,
        ) + ")"@,
        collection_text(CollectionModel { keys: seq![key], ..collection })
            == collection.signature.name() + "("@ + key.text() + ": "@ + join_text(
            texts(collection.values),
            ", "@,
        ) + ")"@,
{
    assert(texts(seq![key])[0] == key.text());
    assert(texts(seq![key]).len() == 1);
}

/// A step that only hands its rows on is known as such: it reads rows and puts out rows or
/// keys alone, asks for nothing and keeps all columns in their order.
pub proof fn law_steps_that_do_nothing(
    input: CollectionModel,
    output_keys: Seq<AtomArgumentSignature>,
    output_values: Seq<AtomArgumentSignature>,
    consts: Seq<(AtomArgumentSignature, ConstModel)>,
    aliases: Seq<(AtomArgumentSignature, AtomArgumentSignature)>,
    compares: Seq<PlacedComparisonModel<AtomArgumentSignature>>,
)
    ensures
        kv_step(input, output_keys, output_values, consts, aliases, compares) matches Some(step)
            ==> {
            &&& step.input == input
            &&& step.second is None
            &&& step.output.keys == output_keys
            &&& step.output.values == output_values
            &&& step.is_no_op <==> (step.kind is RowToRow || step.kind is RowToK) && (consts.len()
                + aliases.len() + compares.len() == 0) && input.values == output_keys
                + output_values
            &&& step.kind is RowToRow <==> input.keys.len() == 0 && output_keys.len() == 0
            &&& step.kind is RowToK <==> input.keys.len() == 0 && output_values.len() == 0
        },
        output_keys.len() + output_values.len() == 0 ==> kv_step(
            input,
            output_keys,
            output_values,
            consts,
            aliases,
            compares,
        ) is None,
{
    if input.keys.len() == 0 {
        assert(input.keys + input.values =~= input.values);
    }
}

proof fn lemma_mark(step: TransformationModel)
    ensures
        step.text().len() > 1,
        step.text()[1] == if step.kind is Cartesian {
            '\u{2a2f}'
        } else if step.kind is NjKvK || step.kind is NjKK {
            'a'
        } else if step.is_binary() {
            'j'
        } else if step.is_no_op && (step.kind is RowToRow || step.kind is RowToK) {
            'n'
        } else if step.kind is RowToRow {
            'r'
        } else {
            'k'
        },
{
    reveal_strlit("[nop] ");
    reveal_strlit("[row] ");
    reveal_strlit("[kv] ");
    reveal_strlit("[jn] ");
    reveal_strlit("[aj] ");
    reveal_strlit("[\u{2a2f}] ");
    assert("[nop] "@[1] == 'n' && "[nop] "@.len() == 6);
    assert("[row] "@[1] == 'r' && "[row] "@.len() == 6);
    assert("[kv] "@[1] == 'k' && "[kv] "@.len() == 5);
    assert("[jn] "@[1] == 'j' && "[jn] "@.len() == 5);
    assert("[aj] "@[1] == 'a' && "[aj] "@.len() == 5);
    assert("[\u{2a2f}] "@[1] == '\u{2a2f}' && "[\u{2a2f}] "@.len() == 4);
}

/// The mark before a step tells joins, joins of everything with everything, joins with
/// what is not there and other steps apart.
pub proof fn law_marks_tell_steps_apart(a: TransformationModel, b: TransformationModel)
    requires
        a.text() == b.text(),
        a.output == b.output,
    ensures
        a.kind is Cartesian <==> b.kind is Cartesian,
        (a.kind is NjKvK || a.kind is NjKK) <==> (b.kind is NjKvK || b.kind is NjKK),
        a.is_unary() || a.kind is KvToKv || a.kind is KvToK <==> b.is_unary() || b.kind is KvToKv
            || b.kind is KvToK,
        a.kind is RowToRow && b.kind is RowToRow ==> a.is_no_op == b.is_no_op,
{
    lemma_mark(a);
    lemma_mark(b);
    assert(a.text()[1] == b.text()[1]);
}

/// The groups of a program are those of its strata, one stratum after the other.
pub proof fn law_groups_of_strata(
    strata: Seq<Seq<FLRuleModel>>,
    rules: Seq<FLRuleModel>,
    is_recursive: Seq<bool>,
)
    requires
        strata.len() < is_recursive.len(),
    ensures
        all_groups(Seq::empty(), is_recursive) == Seq::<(bool, Seq<(FLRuleModel, bool)>)>::empty(),
        all_groups(strata.push(rules), is_recursive) == all_groups(strata, is_recursive)
            + groups_of(rules, is_recursive[strata.len() as int]),
{
    assert(strata.push(rules).drop_last() =~= strata);
}

/// The rules of a stratum are the rules of the program that it lists, at the level that is
/// asked for.
pub proof fn law_rules_of_strata(strata: Strata, opt_level: Option<u8>, k: int, i: int)
    requires
        0 <= k < strata.strata@.len(),
        0 <= i < strata.strata@[k]@.len(),
    ensures
        rules_at(strata, opt_level).len() == strata.strata@.len(),
        rules_at(strata, opt_level)[k].len() == strata.strata@[k]@.len(),
        rules_at(strata, opt_level)[k][i] == at_level(
            strata.fl_program.deep_view().rules[strata.strata@[k]@[i] as int],
            opt_level,
        ),
{
}

/// A flow lets every row through exactly if it compares nothing and asks for no constant
/// and no repetition.
pub proof fn law_flows_without_conditions(flow: TransformationFlowModel)
    ensures
        flow.is_constrainted() <==> flow.compares().len() > 0 || (
        flow matches TransformationFlowModel::KVToKV { constraints, .. } && (
        constraints.constant_eq_constraints.len() > 0
            || constraints.variable_eq_constraints.len() > 0)),
{
}

} // verus!
