//! What the facts and rules of a translated program come from.
use vstd::prelude::*;
use crate::compiler::asking::{output_rule, relation_for, with_output, with_outputs};
use crate::compiler::complete::law_blocks_are_known;
use crate::compiler::string_table::{number_of, place_in, table_with};
use crate::compiler::translate::{
    block_with, facts_under, rule_of, schema_of, translated, tuple_of, untranslated, value_number,
    value_table, with_block, TranslationModel,
};
use crate::hcl_types::{HclExprModel, HclOutputModel, HclResourceModel, HclValueModel};
use crate::lists::{group_take, unique_keys};
use crate::ordered::{entered, law_entered_value_is_found, value_of};
use crate::parsing::rule::FLRuleModel;
use crate::reference::{is_analysis, kind_of, resolved, BlockKind, DependencyAnalysisModel};

verus! {

/// Whether a table is the start of another one, which has each text once.
pub open spec fn grows_into(table: Seq<Seq<char>>, all: Seq<Seq<char>>) -> bool {
    table.is_prefix_of(all) && all.no_duplicates()
}

/// A text keeps its number as a table grows.
pub proof fn lemma_number_stays(table: Seq<Seq<char>>, all: Seq<Seq<char>>, s: Seq<char>)
    requires
        grows_into(table_with(table, s), all),
    ensures
        number_of(table, s) == number_of(all, s),
        all.contains(s),
        grows_into(table, all),
{
    let after = table_with(table, s);
    let i = if table.contains(s) {
        place_in(table, s)
    } else {
        table.len() as int
    };
    assert(0 <= i < after.len() && after[i] == s);
    assert(all[i] == after[i]);
    let k = place_in(all, s);
    assert(0 <= k < all.len() && all[k] == s);
    assert(k == i);
    assert(table.is_prefix_of(after));
    assert(table =~= all.subrange(0, table.len() as int)) by {
        assert forall|j: int| 0 <= j < table.len() implies table[j] == all[j] by {
            assert(after[j] == table[j]);
        }
    }
}

proof fn lemma_value_stays(
    value: HclValueModel,
    table: Seq<Seq<char>>,
    all: Seq<Seq<char>>,
)
    requires
        grows_into(value_table(value, table), all),
    ensures
        value_number(value, table) == value_number(value, all),
        is_known_text(value, all),
        grows_into(table, all),
{
    if let HclValueModel::String(s) = value {
        lemma_number_stays(table, all, s);
    }
}

/// Whether a tuple holds the numbers of the label and of the attributes of a block, all of
/// which are written down.
pub open spec fn is_tuple_of(
    block: HclResourceModel,
    names: Seq<Seq<char>>,
    all: Seq<Seq<char>>,
    tuple: Seq<i32>,
) -> bool {
    &&& tuple.len() == 1 + names.len()
    &&& tuple[0] == number_of(all, block.label)
    &&& forall|k: int|
        0 <= k < names.len() ==> (value_of(block.attributes, #[trigger] names[k]) matches Some(
            HclExprModel::Literal(value),
        ) && tuple[1 + k] == value_number(value, all) && is_known_text(value, all))
}

/// Whether a value that is a text is in a table.
pub open spec fn is_known_text(value: HclValueModel, all: Seq<Seq<char>>) -> bool {
    value matches HclValueModel::String(s) ==> all.contains(s)
}

proof fn lemma_tuple(
    block: HclResourceModel,
    names: Seq<Seq<char>>,
    table: Seq<Seq<char>>,
    all: Seq<Seq<char>>,
)
    requires
        tuple_of(block, names, table) is Ok,
        grows_into(tuple_of(block, names, table)->Ok_0.1, all),
    ensures
        is_tuple_of(block, names, all, tuple_of(block, names, table)->Ok_0.0),
        grows_into(table, all),
        all.contains(block.label),
    decreases names.len(),
{
    let (tuple, after) = tuple_of(block, names, table)->Ok_0;
    if names.len() == 0 {
        lemma_number_stays(table, all, block.label);
    } else {
        let front = names.drop_last();
        let (before, known) = tuple_of(block, front, table)->Ok_0;
        let value = value_of(block.attributes, names.last())->0->Literal_0;
        lemma_value_stays(value, known, all);
        lemma_tuple(block, front, table, all);
        assert forall|k: int| 0 <= k < names.len() implies (value_of(
            block.attributes,
            #[trigger] names[k],
        ) matches Some(HclExprModel::Literal(value)) && tuple[1 + k] == value_number(
            value,
            all,
        ) && is_known_text(value, all)) by {
            if k < front.len() {
                assert(names[k] == front[k]);
                assert(tuple[1 + k] == before[1 + k]);
            }
        }
    }
}

/// Whether a fact is that of a block with a type and a label.
pub open spec fn is_block_fact(
    blocks: Seq<HclResourceModel>,
    id: (Seq<char>, Seq<char>),
    all: Seq<Seq<char>>,
    name: Seq<char>,
    tuple: Seq<i32>,
) -> bool {
    block_with(blocks, id) matches Some(block) && kind_of(block) is Edb && block.block_type == name
        && is_tuple_of(block, value_of(schema_of(blocks), id.0)->0, all, tuple)
}

/// Whether a rule is that of a block with a type and a label.
pub open spec fn is_block_rule(
    blocks: Seq<HclResourceModel>,
    id: (Seq<char>, Seq<char>),
    rule: FLRuleModel,
) -> bool {
    block_with(blocks, id) matches Some(block) && kind_of(block) is Idb && rule_of(
        block,
        value_of(schema_of(blocks), id.0)->0,
        schema_of(blocks),
    ) == Ok::<FLRuleModel, Seq<char>>(rule)
}

/// Whether one of some blocks has a fact.
pub open spec fn has_fact_from(
    blocks: Seq<HclResourceModel>,
    ids: Seq<(Seq<char>, Seq<char>)>,
    all: Seq<Seq<char>>,
    name: Seq<char>,
    tuple: Seq<i32>,
) -> bool {
    exists|k: int| 0 <= k < ids.len() && is_block_fact(blocks, #[trigger] ids[k], all, name, tuple)
}

pub open spec fn has_rule_from(
    blocks: Seq<HclResourceModel>,
    ids: Seq<(Seq<char>, Seq<char>)>,
    rule: FLRuleModel,
) -> bool {
    exists|k: int| 0 <= k < ids.len() && is_block_rule(blocks, #[trigger] ids[k], rule)
}

/// Whether a block has its fact or its rule.
pub open spec fn is_stated(
    blocks: Seq<HclResourceModel>,
    id: (Seq<char>, Seq<char>),
    all: Seq<Seq<char>>,
    state: TranslationModel,
) -> bool {
    block_with(blocks, id) matches Some(block) && all.contains(block.label) && match kind_of(
        block,
    ) {
        BlockKind::Edb => exists|i: int|
            0 <= i < facts_under(state.facts, id.0).len() && is_block_fact(
                blocks,
                id,
                all,
                id.0,
                #[trigger] facts_under(state.facts, id.0)[i],
            ),
        BlockKind::Idb => exists|r: int|
            0 <= r < state.rules.len() && is_block_rule(blocks, id, #[trigger] state.rules[r]),
    }
}

/// Whether the facts and rules of a translation are those of some blocks.
pub open spec fn states_blocks(
    blocks: Seq<HclResourceModel>,
    ids: Seq<(Seq<char>, Seq<char>)>,
    all: Seq<Seq<char>>,
    state: TranslationModel,
) -> bool {
    &&& unique_keys(state.facts)
    &&& forall|name: Seq<char>, i: int|
        0 <= i < facts_under(state.facts, name).len() ==> has_fact_from(
            blocks,
            ids,
            all,
            name,
            #[trigger] facts_under(state.facts, name)[i],
        )
    &&& forall|r: int|
        0 <= r < state.rules.len() ==> has_rule_from(blocks, ids, #[trigger] state.rules[r])
    &&& forall|k: int| 0 <= k < ids.len() ==> is_stated(blocks, #[trigger] ids[k], all, state)
}

/// The facts under a name after one more was entered.
pub proof fn lemma_facts_entered(
    facts: Seq<(Seq<char>, Seq<Seq<i32>>)>,
    relation: Seq<char>,
    tuple: Seq<i32>,
    name: Seq<char>,
)
    requires
        unique_keys(facts),
    ensures
        ({
            let after = entered(facts, relation, facts_under(facts, relation).push(tuple));
            &&& unique_keys(after)
            &&& facts_under(after, name) == if name == relation {
                facts_under(facts, name).push(tuple)
            } else {
                facts_under(facts, name)
            }
        }),
{
    law_entered_value_is_found(facts, relation, facts_under(facts, relation).push(tuple), name);
}

proof fn lemma_still_stated(
    blocks: Seq<HclResourceModel>,
    id: (Seq<char>, Seq<char>),
    all: Seq<Seq<char>>,
    before: TranslationModel,
    after: TranslationModel,
)
    requires
        is_stated(blocks, id, all, before),
        before.rules.is_prefix_of(after.rules),
        facts_under(before.facts, id.0).is_prefix_of(facts_under(after.facts, id.0)),
    ensures
        is_stated(blocks, id, all, after),
{
    let block = block_with(blocks, id)->0;
    match kind_of(block) {
        BlockKind::Edb => {
            let i = choose|i: int|
                0 <= i < facts_under(before.facts, id.0).len() && is_block_fact(
                    blocks,
                    id,
                    all,
                    id.0,
                    #[trigger] facts_under(before.facts, id.0)[i],
                );
            assert(facts_under(after.facts, id.0)[i] == facts_under(before.facts, id.0)[i]);
        },
        BlockKind::Idb => {
            let r = choose|r: int|
                0 <= r < before.rules.len() && is_block_rule(
                    blocks,
                    id,
                    #[trigger] before.rules[r],
                );
            assert(after.rules[r] == before.rules[r]);
        },
    }
}

/// One more block: what it adds.
proof fn lemma_one_block(
    blocks: Seq<HclResourceModel>,
    analysis: DependencyAnalysisModel,
    n: int,
    before: TranslationModel,
    after: TranslationModel,
    all: Seq<Seq<char>>,
)
    requires
        is_analysis(blocks, analysis),
        0 <= n < analysis.topo_order.len(),
        with_block(before, blocks, analysis.block_kinds, analysis.topo_order[n]) == Ok::<
            TranslationModel,
            Seq<char>,
        >(after),
        grows_into(after.table, all),
        states_blocks(blocks, analysis.topo_order.take(n), all, before),
    ensures
        states_blocks(blocks, analysis.topo_order.take(n + 1), all, after),
{
    let id = analysis.topo_order[n];
    let ids = analysis.topo_order.take(n + 1);
    let done = analysis.topo_order.take(n);
    law_blocks_are_known(blocks, analysis, n);
    let block = block_with(blocks, id)->0;
    let names = value_of(schema_of(blocks), id.0)->0;
    assert(ids[n] == id);
    assert forall|k: int| 0 <= k < n implies ids[k] == done[k] by {}
    match kind_of(block) {
        BlockKind::Edb => {
            let (tuple, table) = tuple_of(block, names, before.table)->Ok_0;
            lemma_tuple(block, names, before.table, all);
            assert(is_block_fact(blocks, id, all, id.0, tuple));
            assert forall|name: Seq<char>| facts_under(before.facts, name).is_prefix_of(
                #[trigger] facts_under(after.facts, name),
            ) && (name == id.0 ==> facts_under(after.facts, name) == facts_under(
                before.facts,
                name,
            ).push(tuple)) && (name != id.0 ==> facts_under(after.facts, name) == facts_under(
                before.facts,
                name,
            )) by {
                lemma_facts_entered(before.facts, id.0, tuple, name);
            }
            lemma_facts_entered(before.facts, id.0, tuple, id.0);
            assert forall|name: Seq<char>, i: int|
                0 <= i < facts_under(after.facts, name).len() implies has_fact_from(
                blocks,
                ids,
                all,
                name,
                #[trigger] facts_under(after.facts, name)[i],
            ) by {
                let fact = facts_under(after.facts, name)[i];
                if i < facts_under(before.facts, name).len() {
                    assert(fact == facts_under(before.facts, name)[i]);
                    assert(has_fact_from(blocks, done, all, name, fact));
                    let k = choose|k: int|
                        0 <= k < done.len() && is_block_fact(
                            blocks,
                            #[trigger] done[k],
                            all,
                            name,
                            fact,
                        );
                    assert(ids[k] == done[k]);
                } else {
                    assert(is_block_fact(blocks, ids[n], all, name, fact));
                }
            }
            let m = facts_under(before.facts, id.0).len() as int;
            assert(facts_under(after.facts, id.0)[m] == tuple);
            assert(is_stated(blocks, id, all, after));
        },
        BlockKind::Idb => {
            let rule = rule_of(block, names, schema_of(blocks))->Ok_0;
            lemma_number_stays(before.table, all, block.label);
            assert(is_block_rule(blocks, id, rule));
            assert(after.rules == before.rules.push(rule));
            assert(before.rules.is_prefix_of(after.rules));
            assert(after.rules[before.rules.len() as int] == rule);
            assert forall|name: Seq<char>, i: int|
                0 <= i < facts_under(after.facts, name).len() implies has_fact_from(
                blocks,
                ids,
                all,
                name,
                #[trigger] facts_under(after.facts, name)[i],
            ) by {
                let fact = facts_under(before.facts, name)[i];
                assert(has_fact_from(blocks, done, all, name, fact));
                let k = choose|k: int|
                    0 <= k < done.len() && is_block_fact(
                        blocks,
                        #[trigger] done[k],
                        all,
                        name,
                        fact,
                    );
                assert(ids[k] == done[k]);
            }
            assert(is_stated(blocks, id, all, after));
        },
    }
    assert forall|r: int| 0 <= r < after.rules.len() implies has_rule_from(
        blocks,
        ids,
        #[trigger] after.rules[r],
    ) by {
        if r < before.rules.len() {
            assert(after.rules[r] == before.rules[r]);
            assert(has_rule_from(blocks, done, before.rules[r]));
            let k = choose|k: int|
                0 <= k < done.len() && is_block_rule(blocks, #[trigger] done[k], before.rules[r]);
            assert(ids[k] == done[k]);
        } else {
            assert(is_block_rule(blocks, ids[n], after.rules[r]));
        }
    }
    assert forall|k: int| 0 <= k < ids.len() implies is_stated(
        blocks,
        #[trigger] ids[k],
        all,
        after,
    ) by {
        if k < n {
            assert(ids[k] == done[k]);
            assert(is_stated(blocks, done[k], all, before));
            lemma_still_stated(blocks, done[k], all, before, after);
        }
    }
}

/// The table of a translation grows with each block.
proof fn lemma_block_table(
    blocks: Seq<HclResourceModel>,
    analysis: DependencyAnalysisModel,
    n: int,
    before: TranslationModel,
    after: TranslationModel,
    all: Seq<Seq<char>>,
)
    requires
        is_analysis(blocks, analysis),
        0 <= n < analysis.topo_order.len(),
        with_block(before, blocks, analysis.block_kinds, analysis.topo_order[n]) == Ok::<
            TranslationModel,
            Seq<char>,
        >(after),
        grows_into(after.table, all),
    ensures
        grows_into(before.table, all),
{
    let id = analysis.topo_order[n];
    law_blocks_are_known(blocks, analysis, n);
    let block = block_with(blocks, id)->0;
    let names = value_of(schema_of(blocks), id.0)->0;
    match kind_of(block) {
        BlockKind::Edb => {
            lemma_tuple(block, names, before.table, all);
        },
        BlockKind::Idb => {
            lemma_number_stays(before.table, all, block.label);
        },
    }
}

/// The facts and rules of translated blocks are those of the blocks, each with its own.
pub proof fn lemma_blocks_stated(
    blocks: Seq<HclResourceModel>,
    analysis: DependencyAnalysisModel,
    n: int,
    all: Seq<Seq<char>>,
)
    requires
        is_analysis(blocks, analysis),
        0 <= n <= analysis.topo_order.len(),
        translated(blocks, analysis.block_kinds, analysis.topo_order.take(n)) is Ok,
        grows_into(
            translated(blocks, analysis.block_kinds, analysis.topo_order.take(n))->Ok_0.table,
            all,
        ),
    ensures
        states_blocks(
            blocks,
            analysis.topo_order.take(n),
            all,
            translated(blocks, analysis.block_kinds, analysis.topo_order.take(n))->Ok_0,
        ),
    decreases n,
{
    broadcast use group_take;

    let order = analysis.topo_order;
    if n == 0 {
        assert(order.take(0) =~= Seq::empty());
        let state = untranslated();
        assert forall|name: Seq<char>| (#[trigger] facts_under(state.facts, name)).len() == 0 by {}
    } else {
        let m = n - 1;
        assert(order.take(n).drop_last() == order.take(m));
        assert(order.take(n).last() == order[m]);
        let before = translated(blocks, analysis.block_kinds, order.take(m))->Ok_0;
        let after = translated(blocks, analysis.block_kinds, order.take(n))->Ok_0;
        lemma_block_table(blocks, analysis, m, before, after, all);
        lemma_blocks_stated(blocks, analysis, m, all);
        lemma_one_block(blocks, analysis, m, before, after, all);
    }
}

/// Whether a fact is that of an output that is written down.
pub open spec fn is_output_fact(
    variables: Seq<(Seq<char>, HclValueModel)>,
    output: HclOutputModel,
    all: Seq<Seq<char>>,
    name: Seq<char>,
    tuple: Seq<i32>,
) -> bool {
    resolved(output.value, variables) matches HclExprModel::Literal(value) && name == relation_for(
        output.name,
    ) && tuple == seq![value_number(value, all)] && is_known_text(value, all)
}

/// Whether a rule is that of an output that refers to a block.
pub open spec fn is_output_rule(
    schema: Seq<(Seq<char>, Seq<Seq<char>>)>,
    variables: Seq<(Seq<char>, HclValueModel)>,
    output: HclOutputModel,
    rule: FLRuleModel,
) -> bool {
    resolved(output.value, variables) matches HclExprModel::Reference(target) && value_of(
        schema,
        target.block_type,
    ) matches Some(names) && names.contains(target.field) && rule == output_rule(
        output.name,
        target,
        names,
    )
}

pub open spec fn has_output_fact(
    variables: Seq<(Seq<char>, HclValueModel)>,
    outputs: Seq<HclOutputModel>,
    all: Seq<Seq<char>>,
    name: Seq<char>,
    tuple: Seq<i32>,
) -> bool {
    exists|o: int|
        0 <= o < outputs.len() && is_output_fact(variables, #[trigger] outputs[o], all, name, tuple)
}

pub open spec fn has_output_rule(
    schema: Seq<(Seq<char>, Seq<Seq<char>>)>,
    variables: Seq<(Seq<char>, HclValueModel)>,
    outputs: Seq<HclOutputModel>,
    rule: FLRuleModel,
) -> bool {
    exists|o: int|
        0 <= o < outputs.len() && is_output_rule(schema, variables, #[trigger] outputs[o], rule)
}

/// Whether an output that refers to a block has its rule.
pub open spec fn is_asked(
    schema: Seq<(Seq<char>, Seq<Seq<char>>)>,
    variables: Seq<(Seq<char>, HclValueModel)>,
    output: HclOutputModel,
    state: TranslationModel,
) -> bool {
    resolved(output.value, variables) is Reference ==> exists|r: int|
        0 <= r < state.rules.len() && is_output_rule(
            schema,
            variables,
            output,
            #[trigger] state.rules[r],
        )
}

/// Whether an output that is written down has its fact.
pub open spec fn is_written(
    all: Seq<Seq<char>>,
    variables: Seq<(Seq<char>, HclValueModel)>,
    output: HclOutputModel,
    state: TranslationModel,
) -> bool {
    let name = relation_for(output.name);
    resolved(output.value, variables) is Literal ==> exists|i: int|
        0 <= i < facts_under(state.facts, name).len() && is_output_fact(
            variables,
            output,
            all,
            name,
            #[trigger] facts_under(state.facts, name)[i],
        )
}

/// What outputs add to a translation.
pub open spec fn adds_outputs(
    schema: Seq<(Seq<char>, Seq<Seq<char>>)>,
    variables: Seq<(Seq<char>, HclValueModel)>,
    outputs: Seq<HclOutputModel>,
    all: Seq<Seq<char>>,
    before: TranslationModel,
    after: TranslationModel,
) -> bool {
    &&& unique_keys(after.facts)
    &&& before.rules.is_prefix_of(after.rules)
    &&& forall|name: Seq<char>| facts_under(before.facts, name).is_prefix_of(
        #[trigger] facts_under(after.facts, name),
    )
    &&& forall|name: Seq<char>, i: int|
        facts_under(before.facts, name).len() <= i < facts_under(after.facts, name).len()
            ==> has_output_fact(
            variables,
            outputs,
            all,
            name,
            #[trigger] facts_under(after.facts, name)[i],
        )
    &&& forall|r: int|
        before.rules.len() <= r < after.rules.len() ==> has_output_rule(
            schema,
            variables,
            outputs,
            #[trigger] after.rules[r],
        )
    &&& forall|o: int|
        0 <= o < outputs.len() ==> is_asked(schema, variables, #[trigger] outputs[o], after)
            && is_written(all, variables, outputs[o], after)
}

pub proof fn lemma_outputs_added(
    state: TranslationModel,
    blocks: Seq<HclResourceModel>,
    schema: Seq<(Seq<char>, Seq<Seq<char>>)>,
    variables: Seq<(Seq<char>, HclValueModel)>,
    outputs: Seq<HclOutputModel>,
    all: Seq<Seq<char>>,
)
    requires
        unique_keys(state.facts),
        with_outputs(state, blocks, schema, variables, outputs) is Ok,
        grows_into(with_outputs(state, blocks, schema, variables, outputs)->Ok_0.0.table, all),
    ensures
        grows_into(state.table, all),
        adds_outputs(
            schema,
            variables,
            outputs,
            all,
            state,
            with_outputs(state, blocks, schema, variables, outputs)->Ok_0.0,
        ),
    decreases outputs.len(),
{
    if outputs.len() > 0 {
        let front = outputs.drop_last();
        let output = outputs.last();
        let n = front.len() as int;
        let before = with_outputs(state, blocks, schema, variables, front)->Ok_0.0;
        let after = with_outputs(state, blocks, schema, variables, outputs)->Ok_0.0;
        assert(outputs[n] == output);
        assert(with_output(before, blocks, schema, variables, output)->Ok_0.0 == after);
        let value = resolved(output.value, variables);
        if let HclExprModel::Literal(literal) = value {
            lemma_value_stays(literal, before.table, all);
        }
        lemma_outputs_added(state, blocks, schema, variables, front, all);
        lemma_one_output(state, blocks, schema, variables, outputs, all, before, after);
    }
}

proof fn lemma_one_output(
    state: TranslationModel,
    blocks: Seq<HclResourceModel>,
    schema: Seq<(Seq<char>, Seq<Seq<char>>)>,
    variables: Seq<(Seq<char>, HclValueModel)>,
    outputs: Seq<HclOutputModel>,
    all: Seq<Seq<char>>,
    before: TranslationModel,
    after: TranslationModel,
)
    requires
        outputs.len() > 0,
        with_output(before, blocks, schema, variables, outputs.last()) is Ok,
        with_output(before, blocks, schema, variables, outputs.last())->Ok_0.0 == after,
        grows_into(after.table, all),
        adds_outputs(schema, variables, outputs.drop_last(), all, state, before),
    ensures
        adds_outputs(schema, variables, outputs, all, state, after),
{
    let front = outputs.drop_last();
    let output = outputs.last();
    let n = front.len() as int;
    assert(outputs[n] == output);
    let value = resolved(output.value, variables);
    let relation = relation_for(output.name);
    match value {
        HclExprModel::Literal(literal) => {
            lemma_value_stays(literal, before.table, all);
            let m = facts_under(before.facts, relation).len() as int;
            let tuple = seq![value_number(literal, before.table)];
            assert(is_output_fact(variables, output, all, relation, tuple));
            lemma_facts_entered(before.facts, relation, tuple, relation);
            assert forall|name: Seq<char>| #[trigger] facts_under(after.facts, name) == if name
                == relation {
                facts_under(before.facts, name).push(tuple)
            } else {
                facts_under(before.facts, name)
            } by {
                lemma_facts_entered(before.facts, relation, tuple, name);
            }
            assert(facts_under(after.facts, relation)[m] == tuple);
            assert(is_written(all, variables, output, after));
        },
        HclExprModel::Reference(target) => {
            let names = value_of(schema, target.block_type)->0;
            let rule = output_rule(output.name, target, names);
            assert(is_output_rule(schema, variables, output, rule));
            assert(after.rules == before.rules.push(rule));
            assert(after.rules[before.rules.len() as int] == rule);
            assert(is_asked(schema, variables, output, after));
        },
        _ => {},
    }
    assert forall|name: Seq<char>| facts_under(state.facts, name).is_prefix_of(
        #[trigger] facts_under(after.facts, name),
    ) by {
        assert(facts_under(state.facts, name).is_prefix_of(facts_under(before.facts, name)));
    }
    assert forall|name: Seq<char>, i: int|
        facts_under(state.facts, name).len() <= i < facts_under(
            after.facts,
            name,
        ).len() implies has_output_fact(
        variables,
        outputs,
        all,
        name,
        #[trigger] facts_under(after.facts, name)[i],
    ) by {
        let fact = facts_under(after.facts, name)[i];
        if i < facts_under(before.facts, name).len() {
            assert(fact == facts_under(before.facts, name)[i]);
            assert(has_output_fact(variables, front, all, name, fact));
            let o = choose|o: int|
                0 <= o < front.len() && is_output_fact(
                    variables,
                    #[trigger] front[o],
                    all,
                    name,
                    fact,
                );
            assert(outputs[o] == front[o]);
        } else {
            assert(is_output_fact(variables, outputs[n], all, name, fact));
        }
    }
    assert forall|r: int| state.rules.len() <= r < after.rules.len() implies has_output_rule(
        schema,
        variables,
        outputs,
        #[trigger] after.rules[r],
    ) by {
        if r < before.rules.len() {
            assert(after.rules[r] == before.rules[r]);
            assert(has_output_rule(schema, variables, front, before.rules[r]));
            let o = choose|o: int|
                0 <= o < front.len() && is_output_rule(
                    schema,
                    variables,
                    #[trigger] front[o],
                    before.rules[r],
                );
            assert(outputs[o] == front[o]);
        } else {
            assert(is_output_rule(schema, variables, outputs[n], after.rules[r]));
        }
    }
    assert forall|name: Seq<char>| facts_under(before.facts, name).is_prefix_of(
        #[trigger] facts_under(after.facts, name),
    ) by {}
    assert forall|o: int| 0 <= o < outputs.len() implies is_asked(
        schema,
        variables,
        #[trigger] outputs[o],
        after,
    ) && is_written(all, variables, outputs[o], after) by {
        if o < n {
            let own = relation_for(front[o].name);
            assert(is_written(all, variables, front[o], before));
            if resolved(front[o].value, variables) is Literal {
                let i = choose|i: int|
                    0 <= i < facts_under(before.facts, own).len() && is_output_fact(
                        variables,
                        front[o],
                        all,
                        own,
                        #[trigger] facts_under(before.facts, own)[i],
                    );
                assert(facts_under(after.facts, own)[i] == facts_under(before.facts, own)[i]);
            }
            assert(outputs[o] == front[o]);
            assert(is_asked(schema, variables, front[o], before));
            if resolved(front[o].value, variables) is Reference {
                let r = choose|r: int|
                    0 <= r < before.rules.len() && is_output_rule(
                        schema,
                        variables,
                        front[o],
                        #[trigger] before.rules[r],
                    );
                assert(after.rules[r] == before.rules[r]);
            }
        }
    }
}

} // verus!
