//! What can be translated, and what comes of it.
use vstd::prelude::*;
use crate::compiler::resolving::{is_taken, lemma_targets, takes};
use crate::compiler::string_table::{number_of, place_in, table_with, text_under};
use crate::compiler::translate::{
    block_with, body_of, declaration, decls_with, facts_under, head_of, is_declared, names_under,
    names_with, rule_of, schema_of, targets_of, translated, tuple_of, BindingModel, TargetModel,
    TranslationModel,
};
use crate::hcl_types::{HclExprModel, HclResourceModel};
use crate::lists::{group_take, lookup, unique_keys};
use crate::ordered::{entered, law_entered_value_is_found, place_of, value_of};
use crate::parsing::decl::RelDeclModel;
use crate::reference::{
    has_reference, ids_in, is_analysis, is_block_order, kind_of, kinds_of, BlockKind,
    DependencyAnalysisModel,
};

verus! {

/// Whether an attribute of a block can be translated: it is there, it names no
/// variable, and a type that it refers to has blocks.
pub open spec fn is_known(
    block: HclResourceModel,
    name: Seq<char>,
    schema: Seq<(Seq<char>, Seq<Seq<char>>)>,
) -> bool {
    match value_of(block.attributes, name) {
        None => false,
        Some(HclExprModel::Literal(_)) => true,
        Some(HclExprModel::Reference(target)) => value_of(schema, target.block_type) is Some,
        Some(HclExprModel::VarRef(_)) => false,
    }
}

/// Whether a block has all attributes of its type, and they can be translated.
pub open spec fn is_complete(
    block: HclResourceModel,
    schema: Seq<(Seq<char>, Seq<Seq<char>>)>,
) -> bool {
    let names = names_under(schema, block.block_type);
    forall|k: int| 0 <= k < names.len() ==> is_known(block, #[trigger] names[k], schema)
}

proof fn lemma_block_with(blocks: Seq<HclResourceModel>, i: int)
    requires
        0 <= i < blocks.len(),
    ensures
        block_with(blocks, blocks[i].id()) is Some,
        block_with(blocks, blocks[i].id())->0.id() == blocks[i].id(),
        blocks.contains(block_with(blocks, blocks[i].id())->0),
    decreases blocks.len(),
{
    let id = blocks[i].id();
    if blocks.last().id() == id {
        assert(blocks.contains(blocks.last()));
    } else {
        let front = blocks.drop_last();
        assert(front[i] == blocks[i]);
        lemma_block_with(front, i);
        let found = block_with(front, id)->0;
        let k = front.index_of(found);
        assert(blocks[k] == found);
    }
}

proof fn lemma_kind_of_block(blocks: Seq<HclResourceModel>, id: (Seq<char>, Seq<char>))
    ensures
        lookup(kinds_of(blocks), id) == match block_with(blocks, id) {
            Some(block) => Some(kind_of(block)),
            None => None,
        },
    decreases blocks.len(),
{
    if blocks.len() > 0 {
        assert(kinds_of(blocks).drop_last() =~= kinds_of(blocks.drop_last()));
        lemma_kind_of_block(blocks.drop_last(), id);
    }
}

proof fn lemma_schema_has(blocks: Seq<HclResourceModel>, i: int)
    requires
        0 <= i < blocks.len(),
    ensures
        value_of(schema_of(blocks), blocks[i].block_type) is Some,
    decreases blocks.len(),
{
    let front = schema_of(blocks.drop_last());
    let name = blocks[i].block_type;
    let names = names_with(names_under(front, blocks.last().block_type), blocks.last().attributes);
    if i == blocks.len() - 1 {
        lemma_entered_has(front, blocks.last().block_type, names, name);
    } else {
        assert(blocks.drop_last()[i] == blocks[i]);
        lemma_schema_has(blocks.drop_last(), i);
        lemma_entered_has(front, blocks.last().block_type, names, name);
    }
}

proof fn lemma_entered_has<M>(
    entries: Seq<(Seq<char>, M)>,
    name: Seq<char>,
    value: M,
    wanted: Seq<char>,
)
    requires
        wanted == name || value_of(entries, wanted) is Some,
    ensures
        value_of(entered(entries, name, value), wanted) is Some,
{
    let after = entered(entries, name, value);
    match place_of(entries, name) {
        Some(i) => {
            assert(0 <= i < entries.len() && entries[i].0 == name);
            if wanted == name {
                assert(after[i].0 == wanted);
            } else {
                let k = place_of(entries, wanted)->0;
                assert(0 <= k < entries.len() && entries[k].0 == wanted);
                assert(after[k].0 == wanted);
            }
        },
        None => {
            if wanted == name {
                assert(after[entries.len() as int].0 == wanted);
            } else {
                let k = place_of(entries, wanted)->0;
                assert(0 <= k < entries.len() && entries[k].0 == wanted);
                assert(after[k].0 == wanted);
            }
        },
    }
}

/// Each block that is to be done is there, is known to be given or derived by what
/// it holds, and has a type with attributes: a translation fails for no other
/// reason than what is in a block.
pub proof fn law_blocks_are_known(
    blocks: Seq<HclResourceModel>,
    analysis: DependencyAnalysisModel,
    k: int,
)
    requires
        is_analysis(blocks, analysis),
        0 <= k < analysis.topo_order.len(),
    ensures
        ({
            let id = analysis.topo_order[k];
            &&& block_with(blocks, id) matches Some(block) && block.id() == id && blocks.contains(
                block,
            ) && lookup(analysis.block_kinds, id) == Some(kind_of(block))
            &&& value_of(schema_of(blocks), id.0) is Some
        }),
{
    let order = choose|order: Seq<usize>| #[trigger]
        is_block_order(blocks, order) && analysis.topo_order == ids_in(blocks, order);
    let i = order[k] as int;
    assert(0 <= i < blocks.len());
    assert(analysis.topo_order[k] == blocks[i].id());
    lemma_block_with(blocks, i);
    lemma_kind_of_block(blocks, blocks[i].id());
    lemma_schema_has(blocks, i);
}

proof fn lemma_tuple_made(
    block: HclResourceModel,
    names: Seq<Seq<char>>,
    table: Seq<Seq<char>>,
    schema: Seq<(Seq<char>, Seq<Seq<char>>)>,
)
    requires
        !has_reference(block),
        forall|k: int| 0 <= k < names.len() ==> is_known(block, #[trigger] names[k], schema),
    ensures
        tuple_of(block, names, table) is Ok,
    decreases names.len(),
{
    if names.len() > 0 {
        let front = names.drop_last();
        assert forall|k: int| 0 <= k < front.len() implies is_known(
            block,
            #[trigger] front[k],
            schema,
        ) by {
            assert(front[k] == names[k]);
        }
        lemma_tuple_made(block, front, table, schema);
        assert(is_known(block, names[names.len() - 1], schema));
        let i = place_of(block.attributes, names.last())->0;
        assert(0 <= i < block.attributes.len() && block.attributes[i].0 == names.last());
        assert(!(block.attributes[i].1 is Reference));
    }
}

/// Whether all that is referred to has a type that is there.
spec fn are_known(
    bindings: Seq<BindingModel>,
    schema: Seq<(Seq<char>, Seq<Seq<char>>)>,
) -> bool {
    forall|i: int|
        0 <= i < bindings.len() ==> value_of(
            schema,
            (#[trigger] bindings[i]).target.block_type,
        ) is Some
}

proof fn lemma_head_made(
    block: HclResourceModel,
    names: Seq<Seq<char>>,
    schema: Seq<(Seq<char>, Seq<Seq<char>>)>,
)
    requires
        forall|k: int| 0 <= k < names.len() ==> is_known(block, #[trigger] names[k], schema),
    ensures
        head_of(block, names) is Ok,
        are_known(head_of(block, names)->Ok_0.1, schema),
    decreases names.len(),
{
    if names.len() > 0 {
        let front = names.drop_last();
        assert forall|k: int| 0 <= k < front.len() implies is_known(
            block,
            #[trigger] front[k],
            schema,
        ) by {
            assert(front[k] == names[k]);
        }
        lemma_head_made(block, front, schema);
        assert(is_known(block, names[names.len() - 1], schema));
    }
}

/// Whether all targets have a type that is there.
spec fn are_reachable(
    targets: Seq<(Seq<char>, TargetModel)>,
    schema: Seq<(Seq<char>, Seq<Seq<char>>)>,
) -> bool {
    forall|i: int|
        0 <= i < targets.len() ==> value_of(schema, (#[trigger] targets[i]).1.block_type) is Some
}

proof fn lemma_targets_reachable(
    bindings: Seq<BindingModel>,
    schema: Seq<(Seq<char>, Seq<Seq<char>>)>,
)
    requires
        are_known(bindings, schema),
    ensures
        are_reachable(targets_of(bindings), schema),
    decreases bindings.len(),
{
    if bindings.len() > 0 {
        let front = bindings.drop_last();
        assert forall|i: int| 0 <= i < front.len() implies value_of(
            schema,
            (#[trigger] front[i]).target.block_type,
        ) is Some by {
            assert(front[i] == bindings[i]);
        }
        lemma_targets_reachable(front, schema);
        assert(value_of(schema, bindings[bindings.len() - 1].target.block_type) is Some);
    }
}

proof fn lemma_body_made(
    targets: Seq<(Seq<char>, TargetModel)>,
    schema: Seq<(Seq<char>, Seq<Seq<char>>)>,
)
    requires
        are_reachable(targets, schema),
    ensures
        body_of(targets, schema) is Ok,
    decreases targets.len(),
{
    if targets.len() > 0 {
        let front = targets.drop_last();
        assert forall|i: int| 0 <= i < front.len() implies value_of(
            schema,
            (#[trigger] front[i]).1.block_type,
        ) is Some by {
            assert(front[i] == targets[i]);
        }
        lemma_body_made(front, schema);
        assert(value_of(schema, targets[targets.len() - 1].1.block_type) is Some);
    }
}

/// A program whose blocks are complete is translated.
pub proof fn law_complete_blocks_are_translated(
    blocks: Seq<HclResourceModel>,
    analysis: DependencyAnalysisModel,
)
    requires
        is_analysis(blocks, analysis),
        forall|i: int|
            0 <= i < blocks.len() ==> is_complete(#[trigger] blocks[i], schema_of(blocks)),
    ensures
        translated(blocks, analysis.block_kinds, analysis.topo_order) is Ok,
{
    lemma_translated_so_far(blocks, analysis, analysis.topo_order.len() as int);
    assert(analysis.topo_order.take(analysis.topo_order.len() as int) =~= analysis.topo_order);
}

proof fn lemma_translated_so_far(
    blocks: Seq<HclResourceModel>,
    analysis: DependencyAnalysisModel,
    n: int,
)
    requires
        is_analysis(blocks, analysis),
        forall|i: int|
            0 <= i < blocks.len() ==> is_complete(#[trigger] blocks[i], schema_of(blocks)),
        0 <= n <= analysis.topo_order.len(),
    ensures
        translated(blocks, analysis.block_kinds, analysis.topo_order.take(n)) is Ok,
    decreases n,
{
    broadcast use group_take;

    if n > 0 {
        let order = analysis.topo_order;
        lemma_translated_so_far(blocks, analysis, n - 1);
        assert(order.take(n).drop_last() =~= order.take(n - 1));
        assert(order.take(n).last() == order[n - 1]);
        law_blocks_are_known(blocks, analysis, n - 1);
        let schema = schema_of(blocks);
        let state = translated(blocks, analysis.block_kinds, order.take(n - 1))->Ok_0;
        let id = order[n - 1];
        let block = block_with(blocks, id)->0;
        let i = blocks.index_of(block);
        assert(is_complete(blocks[i], schema));
        let names = value_of(schema, id.0)->0;
        assert(names == names_under(schema, block.block_type));
        if kind_of(block) == BlockKind::Edb {
            lemma_tuple_made(block, names, state.table, schema);
        } else {
            lemma_head_made(block, names, schema);
            let bindings = head_of(block, names)->Ok_0.1;
            lemma_targets_reachable(bindings, schema);
            lemma_body_made(targets_of(bindings), schema);
        }
    }
}

/// How many facts there are.
pub open spec fn fact_count(facts: Seq<(Seq<char>, Seq<Seq<i32>>)>) -> nat
    decreases facts.len(),
{
    if facts.len() == 0 {
        0
    } else {
        fact_count(facts.drop_last()) + facts.last().1.len()
    }
}

proof fn lemma_count_entered(
    facts: Seq<(Seq<char>, Seq<Seq<i32>>)>,
    name: Seq<char>,
    tuple: Seq<i32>,
)
    ensures
        fact_count(entered(facts, name, facts_under(facts, name).push(tuple))) == fact_count(facts)
            + 1,
{
    let after = entered(facts, name, facts_under(facts, name).push(tuple));
    match place_of(facts, name) {
        Some(i) => {
            assert(0 <= i < facts.len() && facts[i].0 == name);
            lemma_count_update(facts, i, (name, facts[i].1.push(tuple)));
        },
        None => {
            assert(after.drop_last() =~= facts);
        },
    }
}

proof fn lemma_count_update(
    facts: Seq<(Seq<char>, Seq<Seq<i32>>)>,
    i: int,
    entry: (Seq<char>, Seq<Seq<i32>>),
)
    requires
        0 <= i < facts.len(),
    ensures
        fact_count(facts.update(i, entry)) + facts[i].1.len() == fact_count(facts) + entry.1.len(),
    decreases facts.len(),
{
    let after = facts.update(i, entry);
    if i == facts.len() - 1 {
        assert(after.drop_last() =~= facts.drop_last());
    } else {
        assert(after.drop_last() =~= facts.drop_last().update(i, entry));
        lemma_count_update(facts.drop_last(), i, entry);
    }
}

/// How many of the first blocks of an order are of a kind.
pub open spec fn kind_count(
    kinds: Seq<((Seq<char>, Seq<char>), BlockKind)>,
    order: Seq<(Seq<char>, Seq<char>)>,
    kind: BlockKind,
) -> nat
    decreases order.len(),
{
    if order.len() == 0 {
        0
    } else {
        kind_count(kinds, order.drop_last(), kind) + if lookup(kinds, order.last()) == Some(kind) {
            1nat
        } else {
            0nat
        }
    }
}

/// Each block becomes one fact or one rule, by its kind.
pub proof fn law_each_block_is_translated_once(
    blocks: Seq<HclResourceModel>,
    kinds: Seq<((Seq<char>, Seq<char>), BlockKind)>,
    order: Seq<(Seq<char>, Seq<char>)>,
)
    requires
        translated(blocks, kinds, order) is Ok,
    ensures
        ({
            let result = translated(blocks, kinds, order)->Ok_0;
            &&& fact_count(result.facts) == kind_count(kinds, order, BlockKind::Edb)
            &&& result.rules.len() == kind_count(kinds, order, BlockKind::Idb)
            &&& fact_count(result.facts) + result.rules.len() == order.len()
        }),
    decreases order.len(),
{
    if order.len() > 0 {
        law_each_block_is_translated_once(blocks, kinds, order.drop_last());
        let state = translated(blocks, kinds, order.drop_last())->Ok_0;
        let block = block_with(blocks, order.last())->0;
        let names = value_of(schema_of(blocks), order.last().0)->0;
        if lookup(kinds, order.last()) == Some(BlockKind::Edb) {
            let tuple = tuple_of(block, names, state.table)->Ok_0.0;
            lemma_count_entered(state.facts, block.block_type, tuple);
        }
    }
}

/// Whether facts have the columns of their types: the label and the attributes.
pub open spec fn are_facts_fitting(
    facts: Seq<(Seq<char>, Seq<Seq<i32>>)>,
    schema: Seq<(Seq<char>, Seq<Seq<char>>)>,
) -> bool {
    forall|i: int, k: int|
        0 <= i < facts.len() && 0 <= k < facts[i].1.len() ==> (#[trigger] facts[i].1[k]).len() == 1
            + names_under(schema, facts[i].0).len()
}

proof fn lemma_tuple_length(
    block: HclResourceModel,
    names: Seq<Seq<char>>,
    table: Seq<Seq<char>>,
)
    requires
        tuple_of(block, names, table) is Ok,
    ensures
        tuple_of(block, names, table)->Ok_0.0.len() == 1 + names.len(),
    decreases names.len(),
{
    if names.len() > 0 {
        lemma_tuple_length(block, names.drop_last(), table);
    }
}

/// Each fact has one value for the label and one for each attribute of its type,
/// and the relation of each fact is declared.
pub proof fn law_facts_fit_their_types(
    blocks: Seq<HclResourceModel>,
    analysis: DependencyAnalysisModel,
)
    requires
        is_analysis(blocks, analysis),
        translated(blocks, analysis.block_kinds, analysis.topo_order) is Ok,
    ensures
        ({
            let result = translated(blocks, analysis.block_kinds, analysis.topo_order)->Ok_0;
            &&& are_facts_fitting(result.facts, schema_of(blocks))
            &&& forall|i: int|
                0 <= i < result.facts.len() ==> is_declared(
                    result.edbs,
                    (#[trigger] result.facts[i]).0,
                )
        }),
{
    assert(analysis.topo_order.take(analysis.topo_order.len() as int) =~= analysis.topo_order);
    lemma_facts_fit_so_far(blocks, analysis, analysis.topo_order.len() as int);
}

proof fn lemma_declared_stays(
    decls: Seq<RelDeclModel>,
    decl: RelDeclModel,
    name: Seq<char>,
)
    requires
        name == decl.name || is_declared(decls, name),
    ensures
        is_declared(decls_with(decls, decl), name),
{
    let after = decls_with(decls, decl);
    if is_declared(decls, name) {
        let i = choose|i: int| 0 <= i < decls.len() && (#[trigger] decls[i]).name == name;
        assert(after[i].name == name);
    } else {
        assert(after[decls.len() as int].name == name);
    }
}

proof fn lemma_facts_fit_so_far(
    blocks: Seq<HclResourceModel>,
    analysis: DependencyAnalysisModel,
    n: int,
)
    requires
        is_analysis(blocks, analysis),
        0 <= n <= analysis.topo_order.len(),
        translated(blocks, analysis.block_kinds, analysis.topo_order.take(n)) is Ok,
    ensures
        ({
            let result = translated(
                blocks,
                analysis.block_kinds,
                analysis.topo_order.take(n),
            )->Ok_0;
            &&& are_facts_fitting(result.facts, schema_of(blocks))
            &&& forall|i: int|
                0 <= i < result.facts.len() ==> is_declared(
                    result.edbs,
                    (#[trigger] result.facts[i]).0,
                )
        }),
    decreases n,
{
    broadcast use group_take;

    let schema = schema_of(blocks);
    let kinds = analysis.block_kinds;
    let order = analysis.topo_order;
    if n > 0 {
        assert(order.take(n).drop_last() =~= order.take(n - 1));
        assert(order.take(n).last() == order[n - 1]);
        lemma_facts_fit_so_far(blocks, analysis, n - 1);
        law_blocks_are_known(blocks, analysis, n - 1);
        let before = translated(blocks, kinds, order.take(n - 1))->Ok_0;
        let after = translated(blocks, kinds, order.take(n))->Ok_0;
        let id = order[n - 1];
        let block = block_with(blocks, id)->0;
        let names = value_of(schema, id.0)->0;
        if kind_of(block) == BlockKind::Edb {
            lemma_tuple_length(block, names, before.table);
            let tuple = tuple_of(block, names, before.table)->Ok_0.0;
            let decl = declaration(
                block.block_type,
                names,
                block.attributes,
            );
            let grown = facts_under(before.facts, block.block_type).push(tuple);
            assert(after.facts == entered(before.facts, block.block_type, grown));
            assert forall|i: int, k: int|
                0 <= i < after.facts.len() && 0 <= k < after.facts[i].1.len() implies (
            #[trigger] after.facts[i].1[k]).len() == 1 + names_under(
                schema,
                after.facts[i].0,
            ).len() by {
                let place = place_of(before.facts, block.block_type);
                if i < before.facts.len() && place != Some(i) {
                    assert(after.facts[i] == before.facts[i]);
                    assert(before.facts[i].1[k].len() == 1 + names_under(
                        schema,
                        before.facts[i].0,
                    ).len());
                } else if place == Some(i) {
                    assert(before.facts[i].0 == block.block_type);
                    if k < before.facts[i].1.len() {
                        assert(after.facts[i].1[k] == before.facts[i].1[k]);
                    }
                }
            }
            assert forall|i: int| 0 <= i < after.facts.len() implies is_declared(
                after.edbs,
                (#[trigger] after.facts[i]).0,
            ) by {
                if i < before.facts.len() {
                    assert(after.facts[i].0 == before.facts[i].0);
                }
                lemma_declared_stays(before.edbs, decl, after.facts[i].0);
            }
        } else {
            assert(after.facts == before.facts);
            assert(after.edbs == before.edbs);
        }
    }
}

proof fn lemma_schema_unique(blocks: Seq<HclResourceModel>)
    ensures
        unique_keys(schema_of(blocks)),
    decreases blocks.len(),
{
    if blocks.len() > 0 {
        lemma_schema_unique(blocks.drop_last());
        let front = schema_of(blocks.drop_last());
        let block = blocks.last();
        law_entered_value_is_found(
            front,
            block.block_type,
            names_with(names_under(front, block.block_type), block.attributes),
            block.block_type,
        );
    }
}

proof fn lemma_names_with(names: Seq<Seq<char>>, attributes: Seq<(Seq<char>, HclExprModel)>)
    ensures
        names.no_duplicates() ==> names_with(names, attributes).no_duplicates(),
        forall|name: Seq<char>| #[trigger] names_with(names, attributes).contains(name) <==> (
        names.contains(name) || exists|k: int|
            0 <= k < attributes.len() && (#[trigger] attributes[k]).0 == name),
    decreases attributes.len(),
{
    if attributes.len() > 0 {
        let shorter = attributes.drop_last();
        lemma_names_with(names, shorter);
        let front = names_with(names, shorter);
        let whole = names_with(names, attributes);
        let last = attributes[attributes.len() - 1].0;
        assert forall|name: Seq<char>| #[trigger] whole.contains(name) <==> (front.contains(name)
            || name == last) by {
            if !front.contains(last) {
                assert(whole[front.len() as int] == last);
                if front.contains(name) {
                    let i = front.index_of(name);
                    assert(whole[i] == name);
                }
                if whole.contains(name) {
                    let i = whole.index_of(name);
                    assert(whole[i] == name);
                    if i < front.len() {
                        assert(front[i] == name);
                    }
                }
            }
        }
        assert forall|name: Seq<char>| #[trigger] whole.contains(name) <==> (names.contains(name)
            || exists|k: int| 0 <= k < attributes.len() && (#[trigger] attributes[k]).0 == name) by {
            assert(whole.contains(name) <==> (front.contains(name) || name == last));
            if exists|k: int| 0 <= k < shorter.len() && (#[trigger] shorter[k]).0 == name {
                let k = choose|k: int| 0 <= k < shorter.len() && (#[trigger] shorter[k]).0 == name;
                assert(attributes[k].0 == name);
            }
            if exists|k: int| 0 <= k < attributes.len() && (#[trigger] attributes[k]).0 == name {
                let k = choose|k: int|
                    0 <= k < attributes.len() && (#[trigger] attributes[k]).0 == name;
                if k < shorter.len() {
                    assert(shorter[k].0 == name);
                }
            }
        }
    }
}

/// The attributes of a type are those of its blocks, each once.
pub proof fn law_types_have_the_attributes_of_their_blocks(
    blocks: Seq<HclResourceModel>,
    block_type: Seq<char>,
    name: Seq<char>,
)
    ensures
        names_under(schema_of(blocks), block_type).no_duplicates(),
        names_under(schema_of(blocks), block_type).contains(name) <==> exists|i: int, k: int|
            has_attribute(blocks, block_type, name, i, k),
    decreases blocks.len(),
{
    let names = names_under(schema_of(blocks), block_type);
    if blocks.len() == 0 {
        assert(value_of(schema_of(blocks), block_type) is None);
    } else {
        let shorter = blocks.drop_last();
        let front = schema_of(shorter);
        let block = blocks.last();
        let grown = names_with(names_under(front, block.block_type), block.attributes);
        lemma_schema_unique(shorter);
        law_types_have_the_attributes_of_their_blocks(shorter, block_type, name);
        law_entered_value_is_found(front, block.block_type, grown, block_type);
        lemma_names_with(names_under(front, block_type), block.attributes);
        if names.contains(name) {
            if names_under(front, block_type).contains(name) {
                let (i, k) = choose|i: int, k: int| has_attribute(shorter, block_type, name, i, k);
                assert(has_attribute(blocks, block_type, name, i, k));
            } else {
                let k = choose|k: int|
                    0 <= k < block.attributes.len() && (#[trigger] block.attributes[k]).0 == name;
                assert(has_attribute(blocks, block_type, name, blocks.len() - 1, k));
            }
        }
        if exists|i: int, k: int| has_attribute(blocks, block_type, name, i, k) {
            let (i, k) = choose|i: int, k: int| has_attribute(blocks, block_type, name, i, k);
            if i < shorter.len() {
                assert(has_attribute(shorter, block_type, name, i, k));
            } else {
                assert(block.attributes[k].0 == name);
            }
        }
    }
}

/// Whether a block of a type has an attribute in a place.
pub open spec fn has_attribute(
    blocks: Seq<HclResourceModel>,
    block_type: Seq<char>,
    name: Seq<char>,
    i: int,
    k: int,
) -> bool {
    &&& 0 <= i < blocks.len()
    &&& blocks[i].block_type == block_type
    &&& 0 <= k < blocks[i].attributes.len()
    &&& blocks[i].attributes[k].0 == name
}

/// Whether a block has a fact that starts with its label.
pub open spec fn is_labelled(result: TranslationModel, id: (Seq<char>, Seq<char>)) -> bool {
    exists|k: int| is_labelled_at(result, id, k)
}

pub open spec fn is_labelled_at(
    result: TranslationModel,
    id: (Seq<char>, Seq<char>),
    k: int,
) -> bool {
    let tuples = facts_under(result.facts, id.0);
    0 <= k < tuples.len() && tuples[k].len() > 0 && text_under(result.table, tuples[k][0]) == Some(
        id.1,
    )
}

proof fn lemma_tuple_starts(
    block: HclResourceModel,
    names: Seq<Seq<char>>,
    table: Seq<Seq<char>>,
)
    requires
        tuple_of(block, names, table) is Ok,
    ensures
        ({
            let (tuple, after) = tuple_of(block, names, table)->Ok_0;
            &&& tuple.len() > 0
            &&& tuple[0] == number_of(table, block.label)
            &&& table_with(table, block.label).is_prefix_of(after)
        }),
    decreases names.len(),
{
    if names.len() > 0 {
        lemma_tuple_starts(block, names.drop_last(), table);
    }
}

proof fn lemma_labels_so_far(
    blocks: Seq<HclResourceModel>,
    analysis: DependencyAnalysisModel,
    n: int,
    k: int,
)
    requires
        is_analysis(blocks, analysis),
        0 <= n <= analysis.topo_order.len(),
        translated(blocks, analysis.block_kinds, analysis.topo_order.take(n)) is Ok,
        translated(
            blocks,
            analysis.block_kinds,
            analysis.topo_order.take(n),
        )->Ok_0.table.len() <= i32::MAX,
        0 <= k < n,
        lookup(analysis.block_kinds, analysis.topo_order[k]) == Some(BlockKind::Edb),
    ensures
        ({
            let result = translated(
                blocks,
                analysis.block_kinds,
                analysis.topo_order.take(n),
            )->Ok_0;
            is_labelled(result, analysis.topo_order[k])
        }),
    decreases n,
{
    broadcast use group_take;

    let kinds = analysis.block_kinds;
    let order = analysis.topo_order;
    assert(order.take(n).drop_last() =~= order.take(n - 1));
    assert(order.take(n).last() == order[n - 1]);
    law_blocks_are_known(blocks, analysis, n - 1);
    let before = translated(blocks, kinds, order.take(n - 1))->Ok_0;
    let after = translated(blocks, kinds, order.take(n))->Ok_0;
    let id = order[n - 1];
    let block = block_with(blocks, id)->0;
    let names = value_of(schema_of(blocks), id.0)->0;
    lemma_facts_unique(blocks, kinds, order.take(n - 1));
    if kind_of(block) == BlockKind::Edb {
        lemma_tuple_starts(block, names, before.table);
        let tuple = tuple_of(block, names, before.table)->Ok_0.0;
        let grown = facts_under(before.facts, id.0).push(tuple);
        law_entered_value_is_found(before.facts, id.0, grown, order[k].0);
        if k == n - 1 {
            if before.table.contains(block.label) {
                let place = place_in(before.table, block.label);
                assert(0 <= place < before.table.len() && before.table[place] == block.label);
                assert(after.table[place] == block.label);
            } else {
                assert(table_with(before.table, block.label)[before.table.len() as int]
                    == block.label);
            }
            assert(is_labelled_at(after, id, grown.len() - 1));
        } else {
            assert(before.table.is_prefix_of(after.table));
            lemma_labels_so_far(blocks, analysis, n - 1, k);
            let place = choose|place: int| is_labelled_at(before, order[k], place);
            assert(is_labelled_at(after, order[k], place));
        }
    } else {
        assert(before.table.is_prefix_of(after.table));
        lemma_labels_so_far(blocks, analysis, n - 1, k);
        let place = choose|place: int| is_labelled_at(before, order[k], place);
        assert(is_labelled_at(after, order[k], place));
    }
}

proof fn lemma_facts_unique(
    blocks: Seq<HclResourceModel>,
    kinds: Seq<((Seq<char>, Seq<char>), BlockKind)>,
    order: Seq<(Seq<char>, Seq<char>)>,
)
    requires
        translated(blocks, kinds, order) is Ok,
    ensures
        unique_keys(translated(blocks, kinds, order)->Ok_0.facts),
    decreases order.len(),
{
    if order.len() > 0 {
        lemma_facts_unique(blocks, kinds, order.drop_last());
        let state = translated(blocks, kinds, order.drop_last())->Ok_0;
        let block = block_with(blocks, order.last())->0;
        let names = value_of(schema_of(blocks), order.last().0)->0;
        if lookup(kinds, order.last()) == Some(BlockKind::Edb) {
            let tuple = tuple_of(block, names, state.table)->Ok_0.0;
            law_entered_value_is_found(
                state.facts,
                block.block_type,
                facts_under(state.facts, block.block_type).push(tuple),
                block.block_type,
            );
        }
    }
}

/// Each block of written down values has a fact that starts with its label, as
/// long as the numbers of the table fit in 32 bits.
pub proof fn law_facts_start_with_labels(
    blocks: Seq<HclResourceModel>,
    analysis: DependencyAnalysisModel,
    k: int,
)
    requires
        is_analysis(blocks, analysis),
        translated(blocks, analysis.block_kinds, analysis.topo_order) is Ok,
        translated(blocks, analysis.block_kinds, analysis.topo_order)->Ok_0.table.len() <= i32::MAX,
        0 <= k < analysis.topo_order.len(),
        lookup(analysis.block_kinds, analysis.topo_order[k]) == Some(BlockKind::Edb),
    ensures
        is_labelled(
            translated(blocks, analysis.block_kinds, analysis.topo_order)->Ok_0,
            analysis.topo_order[k],
        ),
{
    let n = analysis.topo_order.len() as int;
    assert(analysis.topo_order.take(n) =~= analysis.topo_order);
    lemma_labels_so_far(blocks, analysis, n, k);
}

proof fn lemma_head_known(block: HclResourceModel, names: Seq<Seq<char>>, k: int)
    requires
        head_of(block, names) is Ok,
        0 <= k < names.len(),
    ensures
        match value_of(block.attributes, names[k]) {
            Some(HclExprModel::Literal(_)) => true,
            Some(HclExprModel::Reference(target)) => exists|b: int|
                0 <= b < head_of(block, names)->Ok_0.1.len() && (#[trigger] head_of(
                    block,
                    names,
                )->Ok_0.1[b]).target == target,
            _ => false,
        },
    decreases names.len(),
{
    let front = names.drop_last();
    let before = head_of(block, front)->Ok_0.1;
    let after = head_of(block, names)->Ok_0.1;
    if k < front.len() {
        lemma_head_known(block, front, k);
        assert(front[k] == names[k]);
        if let Some(HclExprModel::Reference(target)) = value_of(block.attributes, names[k]) {
            let b = choose|b: int| 0 <= b < before.len() && (#[trigger] before[b]).target == target;
            assert(after[b] == before[b]);
        }
    } else {
        assert(names[k] == names.last());
        if let Some(HclExprModel::Reference(target)) = value_of(block.attributes, names[k]) {
            assert(after[before.len() as int].target == target);
        }
    }
}

proof fn lemma_body_reachable(
    targets: Seq<(Seq<char>, TargetModel)>,
    schema: Seq<(Seq<char>, Seq<Seq<char>>)>,
    i: int,
)
    requires
        body_of(targets, schema) is Ok,
        0 <= i < targets.len(),
    ensures
        value_of(schema, targets[i].1.block_type) is Some,
        body_of(targets, schema)->Ok_0.len() == targets.len(),
    decreases targets.len(),
{
    let front = targets.drop_last();
    if i < front.len() {
        lemma_body_reachable(front, schema, i);
        assert(front[i] == targets[i]);
    } else if front.len() > 0 {
        lemma_body_reachable(front, schema, 0);
    }
}

/// A block that refers to others becomes a rule exactly if it gives each attribute of its
/// type a literal or a reference to a type that is there. It is refused for nothing else.
pub proof fn law_rules_are_refused_for_what_is_missing(
    block: HclResourceModel,
    names: Seq<Seq<char>>,
    schema: Seq<(Seq<char>, Seq<Seq<char>>)>,
)
    ensures
        rule_of(block, names, schema) is Ok <==> forall|k: int|
            0 <= k < names.len() ==> match value_of(block.attributes, #[trigger] names[k]) {
                Some(HclExprModel::Literal(_)) => true,
                Some(HclExprModel::Reference(target)) => value_of(
                    schema,
                    target.block_type,
                ) is Some,
                _ => false,
            },
{
    if rule_of(block, names, schema) is Ok {
        let bindings = head_of(block, names)->Ok_0.1;
        let targets = targets_of(bindings);
        lemma_targets(bindings);
        assert forall|k: int| 0 <= k < names.len() implies match value_of(
            block.attributes,
            #[trigger] names[k],
        ) {
            Some(HclExprModel::Literal(_)) => true,
            Some(HclExprModel::Reference(target)) => value_of(schema, target.block_type) is Some,
            _ => false,
        } by {
            lemma_head_known(block, names, k);
            if let Some(HclExprModel::Reference(target)) = value_of(block.attributes, names[k]) {
                let b = choose|b: int|
                    0 <= b < bindings.len() && (#[trigger] bindings[b]).target == target;
                assert(is_taken(targets, bindings[b]));
                let i = choose|i: int|
                    0 <= i < targets.len() && takes((#[trigger] targets[i]).1, bindings[b]);
                lemma_body_reachable(targets, schema, i);
            }
        }
    }
    if forall|k: int|
        0 <= k < names.len() ==> match value_of(block.attributes, #[trigger] names[k]) {
            Some(HclExprModel::Literal(_)) => true,
            Some(HclExprModel::Reference(target)) => value_of(schema, target.block_type) is Some,
            _ => false,
        } {
        assert forall|k: int| 0 <= k < names.len() implies is_known(
            block,
            #[trigger] names[k],
            schema,
        ) by {}
        lemma_head_made(block, names, schema);
        lemma_targets_reachable(head_of(block, names)->Ok_0.1, schema);
        lemma_body_made(targets_of(head_of(block, names)->Ok_0.1), schema);
    }
}

} // verus!
