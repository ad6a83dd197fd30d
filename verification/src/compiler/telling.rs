//! What is shown of an output is the text of the value that it comes to.
use vstd::prelude::*;
use crate::compiler::asking::{
    output_info, relation_for, target_type, type_after, with_output, with_outputs,
};
use crate::compiler::outputs::{decoded_value, OutputInfoModel};
use crate::compiler::resolving::{
    is_head_argument, is_whole, lemma_deeper_at, lemma_deeper_whole, lemma_head, lemma_quoted,
    value_at, value_in,
};
use crate::compiler::showing::{
    case_of, full_table, is_followable, lemma_attribute_named, lemma_block_stated, lemma_case,
    lemma_case_wf, lemma_either, lemma_found_from, lemma_with_all, names_for, output_comes_to,
    CaseModel,
};
use crate::compiler::stating::{
    is_block_fact, is_block_rule, is_known_text, is_output_fact, is_tuple_of, is_written,
};
use crate::compiler::translate::{
    block_with, facts_under, head_of, schema_of, translated_program, type_for, value_number,
    TranslationModel,
};
use crate::hcl_types::{
    HclExprModel, HclOutputModel, HclProgramModel, HclResourceModel, HclValueModel, ReferenceModel,
};
use crate::lists::unique_keys;
use crate::ordered::{place_of, value_of};
use crate::parsing::head::HeadArgModel;
use crate::parsing::rule::FLRuleModel;
use crate::reading::interner::{
    body_texts, head_argument_texts, head_texts, lemma_numbers_differ, rules_texts,
};
use crate::reference::{
    is_analysis, kind_of, resolved, resolved_program, BlockKind, DependencyAnalysisModel,
};
use crate::text::int_text;

verus! {

/// A value as text.
pub open spec fn value_text(value: HclValueModel) -> Seq<char> {
    match value {
        HclValueModel::Integer(i) => int_text(i as int),
        HclValueModel::String(s) => s,
        HclValueModel::Bool(b) => int_text(
            if b {
                1int
            } else {
                0int
            },
        ),
    }
}

/// The type of a reference is that of the value that it comes to.
proof fn lemma_type_after(
    blocks: Seq<HclResourceModel>,
    target: ReferenceModel,
    depth: nat,
)
    requires
        value_at(blocks, target, depth) is Some,
    ensures
        type_after(blocks, target, depth) == type_for(
            HclExprModel::Literal(value_at(blocks, target, depth)->0),
        ),
    decreases depth,
{
    let block = block_with(blocks, (target.block_type, target.block_label))->0;
    match value_of(block.attributes, target.field) {
        Some(HclExprModel::Reference(next)) => {
            lemma_type_after(blocks, next, (depth - 1) as nat);
        },
        _ => {},
    }
}

/// How many of the first blocks are whole.
spec fn whole_count(blocks: Seq<HclResourceModel>, depth: nat, upto: nat) -> nat
    decreases upto,
{
    if upto == 0 {
        0
    } else {
        whole_count(blocks, depth, (upto - 1) as nat) + if is_whole(
            blocks,
            blocks[upto - 1],
            depth,
        ) {
            1nat
        } else {
            0nat
        }
    }
}

/// Whether one more reference makes no more blocks whole.
spec fn is_settled(blocks: Seq<HclResourceModel>, depth: nat) -> bool {
    forall|i: int|
        0 <= i < blocks.len() && is_whole(blocks, #[trigger] blocks[i], depth + 1) ==> is_whole(
            blocks,
            blocks[i],
            depth,
        )
}

proof fn lemma_count(blocks: Seq<HclResourceModel>, depth: nat, upto: nat)
    requires
        upto <= blocks.len(),
    ensures
        whole_count(blocks, depth, upto) <= upto,
        whole_count(blocks, depth, upto) <= whole_count(blocks, depth + 1, upto),
        (exists|i: int|
            0 <= i < upto && is_whole(blocks, #[trigger] blocks[i], depth + 1) && !is_whole(
                blocks,
                blocks[i],
                depth,
            )) ==> whole_count(blocks, depth, upto) < whole_count(blocks, depth + 1, upto),
    decreases upto,
{
    if upto > 0 {
        let m = (upto - 1) as nat;
        lemma_count(blocks, depth, m);
        if is_whole(blocks, blocks[m as int], depth) {
            lemma_deeper_whole(blocks, blocks[m as int], depth, depth + 1);
        }
        if exists|i: int|
            0 <= i < upto && is_whole(blocks, #[trigger] blocks[i], depth + 1) && !is_whole(
                blocks,
                blocks[i],
                depth,
            ) {
            let i = choose|i: int|
                0 <= i < upto && is_whole(blocks, #[trigger] blocks[i], depth + 1) && !is_whole(
                    blocks,
                    blocks[i],
                    depth,
                );
            if i < m {
                assert(0 <= i < m && is_whole(blocks, blocks[i], depth + 1));
            }
        }
    }
}

/// After some references, either nothing has settled so far and at least so many blocks
/// are whole, or it has.
proof fn lemma_settles(blocks: Seq<HclResourceModel>, depth: nat) -> (e: nat)
    ensures
        whole_count(blocks, depth, blocks.len()) >= depth || (e < depth && is_settled(blocks, e)),
    decreases depth,
{
    if depth == 0 {
        0
    } else {
        let m = (depth - 1) as nat;
        let e = lemma_settles(blocks, m);
        lemma_count(blocks, m, blocks.len());
        if e < m && is_settled(blocks, e) {
            e
        } else if is_settled(blocks, m) {
            m
        } else {
            e
        }
    }
}

/// Once it has settled, no more blocks become whole.
proof fn lemma_stays_settled(blocks: Seq<HclResourceModel>, e: nat, depth: nat, i: int)
    requires
        is_settled(blocks, e),
        e <= depth,
        0 <= i < blocks.len(),
        is_whole(blocks, blocks[i], depth),
    ensures
        is_whole(blocks, blocks[i], e),
    decreases depth, 0nat,
{
    if depth > e {
        let block = blocks[i];
        assert forall|k: int| 0 <= k < block.attributes.len() implies value_in(
            blocks,
            block,
            (#[trigger] block.attributes[k]).0,
            e + 1,
        ) is Some by {
            let name = block.attributes[k].0;
            assert(value_in(blocks, block, name, depth) is Some);
            match value_of(block.attributes, name) {
                Some(HclExprModel::Reference(target)) => {
                    lemma_value_settled(blocks, e, (depth - 1) as nat, target);
                },
                _ => {},
            }
        }
        assert(is_whole(blocks, blocks[i], e + 1));
    }
}

proof fn lemma_value_settled(
    blocks: Seq<HclResourceModel>,
    e: nat,
    depth: nat,
    target: ReferenceModel,
)
    requires
        is_settled(blocks, e),
        e <= depth,
        value_at(blocks, target, depth) is Some,
    ensures
        value_at(blocks, target, e) is Some,
    decreases depth, 1nat,
{
    let i = lemma_found_from(blocks, (target.block_type, target.block_label));
    let block = blocks[i];
    lemma_stays_settled(blocks, e, depth, i);
    let k = place_of(block.attributes, target.field)->0;
    assert(0 <= k < block.attributes.len() && block.attributes[k].0 == target.field);
    assert(value_in(blocks, block, block.attributes[k].0, e) is Some);
}

/// What a reference comes to it comes to over no more references than there are blocks.
proof fn lemma_few_references(
    blocks: Seq<HclResourceModel>,
    target: ReferenceModel,
    depth: nat,
)
    requires
        value_at(blocks, target, depth) is Some,
    ensures
        value_at(blocks, target, blocks.len()) == value_at(blocks, target, depth),
{
    let n = blocks.len();
    if depth <= n {
        lemma_deeper_at(blocks, target, depth, n);
    } else {
        let e = lemma_settles(blocks, n + 1);
        lemma_count(blocks, n + 1, n);
        lemma_value_settled(blocks, e, depth, target);
        lemma_deeper_at(blocks, target, e, n);
        lemma_deeper_at(blocks, target, e, depth);
    }
}

proof fn lemma_head_text(arguments: Seq<HeadArgModel>, k: int, s: Seq<char>)
    requires
        0 <= k < arguments.len(),
        head_argument_texts(arguments[k]).contains(s),
    ensures
        head_texts(arguments).contains(s),
    decreases arguments.len(),
{
    let front = arguments.drop_last();
    if k < front.len() {
        assert(front[k] == arguments[k]);
        lemma_head_text(front, k, s);
    }
    lemma_either(head_texts(front), head_argument_texts(arguments.last()), s);
}

proof fn lemma_rule_head_text(rules: Seq<FLRuleModel>, r: int, s: Seq<char>)
    requires
        0 <= r < rules.len(),
        head_texts(rules[r].head.head_arguments).contains(s),
    ensures
        rules_texts(rules).contains(s),
    decreases rules.len(),
{
    let front = rules.drop_last();
    let last = rules.last();
    let head = head_texts(last.head.head_arguments);
    if r < front.len() {
        assert(front[r] == rules[r]);
        lemma_rule_head_text(front, r, s);
    } else {
        lemma_either(head, body_texts(last.rhs), s);
    }
    lemma_either(rules_texts(front), head + body_texts(last.rhs), s);
}

/// A text that is written down in a block is in the table.
proof fn lemma_written_text(case: CaseModel, b: int, k: int, s: Seq<char>)
    requires
        case.wf(),
        0 <= b < case.blocks.len(),
        0 <= k < names_for(case.blocks, case.blocks[b].block_type).len(),
        value_of(
            case.blocks[b].attributes,
            names_for(case.blocks, case.blocks[b].block_type)[k],
        ) == Some(HclExprModel::Literal(HclValueModel::String(s))),
    ensures
        case.table().contains(s),
{
    let block = case.blocks[b];
    let id = block.id();
    let names = names_for(case.blocks, block.block_type);
    lemma_case(case);
    lemma_block_stated(case, b);
    match kind_of(block) {
        BlockKind::Edb => {
            let i = choose|i: int|
                0 <= i < facts_under(case.base.facts, id.0).len() && is_block_fact(
                    case.blocks,
                    id,
                    case.table(),
                    id.0,
                    #[trigger] facts_under(case.base.facts, id.0)[i],
                );
            assert(is_tuple_of(block, names, case.table(), facts_under(case.base.facts, id.0)[i]));
            assert(value_of(block.attributes, names[k]) is Some);
        },
        BlockKind::Idb => {
            let r = choose|r: int|
                0 <= r < case.base.rules.len() && is_block_rule(
                    case.blocks,
                    id,
                    #[trigger] case.base.rules[r],
                );
            assert(case.state.rules[r] == case.base.rules[r]);
            lemma_head(block, names);
            let (arguments, bindings) = head_of(block, names)->Ok_0;
            assert(is_head_argument(block, names[k], arguments[1 + k], bindings));
            lemma_quoted(s);
            let texts = head_argument_texts(arguments[1 + k]);
            assert(texts =~= seq![s]);
            assert(texts[0] == s);
            lemma_head_text(arguments, 1 + k, s);
            lemma_rule_head_text(case.state.rules, r, s);
            lemma_with_all(case.state.table, rules_texts(case.state.rules));
        },
    }
}

/// A text that a reference comes to is in the table.
proof fn lemma_found_text(case: CaseModel, target: ReferenceModel, depth: nat)
    requires
        case.wf(),
        value_at(case.blocks, target, depth) is Some,
    ensures
        is_known_text(value_at(case.blocks, target, depth)->0, case.table()),
    decreases depth,
{
    let b = lemma_found_from(case.blocks, (target.block_type, target.block_label));
    let block = case.blocks[b];
    match value_of(block.attributes, target.field) {
        Some(HclExprModel::Reference(next)) => {
            lemma_found_text(case, next, (depth - 1) as nat);
        },
        Some(HclExprModel::Literal(HclValueModel::String(s))) => {
            let i = place_of(block.attributes, target.field)->0;
            assert(0 <= i < block.attributes.len() && block.attributes[i].0 == target.field);
            lemma_attribute_named(case.blocks, b, i);
            let names = names_for(case.blocks, block.block_type);
            let k = choose|k: int| 0 <= k < names.len() && names[k] == target.field;
            lemma_written_text(case, b, k, s);
        },
        _ => {},
    }
}

/// What is known of an output.
proof fn lemma_info(
    state: TranslationModel,
    blocks: Seq<HclResourceModel>,
    schema: Seq<(Seq<char>, Seq<Seq<char>>)>,
    variables: Seq<(Seq<char>, HclValueModel)>,
    outputs: Seq<HclOutputModel>,
    o: int,
)
    requires
        with_outputs(state, blocks, schema, variables, outputs) is Ok,
        0 <= o < outputs.len(),
    ensures
        ({
            let infos = with_outputs(state, blocks, schema, variables, outputs)->Ok_0.1;
            &&& infos.len() == outputs.len()
            &&& infos[o] == output_info(
                outputs[o].name,
                match resolved(outputs[o].value, variables) {
                    HclExprModel::Reference(target) => target_type(blocks, target),
                    expr => type_for(expr),
                },
            )
        }),
    decreases outputs.len(),
{
    let front = outputs.drop_last();
    if front.len() > 0 {
        if o < front.len() {
            lemma_info(state, blocks, schema, variables, front, o);
            assert(front[o] == outputs[o]);
        } else {
            lemma_info(state, blocks, schema, variables, front, 0);
        }
    } else {
        assert(with_outputs(state, blocks, schema, variables, front)->Ok_0.1.len() == 0);
    }
    let before = with_outputs(state, blocks, schema, variables, front)->Ok_0;
    let last = with_output(before.0, blocks, schema, variables, outputs.last())->Ok_0;
    let infos = with_outputs(state, blocks, schema, variables, outputs)->Ok_0.1;
    assert(infos == before.1.push(last.1));
    assert(before.1.len() == front.len());
    if o < front.len() {
        assert(infos[o] == before.1[o]);
    } else {
        assert(infos[o] == last.1);
        assert(outputs[o] == outputs.last());
    }
}

/// What is shown of an output is the text of the value that it comes to: the number that
/// the relation of the output holds is decoded by the type that is known of the output.
pub proof fn law_outputs_show_their_values(
    program: HclProgramModel,
    analysis: DependencyAnalysisModel,
    state: TranslationModel,
    infos: Seq<OutputInfoModel>,
    o: int,
    value: HclValueModel,
)
    requires
        program.resources.len() <= usize::MAX,
        forall|i: int|
            0 <= i < program.resources.len() ==> unique_keys(
                (#[trigger] program.resources[i]).attributes,
            ),
        is_analysis(resolved_program(program).resources, analysis),
        translated_program(program, analysis) == Ok::<
            (TranslationModel, Seq<OutputInfoModel>),
            Seq<char>,
        >((state, infos)),
        is_followable(program),
        state.table.no_duplicates(),
        full_table(state).len() <= i32::MAX,
        0 <= o < program.outputs.len(),
        output_comes_to(
            resolved_program(program).resources,
            resolved(program.outputs[o].value, program.variables),
            value,
        ),
    ensures
        infos.len() == program.outputs.len(),
        infos[o].name == program.outputs[o].name,
        infos[o].relation_name == relation_for(program.outputs[o].name),
        decoded_value(
            value_number(value, full_table(state)),
            infos[o].column_types,
            0,
            full_table(state),
        ) == value_text(value),
{
    let case = case_of(program, analysis, state);
    let blocks = case.blocks;
    let table = full_table(state);
    let expr = resolved(program.outputs[o].value, program.variables);
    lemma_case_wf(program, analysis, state, infos);
    lemma_case(case);
    lemma_info(case.base, blocks, schema_of(blocks), program.variables, program.outputs, o);
    match expr {
        HclExprModel::Literal(literal) => {
            let name = relation_for(case.outputs[o].name);
            assert(is_written(table, case.variables, case.outputs[o], case.state));
            let i = choose|i: int|
                0 <= i < facts_under(case.state.facts, name).len() && is_output_fact(
                    case.variables,
                    case.outputs[o],
                    table,
                    name,
                    #[trigger] facts_under(case.state.facts, name)[i],
                );
        },
        HclExprModel::Reference(target) => {
            let depth = choose|depth: nat| #[trigger]
                value_at(blocks, target, depth) == Some(value);
            lemma_few_references(blocks, target, depth);
            lemma_type_after(blocks, target, blocks.len());
            lemma_found_text(case, target, depth);
        },
        HclExprModel::VarRef(_) => {},
    }
    if let HclValueModel::String(s) = value {
        lemma_numbers_differ(table, s, s);
    }
}

} // verus!
