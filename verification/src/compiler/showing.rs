//! The relations of outputs hold what the outputs refer to.
use vstd::prelude::*;
use crate::catalog::head::{first_heads, head_idb};
use crate::compiler::asking::{output_rule, relation_for, with_outputs};
use crate::compiler::complete::{
    has_attribute, law_blocks_are_known, law_types_have_the_attributes_of_their_blocks,
};
use crate::compiler::naming::variable_name;
use crate::compiler::outputs::OutputInfoModel;
use crate::compiler::resolving::{
    are_targets, comes_to, feeds, is_bound_by, is_head_argument, is_made_of, is_taken, is_whole,
    law_references_come_to_one_value, lemma_body, lemma_body_meaning, lemma_constant_value,
    lemma_deeper_in, lemma_feeds, lemma_head, lemma_quoted, lemma_targets, takes, target_atom,
    value_at, value_in,
};
use crate::compiler::stating::{
    adds_outputs, has_fact_from, has_output_fact, has_output_rule, has_rule_from, is_asked,
    is_block_fact, is_block_rule, is_output_fact, is_output_rule, is_stated, is_tuple_of,
    is_written, lemma_blocks_stated, lemma_facts_entered, lemma_outputs_added, states_blocks,
};
use crate::compiler::string_table::number_of;
use crate::compiler::translate::{
    block_with, facts_under, head_of, is_block_in, names_under, repeated, rule_of, schema_of,
    targets_of, translated, translated_program, tuple_of, value_number, var_for, BindingModel,
    TargetModel, TranslationModel,
};
use crate::executing::evaluating::{
    are_evaluated, are_positive, gather_of, is_derivable, is_model,
    law_positive_programs_give_the_least, law_strata_give_what_the_program_says,
};
use crate::executing::meaning::{
    atom_holds, head_value, is_answer, is_head_row, row_fits, satisfies, Database, Valuation,
};
use crate::hcl_types::{
    HclExprModel, HclOutputModel, HclProgramModel, HclResourceModel, HclValueModel, ReferenceModel,
};
use crate::lists::{group_take, lemma_lookup_push, lookup, unique_keys};
use crate::ordered::{place_of, value_of};
use crate::parsing::head::HeadArgModel;
use crate::parsing::rule::{AtomArgModel, FLRuleModel, PredicateModel};
use crate::reading::interner::{
    argument_texts, arguments_texts, body_texts, coded_atom, coded_head_argument, coded_rule,
    coded_rules, head_texts, lemma_numbers_differ, predicate_texts, rules_texts, table_with_all,
};
use crate::reference::{
    ids_in, is_analysis, is_block_order, kind_of, law_order_has_all_blocks, resolved,
    resolved_program, BlockKind, DependencyAnalysisModel,
};
use crate::strata::dependencies::{dependencies, negates};
use crate::strata::stratification::is_stratification;

verus! {

/// A tuple as a row.
pub open spec fn as_row(tuple: Seq<i32>) -> Seq<i64> {
    Seq::new(tuple.len(), |i: int| tuple[i] as i64)
}

/// The rows that facts give relations.
pub open spec fn fact_rows(facts: Seq<(Seq<char>, Seq<Seq<i32>>)>) -> Database {
    |name: Seq<char>, row: Seq<i64>|
        exists|i: int|
            0 <= i < facts_under(facts, name).len() && row == as_row(
                #[trigger] facts_under(facts, name)[i],
            )
}

/// The table of a translated program once the texts of its constants are in it.
pub open spec fn full_table(state: TranslationModel) -> Seq<Seq<char>> {
    table_with_all(state.table, rules_texts(state.rules))
}

/// The rules of a translated program with their constants as numbers.
pub open spec fn final_rules(state: TranslationModel) -> Seq<FLRuleModel> {
    coded_rules(state.rules, full_table(state))
}

/// Whether an output comes to a value.
pub open spec fn output_comes_to(
    blocks: Seq<HclResourceModel>,
    expr: HclExprModel,
    value: HclValueModel,
) -> bool {
    match expr {
        HclExprModel::Literal(literal) => value == literal,
        HclExprModel::Reference(target) => comes_to(blocks, target, value),
        HclExprModel::VarRef(_) => false,
    }
}

/// Whether the references of a block can be told apart: no two attributes refer to the
/// same attribute, or have the same variable in the rule of the block.
pub open spec fn refers_apart(block: HclResourceModel) -> bool {
    forall|i: int, j: int|
        0 <= i < j < block.attributes.len() && (#[trigger] block.attributes[i]).1 is Reference && (
        #[trigger] block.attributes[j]).1 is Reference ==> block.attributes[i].1
            != block.attributes[j].1 && variable_name(block.attributes[i].0) != variable_name(
            block.attributes[j].0,
        )
}

/// Whether a block refers only to attributes that blocks of the type have.
pub open spec fn refers_to_fields(
    block: HclResourceModel,
    schema: Seq<(Seq<char>, Seq<Seq<char>>)>,
) -> bool {
    forall|i: int|
        0 <= i < block.attributes.len() ==> ((#[trigger] block.attributes[i]).1 matches
            HclExprModel::Reference(target) ==> names_under(schema, target.block_type).contains(
            target.field,
        ))
}

/// Whether blocks are as the law asks.
pub open spec fn are_plain(blocks: Seq<HclResourceModel>) -> bool {
    &&& blocks.len() <= usize::MAX
    &&& repeated(blocks) is None
    &&& forall|i: int|
        0 <= i < blocks.len() ==> unique_keys((#[trigger] blocks[i]).attributes) && refers_apart(
            blocks[i],
        ) && refers_to_fields(blocks[i], schema_of(blocks))
}

proof fn lemma_ids_differ(blocks: Seq<HclResourceModel>, i: int, j: int)
    requires
        repeated(blocks) is None,
        0 <= i < j < blocks.len(),
    ensures
        blocks[i].id() != blocks[j].id(),
    decreases blocks.len(),
{
    let front = blocks.drop_last();
    if j < front.len() {
        lemma_ids_differ(front, i, j);
    } else {
        assert(!is_block_in(front, blocks.last().id()));
        assert(front[i] == blocks[i]);
    }
}

/// The block with the type and label of a block is that block.
proof fn lemma_found(blocks: Seq<HclResourceModel>, i: int)
    requires
        repeated(blocks) is None,
        0 <= i < blocks.len(),
    ensures
        block_with(blocks, blocks[i].id()) == Some(blocks[i]),
    decreases blocks.len(),
{
    let front = blocks.drop_last();
    if i < front.len() {
        lemma_ids_differ(blocks, i, blocks.len() - 1);
        assert(front[i] == blocks[i]);
        lemma_found(front, i);
    }
}

/// A block that is found is one of the blocks.
pub proof fn lemma_found_from(blocks: Seq<HclResourceModel>, id: (Seq<char>, Seq<char>)) -> (i: int)
    requires
        block_with(blocks, id) is Some,
    ensures
        0 <= i < blocks.len(),
        block_with(blocks, id) == Some(blocks[i]),
        blocks[i].id() == id,
    decreases blocks.len(),
{
    if blocks.last().id() == id {
        blocks.len() - 1
    } else {
        lemma_found_from(blocks.drop_last(), id)
    }
}

/// The names of the attributes of a type.
pub open spec fn names_for(blocks: Seq<HclResourceModel>, block_type: Seq<char>) -> Seq<
    Seq<char>,
> {
    names_under(schema_of(blocks), block_type)
}

/// The attributes of a block are among those of its type.
pub proof fn lemma_attribute_named(blocks: Seq<HclResourceModel>, b: int, k: int)
    requires
        0 <= b < blocks.len(),
        0 <= k < blocks[b].attributes.len(),
    ensures
        names_for(blocks, blocks[b].block_type).contains(blocks[b].attributes[k].0),
{
    let name = blocks[b].attributes[k].0;
    law_types_have_the_attributes_of_their_blocks(blocks, blocks[b].block_type, name);
    assert(has_attribute(blocks, blocks[b].block_type, name, b, k));
}

/// A block is whole exactly where all attributes of its type come to something, if it
/// has them all.
proof fn lemma_whole(blocks: Seq<HclResourceModel>, b: int, depth: nat)
    requires
        0 <= b < blocks.len(),
        forall|k: int|
            0 <= k < names_for(blocks, blocks[b].block_type).len() ==> value_of(
                blocks[b].attributes,
                #[trigger] names_for(blocks, blocks[b].block_type)[k],
            ) is Some,
    ensures
        is_whole(blocks, blocks[b], depth) <==> forall|k: int|
            0 <= k < names_for(blocks, blocks[b].block_type).len() ==> value_in(
                blocks,
                blocks[b],
                #[trigger] names_for(blocks, blocks[b].block_type)[k],
                depth,
            ) is Some,
{
    let block = blocks[b];
    let names = names_for(blocks, block.block_type);
    if is_whole(blocks, block, depth) {
        assert forall|k: int| 0 <= k < names.len() implies value_in(
            blocks,
            block,
            #[trigger] names[k],
            depth,
        ) is Some by {
            assert(value_of(block.attributes, names[k]) is Some);
            let i = place_of(block.attributes, names[k])->0;
            assert(0 <= i < block.attributes.len() && block.attributes[i].0 == names[k]);
        }
    }
    if forall|k: int|
        0 <= k < names.len() ==> value_in(blocks, block, #[trigger] names[k], depth) is Some {
        assert forall|i: int| 0 <= i < block.attributes.len() implies value_in(
            blocks,
            block,
            (#[trigger] block.attributes[i]).0,
            depth,
        ) is Some by {
            lemma_attribute_named(blocks, b, i);
            let k = choose|k: int| 0 <= k < names.len() && names[k] == block.attributes[i].0;
            assert(value_in(blocks, block, names[k], depth) is Some);
        }
    }
}

/// A value as a value of a row.
pub open spec fn code(value: HclValueModel, table: Seq<Seq<char>>) -> i64 {
    value_number(value, table) as i64
}

/// The row of a block.
pub open spec fn block_row(
    blocks: Seq<HclResourceModel>,
    block: HclResourceModel,
    table: Seq<Seq<char>>,
    depth: nat,
) -> Seq<i64> {
    let names = names_for(blocks, block.block_type);
    Seq::new(
        1 + names.len(),
        |i: int|
            if i == 0 {
                number_of(table, block.label) as i64
            } else {
                code(value_in(blocks, block, names[i - 1], depth)->0, table)
            },
    )
}

pub open spec fn is_block_row(
    blocks: Seq<HclResourceModel>,
    table: Seq<Seq<char>>,
    b: int,
    depth: nat,
    name: Seq<char>,
    row: Seq<i64>,
) -> bool {
    &&& 0 <= b < blocks.len()
    &&& blocks[b].block_type == name
    &&& is_whole(blocks, blocks[b], depth)
    &&& row == block_row(blocks, blocks[b], table, depth)
}

/// Whether a row is what an output comes to.
pub open spec fn is_output_row(
    blocks: Seq<HclResourceModel>,
    expr: HclExprModel,
    table: Seq<Seq<char>>,
    row: Seq<i64>,
) -> bool {
    exists|value: HclValueModel| #[trigger]
        output_comes_to(blocks, expr, value) && row == seq![code(value, table)]
}

/// What blocks and outputs come to, as a database.
pub open spec fn meant(
    blocks: Seq<HclResourceModel>,
    variables: Seq<(Seq<char>, HclValueModel)>,
    outputs: Seq<HclOutputModel>,
    table: Seq<Seq<char>>,
) -> Database {
    |name: Seq<char>, row: Seq<i64>|
        {
            ||| exists|b: int, depth: nat| #[trigger]
                is_block_row(blocks, table, b, depth, name, row)
            ||| exists|o: int|
                0 <= o < outputs.len() && name == relation_for((#[trigger] outputs[o]).name)
                    && is_output_row(blocks, resolved(outputs[o].value, variables), table, row)
        }
}

/// An attribute that is found stands in its place.
proof fn lemma_attribute(block: HclResourceModel, name: Seq<char>) -> (i: int)
    requires
        value_of(block.attributes, name) is Some,
    ensures
        0 <= i < block.attributes.len(),
        block.attributes[i].0 == name,
        value_of(block.attributes, name) == Some(block.attributes[i].1),
{
    let i = place_of(block.attributes, name)->0;
    assert(0 <= i < block.attributes.len() && block.attributes[i].0 == name);
    i
}

/// Two attributes that refer to the same, or have the same variable, are the same.
proof fn lemma_same_attribute(block: HclResourceModel, a: Seq<char>, b: Seq<char>)
    requires
        refers_apart(block),
        value_of(block.attributes, a) matches Some(expr) && expr is Reference,
        value_of(block.attributes, b) matches Some(expr) && expr is Reference,
        value_of(block.attributes, a) == value_of(block.attributes, b) || variable_name(a)
            == variable_name(b),
    ensures
        a == b,
{
    let i = lemma_attribute(block, a);
    let j = lemma_attribute(block, b);
    if i < j {
        assert(block.attributes[i].1 != block.attributes[j].1);
    } else if j < i {
        assert(block.attributes[j].1 != block.attributes[i].1);
    }
}

proof fn lemma_var_for(fields: Seq<(Seq<char>, Seq<char>)>, name: Seq<char>)
    ensures
        var_for(fields, name) matches Some(var) ==> fields.contains((var, name)),
        (exists|j: int| 0 <= j < fields.len() && (#[trigger] fields[j]).1 == name) ==> var_for(
            fields,
            name,
        ) is Some,
    decreases fields.len(),
{
    if fields.len() > 0 {
        let front = fields.drop_last();
        lemma_var_for(front, name);
        assert(fields[fields.len() - 1] == fields.last());
        if let Some(var) = var_for(front, name) {
            let j = choose|j: int| 0 <= j < front.len() && front[j] == (var, name);
            assert(fields[j] == (var, name));
        } else if fields.last().1 == name {
            assert(fields[fields.len() - 1] == (fields.last().0, name));
        }
        if exists|j: int| 0 <= j < fields.len() && (#[trigger] fields[j]).1 == name {
            let j = choose|j: int| 0 <= j < fields.len() && (#[trigger] fields[j]).1 == name;
            if j < front.len() {
                assert(front[j].1 == name);
            }
        }
    }
}

/// What a variable of a target refers to.
proof fn lemma_field(
    block: HclResourceModel,
    names: Seq<Seq<char>>,
    bindings: Seq<BindingModel>,
    target: TargetModel,
    var: Seq<char>,
    field: Seq<char>,
) -> (k: int)
    requires
        is_made_of(target, bindings),
        forall|i: int|
            0 <= i < bindings.len() ==> is_bound_by(block, names, #[trigger] bindings[i]),
        target.fields.contains((var, field)),
    ensures
        0 <= k < names.len(),
        var == variable_name(names[k]),
        value_of(block.attributes, names[k]) == Some(
            HclExprModel::Reference(
                ReferenceModel {
                    block_type: target.block_type,
                    block_label: target.block_label,
                    field,
                },
            ),
        ),
{
    let j = choose|j: int| 0 <= j < target.fields.len() && target.fields[j] == (var, field);
    let wanted = BindingModel {
        var: target.fields[j].0,
        target: ReferenceModel {
            block_type: target.block_type,
            block_label: target.block_label,
            field: target.fields[j].1,
        },
    };
    assert(bindings.contains(wanted));
    let i = choose|i: int| 0 <= i < bindings.len() && bindings[i] == wanted;
    assert(is_bound_by(block, names, bindings[i]));
    choose|k: int|
        0 <= k < names.len() && value_of(block.attributes, #[trigger] names[k]) == Some(
            HclExprModel::Reference(bindings[i].target),
        ) && bindings[i].var == variable_name(names[k])
}

/// The atom for the block that an attribute refers to gives the variable of the attribute.
proof fn lemma_given(
    block: HclResourceModel,
    names: Seq<Seq<char>>,
    bindings: Seq<BindingModel>,
    targets: Seq<(Seq<char>, TargetModel)>,
    name: Seq<char>,
    target: ReferenceModel,
) -> (i: int)
    requires
        refers_apart(block),
        are_targets(targets, bindings),
        forall|i: int|
            0 <= i < bindings.len() ==> is_bound_by(block, names, #[trigger] bindings[i]),
        bindings.contains(BindingModel { var: variable_name(name), target }),
        value_of(block.attributes, name) == Some(HclExprModel::Reference(target)),
    ensures
        0 <= i < targets.len(),
        targets[i].1.block_type == target.block_type,
        targets[i].1.block_label == target.block_label,
        var_for(targets[i].1.fields, target.field) == Some(variable_name(name)),
{
    let binding = BindingModel { var: variable_name(name), target };
    let b = choose|b: int| 0 <= b < bindings.len() && bindings[b] == binding;
    assert(is_taken(targets, bindings[b]));
    let i = choose|i: int| 0 <= i < targets.len() && takes((#[trigger] targets[i]).1, bindings[b]);
    let own = targets[i].1;
    let j = choose|j: int|
        0 <= j < own.fields.len() && own.fields[j] == (binding.var, target.field);
    assert(own.fields[j].1 == target.field);
    lemma_var_for(own.fields, target.field);
    let var = var_for(own.fields, target.field)->0;
    let k = lemma_field(block, names, bindings, own, var, target.field);
    assert(value_of(block.attributes, names[k]) == Some(HclExprModel::Reference(target)));
    lemma_same_attribute(block, name, names[k]);
    i
}

/// What the body of the rule of a block says.
proof fn lemma_rule_body(
    db: Database,
    block: HclResourceModel,
    names: Seq<Seq<char>>,
    schema: Seq<(Seq<char>, Seq<Seq<char>>)>,
    rule: FLRuleModel,
    table: Seq<Seq<char>>,
    valuation: Valuation,
)
    requires
        rule_of(block, names, schema) == Ok::<FLRuleModel, Seq<char>>(rule),
    ensures
        ({
            let (arguments, bindings) = head_of(block, names)->Ok_0;
            let targets = targets_of(bindings);
            &&& rule.head.name == block.block_type
            &&& rule.head.head_arguments == arguments
            &&& satisfies(db, coded_rule(rule, table), valuation) <==> forall|i: int|
                0 <= i < targets.len() ==> is_fed(
                    db,
                    (#[trigger] targets[i]).1,
                    schema,
                    table,
                    valuation,
                )
        }),
{
    let (arguments, bindings) = head_of(block, names)->Ok_0;
    let targets = targets_of(bindings);
    lemma_body(targets, schema);
    let atoms = Seq::new(targets.len(), |i: int| target_atom(targets[i].1, schema));
    assert forall|i: int| 0 <= i < atoms.len() implies #[trigger] rule.rhs[i]
        == PredicateModel::AtomPredicate(atoms[i]) by {}
    lemma_body_meaning(db, rule, table, atoms, valuation);
    assert forall|i: int| 0 <= i < targets.len() implies is_fed(
        db,
        (#[trigger] targets[i]).1,
        schema,
        table,
        valuation,
    ) == atom_holds(db, coded_atom(atoms[i], table), valuation) by {
        lemma_fed(db, targets[i].1, schema, table, valuation);
    }
    if satisfies(db, coded_rule(rule, table), valuation) {
        assert forall|i: int| 0 <= i < targets.len() implies is_fed(
            db,
            (#[trigger] targets[i]).1,
            schema,
            table,
            valuation,
        ) by {
            assert(atom_holds(db, coded_atom(atoms[i], table), valuation));
        }
    }
    if forall|i: int|
        0 <= i < targets.len() ==> is_fed(
            db,
            (#[trigger] targets[i]).1,
            schema,
            table,
            valuation,
        ) {
        assert forall|i: int| 0 <= i < atoms.len() implies atom_holds(
            db,
            coded_atom(#[trigger] atoms[i], table),
            valuation,
        ) by {
            assert(is_fed(db, targets[i].1, schema, table, valuation));
        }
    }
}

/// Whether a database has a row that a target takes its variables from.
pub open spec fn is_fed(
    db: Database,
    target: TargetModel,
    schema: Seq<(Seq<char>, Seq<Seq<char>>)>,
    table: Seq<Seq<char>>,
    valuation: Valuation,
) -> bool {
    exists|row: Seq<i64>|
        db(target.block_type, row) && #[trigger] feeds(
            target,
            value_of(schema, target.block_type)->0,
            table,
            valuation,
            row,
        )
}

proof fn lemma_fed(
    db: Database,
    target: TargetModel,
    schema: Seq<(Seq<char>, Seq<Seq<char>>)>,
    table: Seq<Seq<char>>,
    valuation: Valuation,
)
    ensures
        is_fed(db, target, schema, table, valuation) <==> atom_holds(
            db,
            coded_atom(target_atom(target, schema), table),
            valuation,
        ),
{
    let names = value_of(schema, target.block_type)->0;
    let atom = coded_atom(target_atom(target, schema), table);
    if is_fed(db, target, schema, table, valuation) {
        let row = choose|row: Seq<i64>|
            db(target.block_type, row) && #[trigger] feeds(target, names, table, valuation, row);
        lemma_feeds(target, names, table, valuation, row);
        assert(db(atom.name, row) && row_fits(valuation, atom.arguments, row));
    }
    if atom_holds(db, atom, valuation) {
        let row = choose|row: Seq<i64>|
            db(atom.name, row) && #[trigger] row_fits(valuation, atom.arguments, row);
        lemma_feeds(target, names, table, valuation, row);
        assert(feeds(target, names, table, valuation, row));
    }
}

/// A program and what it was translated into: its blocks, and then its outputs.
#[verifier::ext_equal]
pub struct CaseModel {
    pub blocks: Seq<HclResourceModel>,
    pub variables: Seq<(Seq<char>, HclValueModel)>,
    pub outputs: Seq<HclOutputModel>,
    pub analysis: DependencyAnalysisModel,
    pub base: TranslationModel,
    pub state: TranslationModel,
}

impl CaseModel {
    pub open spec fn table(self) -> Seq<Seq<char>> {
        full_table(self.state)
    }

    pub open spec fn schema(self) -> Seq<(Seq<char>, Seq<Seq<char>>)> {
        schema_of(self.blocks)
    }

    pub open spec fn meant(self) -> Database {
        meant(self.blocks, self.variables, self.outputs, self.table())
    }

    /// Whether the parts belong together, and the blocks are as the law asks.
    pub open spec fn wf(self) -> bool {
        &&& are_plain(self.blocks)
        &&& is_analysis(self.blocks, self.analysis)
        &&& translated(
            self.blocks,
            self.analysis.block_kinds,
            self.analysis.topo_order,
        ) == Ok::<TranslationModel, Seq<char>>(self.base)
        &&& with_outputs(
            self.base,
            self.blocks,
            self.schema(),
            self.variables,
            self.outputs,
        ) matches Ok((state, infos)) && state == self.state
        &&& self.state.table.no_duplicates()
        &&& self.table().len() <= i32::MAX
        &&& forall|o: int|
            0 <= o < self.outputs.len() ==> value_of(
                self.schema(),
                relation_for((#[trigger] self.outputs[o]).name),
            ) is None
    }
}

pub proof fn lemma_with_all(table: Seq<Seq<char>>, texts: Seq<Seq<char>>)
    requires
        table.no_duplicates(),
    ensures
        table_with_all(table, texts).no_duplicates(),
        table.is_prefix_of(table_with_all(table, texts)),
        forall|s: Seq<char>| #[trigger]
            texts.contains(s) ==> table_with_all(table, texts).contains(s),
    decreases texts.len(),
{
    if texts.len() > 0 {
        let front = texts.drop_last();
        let last = texts.last();
        lemma_with_all(table, front);
        let before = table_with_all(table, front);
        let after = table_with_all(table, texts);
        assert(before.is_prefix_of(after));
        assert forall|s: Seq<char>| #[trigger] before.contains(s) implies after.contains(s) by {
            let i = choose|i: int| 0 <= i < before.len() && before[i] == s;
            assert(after[i] == s);
        }
        assert(after.contains(last)) by {
            if !before.contains(last) {
                assert(after[before.len() as int] == last);
            }
        }
        assert forall|s: Seq<char>| #[trigger] texts.contains(s) implies after.contains(s) by {
            let i = choose|i: int| 0 <= i < texts.len() && texts[i] == s;
            if i < front.len() {
                assert(front[i] == s);
                assert(front.contains(s));
            }
        }
        assert(after.no_duplicates()) by {
            assert forall|i: int, j: int| 0 <= i < after.len() && 0 <= j < after.len() && i
                != j implies after[i] != after[j] by {
                if !before.contains(last) {
                    if i == before.len() {
                        assert(before.contains(before[j]));
                    } else if j == before.len() {
                        assert(before.contains(before[i]));
                    } else {
                        assert(before[i] != before[j]);
                    }
                }
            }
        }
    }
}

pub proof fn lemma_either(a: Seq<Seq<char>>, b: Seq<Seq<char>>, s: Seq<char>)
    requires
        a.contains(s) || b.contains(s),
    ensures
        (a + b).contains(s),
{
    if a.contains(s) {
        let i = choose|i: int| 0 <= i < a.len() && a[i] == s;
        assert((a + b)[i] == s);
    } else {
        let i = choose|i: int| 0 <= i < b.len() && b[i] == s;
        assert((a + b)[a.len() + i] == s);
    }
}

proof fn lemma_argument_text(
    arguments: Seq<AtomArgModel>,
    k: int,
    s: Seq<char>,
)
    requires
        0 <= k < arguments.len(),
        argument_texts(arguments[k]).contains(s),
    ensures
        arguments_texts(arguments).contains(s),
    decreases arguments.len(),
{
    let front = arguments.drop_last();
    if k < front.len() {
        assert(front[k] == arguments[k]);
        lemma_argument_text(front, k, s);
    }
    lemma_either(arguments_texts(front), argument_texts(arguments.last()), s);
}

proof fn lemma_body_text(rhs: Seq<PredicateModel>, i: int, s: Seq<char>)
    requires
        0 <= i < rhs.len(),
        predicate_texts(rhs[i]).contains(s),
    ensures
        body_texts(rhs).contains(s),
    decreases rhs.len(),
{
    let front = rhs.drop_last();
    if i < front.len() {
        assert(front[i] == rhs[i]);
        lemma_body_text(front, i, s);
    }
    lemma_either(body_texts(front), predicate_texts(rhs.last()), s);
}

proof fn lemma_rule_text(rules: Seq<FLRuleModel>, r: int, s: Seq<char>)
    requires
        0 <= r < rules.len(),
        body_texts(rules[r].rhs).contains(s),
    ensures
        rules_texts(rules).contains(s),
    decreases rules.len(),
{
    let front = rules.drop_last();
    let last = rules.last();
    let head = head_texts(last.head.head_arguments);
    if r < front.len() {
        assert(front[r] == rules[r]);
        lemma_rule_text(front, r, s);
    } else {
        lemma_either(head, body_texts(last.rhs), s);
    }
    lemma_either(rules_texts(front), head + body_texts(last.rhs), s);
}

/// The label of a block that an atom of a rule asks for is in the table.
proof fn lemma_label_known(case: CaseModel, r: int, i: int, target: TargetModel)
    requires
        case.wf(),
        0 <= r < case.state.rules.len(),
        0 <= i < case.state.rules[r].rhs.len(),
        case.state.rules[r].rhs[i] == PredicateModel::AtomPredicate(
            target_atom(target, case.schema()),
        ),
    ensures
        case.table().contains(target.block_label),
{
    let rule = case.state.rules[r];
    let atom = target_atom(target, case.schema());
    let label = target.block_label;
    lemma_quoted(label);
    assert(argument_texts(atom.arguments[0]) =~= seq![label]);
    assert(argument_texts(atom.arguments[0])[0] == label);
    lemma_argument_text(atom.arguments, 0, label);
    lemma_body_text(rule.rhs, i, label);
    lemma_rule_text(case.state.rules, r, label);
    lemma_with_all(case.state.table, rules_texts(case.state.rules));
}

/// What facts and rules there are.
pub proof fn lemma_case(case: CaseModel)
    requires
        case.wf(),
    ensures
        case.table().no_duplicates(),
        states_blocks(case.blocks, case.analysis.topo_order, case.table(), case.base),
        adds_outputs(
            case.schema(),
            case.variables,
            case.outputs,
            case.table(),
            case.base,
            case.state,
        ),
{
    let table = case.table();
    let n = case.analysis.topo_order.len() as int;
    lemma_with_all(case.state.table, rules_texts(case.state.rules));
    assert(case.analysis.topo_order.take(n) =~= case.analysis.topo_order);
    lemma_unique_facts(case.blocks, case.analysis, n);
    lemma_outputs_added(
        case.base,
        case.blocks,
        case.schema(),
        case.variables,
        case.outputs,
        table,
    );
    lemma_blocks_stated(case.blocks, case.analysis, n, table);
}

/// Facts stand under different names.
proof fn lemma_unique_facts(
    blocks: Seq<HclResourceModel>,
    analysis: DependencyAnalysisModel,
    n: int,
)
    requires
        is_analysis(blocks, analysis),
        0 <= n <= analysis.topo_order.len(),
        translated(blocks, analysis.block_kinds, analysis.topo_order.take(n)) is Ok,
    ensures
        unique_keys(
            translated(blocks, analysis.block_kinds, analysis.topo_order.take(n))->Ok_0.facts,
        ),
    decreases n,
{
    broadcast use group_take;

    let order = analysis.topo_order;
    if n == 0 {
        assert(order.take(0) =~= Seq::empty());
    } else {
        let m = n - 1;
        assert(order.take(n).drop_last() == order.take(m));
        assert(order.take(n).last() == order[m]);
        lemma_unique_facts(blocks, analysis, m);
        law_blocks_are_known(blocks, analysis, m);
        let before = translated(blocks, analysis.block_kinds, order.take(m))->Ok_0;
        let block = block_with(blocks, order[m])->0;
        let names = value_of(schema_of(blocks), order[m].0)->0;
        if kind_of(block) is Edb {
            let tuple = tuple_of(block, names, before.table)->Ok_0.0;
            lemma_facts_entered(
                before.facts,
                block.block_type,
                tuple,
                block.block_type,
            );
        }
    }
}

/// Each block is translated.
pub proof fn lemma_block_stated(case: CaseModel, b: int)
    requires
        case.wf(),
        0 <= b < case.blocks.len(),
    ensures
        block_with(case.blocks, case.blocks[b].id()) == Some(case.blocks[b]),
        is_stated(case.blocks, case.blocks[b].id(), case.table(), case.base),
        value_of(case.schema(), case.blocks[b].block_type) is Some,
{
    let order = choose|order: Seq<usize>| #[trigger]
        is_block_order(case.blocks, order) && case.analysis.topo_order == ids_in(
            case.blocks,
            order,
        );
    lemma_case(case);
    lemma_found(case.blocks, b);
    law_order_has_all_blocks(case.blocks, order);
    assert(order.contains(b as usize));
    let k = choose|k: int| 0 <= k < order.len() && order[k] == b as usize;
    assert(case.analysis.topo_order[k] == case.blocks[b].id());
    assert(is_stated(case.blocks, case.analysis.topo_order[k], case.table(), case.base));
    law_blocks_are_known(case.blocks, case.analysis, k);
}

/// All attributes of the type of a block are there, and are written down or refer to
/// blocks.
pub proof fn lemma_block_attributes(case: CaseModel, b: int, k: int)
    requires
        case.wf(),
        0 <= b < case.blocks.len(),
        0 <= k < names_for(case.blocks, case.blocks[b].block_type).len(),
    ensures
        ({
            let name = names_for(case.blocks, case.blocks[b].block_type)[k];
            value_of(case.blocks[b].attributes, name) matches Some(expr) && (expr is Literal
                || expr is Reference) && (kind_of(case.blocks[b]) is Edb ==> expr is Literal)
        }),
{
    let block = case.blocks[b];
    let id = block.id();
    let names = names_for(case.blocks, block.block_type);
    lemma_block_stated(case, b);
    match kind_of(block) {
        BlockKind::Edb => {
            let i = choose|i: int|
                0 <= i < facts_under(case.base.facts, id.0).len() && is_block_fact(
                    case.blocks,
                    id,
                    case.table(),
                    id.0,
                    #[trigger] facts_under(case.base.facts, id.0)[i],
                );
            assert(is_tuple_of(block, names, case.table(), facts_under(case.base.facts, id.0)[i]));
            assert(value_of(block.attributes, names[k]) is Some);
        },
        BlockKind::Idb => {
            let r = choose|r: int|
                0 <= r < case.base.rules.len() && is_block_rule(
                    case.blocks,
                    id,
                    #[trigger] case.base.rules[r],
                );
            lemma_head(block, names);
            let (arguments, bindings) = head_of(block, names)->Ok_0;
            assert(is_head_argument(block, names[k], arguments[1 + k], bindings));
        },
    }
}

pub proof fn lemma_case_whole(case: CaseModel, b: int, depth: nat)
    requires
        case.wf(),
        0 <= b < case.blocks.len(),
    ensures
        is_whole(case.blocks, case.blocks[b], depth) <==> forall|k: int|
            0 <= k < names_for(case.blocks, case.blocks[b].block_type).len() ==> value_in(
                case.blocks,
                case.blocks[b],
                #[trigger] names_for(case.blocks, case.blocks[b].block_type)[k],
                depth,
            ) is Some,
{
    let names = names_for(case.blocks, case.blocks[b].block_type);
    assert forall|k: int| 0 <= k < names.len() implies value_of(
        case.blocks[b].attributes,
        #[trigger] names[k],
    ) is Some by {
        lemma_block_attributes(case, b, k);
    }
    lemma_whole(case.blocks, b, depth);
}

/// The row of a fact of a block is the row of the block.
proof fn lemma_fact_row(case: CaseModel, b: int, tuple: Seq<i32>, depth: nat)
    requires
        case.wf(),
        0 <= b < case.blocks.len(),
        is_block_fact(
            case.blocks,
            case.blocks[b].id(),
            case.table(),
            case.blocks[b].block_type,
            tuple,
        ),
    ensures
        is_block_row(
            case.blocks,
            case.table(),
            b,
            depth,
            case.blocks[b].block_type,
            as_row(tuple),
        ),
{
    let block = case.blocks[b];
    let names = names_for(case.blocks, block.block_type);
    lemma_block_stated(case, b);
    assert(is_tuple_of(block, names, case.table(), tuple));
    assert forall|k: int| 0 <= k < names.len() implies value_in(
        case.blocks,
        block,
        #[trigger] names[k],
        depth,
    ) is Some && tuple[1 + k] == value_number(
        value_in(case.blocks, block, names[k], depth)->0,
        case.table(),
    ) by {
        assert(value_of(block.attributes, names[k]) is Some);
    }
    lemma_case_whole(case, b, depth);
    let row = block_row(case.blocks, block, case.table(), depth);
    assert(as_row(tuple) =~= row) by {
        assert forall|i: int| 0 <= i < row.len() implies as_row(tuple)[i] == row[i] by {
            if i > 0 {
                assert(tuple[1 + (i - 1)] == value_number(
                    value_in(case.blocks, block, names[i - 1], depth)->0,
                    case.table(),
                ));
            }
        }
    }
}

/// What the facts of a program give is meant.
proof fn lemma_facts_are_meant(case: CaseModel, name: Seq<char>, row: Seq<i64>)
    requires
        case.wf(),
        fact_rows(case.state.facts)(name, row),
    ensures
        case.meant()(name, row),
{
    lemma_case(case);
    let all = facts_under(case.state.facts, name);
    let first = facts_under(case.base.facts, name);
    let i = choose|i: int| 0 <= i < all.len() && row == as_row(#[trigger] all[i]);
    let ids = case.analysis.topo_order;
    if i < first.len() {
        assert(first.is_prefix_of(all));
        assert(all[i] == first[i]);
        assert(has_fact_from(case.blocks, ids, case.table(), name, first[i]));
        let k = choose|k: int|
            0 <= k < ids.len() && is_block_fact(
                case.blocks,
                #[trigger] ids[k],
                case.table(),
                name,
                first[i],
            );
        let b = lemma_found_from(case.blocks, ids[k]);
        lemma_fact_row(case, b, first[i], 0);
        assert(is_block_row(case.blocks, case.table(), b, 0, name, row));
    } else {
        assert(has_output_fact(case.variables, case.outputs, case.table(), name, all[i]));
        let o = choose|o: int|
            0 <= o < case.outputs.len() && is_output_fact(
                case.variables,
                #[trigger] case.outputs[o],
                case.table(),
                name,
                all[i],
            );
        let expr = resolved(case.outputs[o].value, case.variables);
        let value = expr->Literal_0;
        assert(output_comes_to(case.blocks, expr, value));
        assert(row =~= seq![code(value, case.table())]);
        assert(is_output_row(case.blocks, expr, case.table(), row));
    }
}

/// A row that is meant and starts with the number of a label is that of the block with
/// the label.
proof fn lemma_meant_block(
    case: CaseModel,
    name: Seq<char>,
    label: Seq<char>,
    row: Seq<i64>,
) -> (out: (int, nat))
    requires
        case.wf(),
        value_of(case.schema(), name) is Some,
        case.meant()(name, row),
        row.len() > 0,
        row[0] == number_of(case.table(), label),
        case.table().contains(label),
    ensures
        is_block_row(case.blocks, case.table(), out.0, out.1, name, row),
        case.blocks[out.0].label == label,
{
    let table = case.table();
    assert(!(exists|o: int|
        0 <= o < case.outputs.len() && name == relation_for((#[trigger] case.outputs[o]).name)
            && is_output_row(
            case.blocks,
            resolved(case.outputs[o].value, case.variables),
            table,
            row,
        ))) by {
        assert forall|o: int| 0 <= o < case.outputs.len() implies name != relation_for(
            (#[trigger] case.outputs[o]).name,
        ) by {
            assert(value_of(case.schema(), relation_for(case.outputs[o].name)) is None);
        }
    }
    let (b, depth) = choose|b: int, depth: nat| #[trigger]
        is_block_row(case.blocks, table, b, depth, name, row);
    lemma_case(case);
    lemma_block_stated(case, b);
    lemma_numbers_differ(table, case.blocks[b].label, label);
    (b, depth)
}

/// What a row of a block says of an attribute that is referred to.
proof fn lemma_row_value(
    case: CaseModel,
    target: ReferenceModel,
    row: Seq<i64>,
    b: int,
    depth: nat,
    j: int,
)
    requires
        case.wf(),
        is_block_row(case.blocks, case.table(), b, depth, target.block_type, row),
        case.blocks[b].label == target.block_label,
        0 <= j < names_for(case.blocks, target.block_type).len(),
        names_for(case.blocks, target.block_type)[j] == target.field,
    ensures
        value_at(case.blocks, target, depth) matches Some(value) && row[1 + j] == code(
            value,
            case.table(),
        ),
{
    lemma_block_stated(case, b);
    assert(case.blocks[b].id() == (target.block_type, target.block_label));
    lemma_case_whole(case, b, depth);
    assert(value_in(
        case.blocks,
        case.blocks[b],
        names_for(case.blocks, target.block_type)[j],
        depth,
    ) is Some);
}

/// Where the body of the rule of a block holds of what is meant, an attribute that refers
/// to another block comes to the value of its variable.
proof fn lemma_attribute_value(
    case: CaseModel,
    r: int,
    b: int,
    k: int,
    valuation: Valuation,
) -> (depth: nat)
    requires
        case.wf(),
        0 <= r < case.state.rules.len(),
        0 <= b < case.blocks.len(),
        is_block_rule(case.blocks, case.blocks[b].id(), case.state.rules[r]),
        satisfies(case.meant(), coded_rule(case.state.rules[r], case.table()), valuation),
        0 <= k < names_for(case.blocks, case.blocks[b].block_type).len(),
        value_of(
            case.blocks[b].attributes,
            names_for(case.blocks, case.blocks[b].block_type)[k],
        ) matches Some(expr) && expr is Reference,
    ensures
        ({
            let name = names_for(case.blocks, case.blocks[b].block_type)[k];
            let target = value_of(case.blocks[b].attributes, name)->0->Reference_0;
            value_at(case.blocks, target, depth) matches Some(value) && valuation(
                variable_name(name),
            ) == code(value, case.table())
        }),
{
    let block = case.blocks[b];
    let schema = case.schema();
    let table = case.table();
    let names = names_for(case.blocks, block.block_type);
    let rule = case.state.rules[r];
    let target = value_of(block.attributes, names[k])->0->Reference_0;
    lemma_block_stated(case, b);
    lemma_head(block, names);
    let (arguments, bindings) = head_of(block, names)->Ok_0;
    let targets = targets_of(bindings);
    lemma_targets(bindings);
    assert(is_head_argument(block, names[k], arguments[1 + k], bindings));
    let i = lemma_given(block, names, bindings, targets, names[k], target);
    let own = targets[i].1;
    lemma_rule_body(case.meant(), block, names, schema, rule, table, valuation);
    assert(is_fed(case.meant(), own, schema, table, valuation));
    let fields = value_of(schema, own.block_type)->0;
    let row = choose|row: Seq<i64>|
        case.meant()(own.block_type, row) && #[trigger] feeds(own, fields, table, valuation, row);
    lemma_body(targets, schema);
    assert(rule.rhs[i] == PredicateModel::AtomPredicate(target_atom(own, schema)));
    lemma_label_known(case, r, i, own);
    let (at, depth) = lemma_meant_block(case, own.block_type, own.block_label, row);
    let a = lemma_attribute(block, names[k]);
    assert(names_under(schema, target.block_type).contains(target.field));
    let j = choose|j: int| 0 <= j < fields.len() && fields[j] == target.field;
    lemma_row_value(case, target, row, at, depth, j);
    assert(var_for(own.fields, fields[j]) == Some(variable_name(names[k])));
    depth
}

/// The attributes of a block come to something over one number of references.
proof fn lemma_common_depth(
    case: CaseModel,
    r: int,
    b: int,
    n: int,
    valuation: Valuation,
) -> (depth: nat)
    requires
        case.wf(),
        0 <= r < case.state.rules.len(),
        0 <= b < case.blocks.len(),
        is_block_rule(case.blocks, case.blocks[b].id(), case.state.rules[r]),
        satisfies(case.meant(), coded_rule(case.state.rules[r], case.table()), valuation),
        0 <= n <= names_for(case.blocks, case.blocks[b].block_type).len(),
    ensures
        forall|k: int|
            0 <= k < n ==> value_in(
                case.blocks,
                case.blocks[b],
                #[trigger] names_for(case.blocks, case.blocks[b].block_type)[k],
                depth,
            ) is Some,
    decreases n,
{
    if n == 0 {
        0
    } else {
        let block = case.blocks[b];
        let names = names_for(case.blocks, block.block_type);
        let before = lemma_common_depth(case, r, b, n - 1, valuation);
        lemma_block_attributes(case, b, n - 1);
        let own: nat = if value_of(block.attributes, names[n - 1])->0 is Reference {
            let d = lemma_attribute_value(case, r, b, n - 1, valuation);
            d + 1
        } else {
            0
        };
        assert(value_in(case.blocks, block, names[n - 1], own) is Some);
        let depth: nat = if before > own {
            before
        } else {
            own
        };
        assert forall|k: int| 0 <= k < n implies value_in(
            case.blocks,
            block,
            #[trigger] names[k],
            depth,
        ) is Some by {
            if k < n - 1 {
                lemma_deeper_in(case.blocks, block, names[k], before, depth);
            } else {
                lemma_deeper_in(case.blocks, block, names[k], own, depth);
            }
        }
        depth
    }
}

/// What the head of the rule of a block stands for is the row of the block, where the
/// variables have the values that the attributes come to.
proof fn lemma_head_is_row(
    case: CaseModel,
    b: int,
    rule: FLRuleModel,
    depth: nat,
    valuation: Valuation,
)
    requires
        case.wf(),
        0 <= b < case.blocks.len(),
        is_block_rule(case.blocks, case.blocks[b].id(), rule),
        is_whole(case.blocks, case.blocks[b], depth),
        forall|k: int|
            0 <= k < names_for(case.blocks, case.blocks[b].block_type).len() && value_of(
                case.blocks[b].attributes,
                names_for(case.blocks, case.blocks[b].block_type)[k],
            )->0 is Reference ==> valuation(
                variable_name(
                    #[trigger] names_for(case.blocks, case.blocks[b].block_type)[k],
                ),
            ) == code(
                value_in(
                    case.blocks,
                    case.blocks[b],
                    names_for(case.blocks, case.blocks[b].block_type)[k],
                    depth,
                )->0,
                case.table(),
            ),
    ensures
        is_head_row(
            valuation,
            coded_rule(rule, case.table()).head.head_arguments,
            block_row(case.blocks, case.blocks[b], case.table(), depth),
        ),
        coded_rule(rule, case.table()).head.name == case.blocks[b].block_type,
{
    let block = case.blocks[b];
    let table = case.table();
    let names = names_for(case.blocks, block.block_type);
    let row = block_row(case.blocks, block, table, depth);
    lemma_block_stated(case, b);
    lemma_case_whole(case, b, depth);
    lemma_head(block, names);
    let (arguments, bindings) = head_of(block, names)->Ok_0;
    let coded = coded_rule(rule, table).head.head_arguments;
    assert forall|i: int| 0 <= i < coded.len() implies head_value(
        valuation,
        #[trigger] coded[i],
    ) == Some(row[i]) by {
        assert(coded[i] == coded_head_argument(arguments[i], table));
        if i == 0 {
            lemma_constant_value(HclValueModel::String(block.label), table, valuation);
        } else {
            let name = names[i - 1];
            assert(is_head_argument(block, names[i - 1], arguments[1 + (i - 1)], bindings));
            assert(value_in(case.blocks, block, names[i - 1], depth) is Some);
            match value_of(block.attributes, name) {
                Some(HclExprModel::Literal(value)) => {
                    lemma_constant_value(value, table, valuation);
                },
                _ => {},
            }
        }
    }
}

/// What the rule of a block derives from what is meant is meant.
proof fn lemma_block_rule_is_meant(case: CaseModel, r: int, b: int, row: Seq<i64>)
    requires
        case.wf(),
        0 <= r < case.state.rules.len(),
        0 <= b < case.blocks.len(),
        is_block_rule(case.blocks, case.blocks[b].id(), case.state.rules[r]),
        is_answer(case.meant(), coded_rule(case.state.rules[r], case.table()), row),
    ensures
        case.meant()(coded_rule(case.state.rules[r], case.table()).head.name, row),
{
    let block = case.blocks[b];
    let table = case.table();
    let names = names_for(case.blocks, block.block_type);
    let rule = coded_rule(case.state.rules[r], table);
    let valuation = choose|valuation: Valuation| #[trigger]
        satisfies(case.meant(), rule, valuation) && is_head_row(
            valuation,
            rule.head.head_arguments,
            row,
        );
    let depth = lemma_common_depth(case, r, b, names.len() as int, valuation);
    lemma_case_whole(case, b, depth);
    assert forall|k: int|
        0 <= k < names.len() && value_of(
            block.attributes,
            names[k],
        )->0 is Reference implies valuation(variable_name(#[trigger] names[k])) == code(
        value_in(case.blocks, block, names[k], depth)->0,
        table,
    ) by {
        lemma_block_attributes(case, b, k);
        let target = value_of(block.attributes, names[k])->0->Reference_0;
        let d = lemma_attribute_value(case, r, b, k, valuation);
        assert(value_in(case.blocks, block, names[k], depth) is Some);
        let m = (depth - 1) as nat;
        assert(value_at(case.blocks, target, m) is Some);
        law_references_come_to_one_value(
            case.blocks,
            target,
            value_at(case.blocks, target, m)->0,
            value_at(case.blocks, target, d)->0,
        );
    }
    lemma_head_is_row(case, b, case.state.rules[r], depth, valuation);
    let wanted = block_row(case.blocks, block, table, depth);
    assert(row =~= wanted) by {
        assert forall|i: int| 0 <= i < row.len() implies row[i] == wanted[i] by {
            assert(head_value(valuation, rule.head.head_arguments[i]) == Some(row[i]));
            assert(head_value(valuation, rule.head.head_arguments[i]) == Some(wanted[i]));
        }
    }
    assert(is_block_row(case.blocks, table, b, depth, block.block_type, row));
}

/// The target of the rule of an output.
spec fn output_target(target: ReferenceModel) -> TargetModel {
    TargetModel {
        block_type: target.block_type,
        block_label: target.block_label,
        fields: seq![(variable_name(target.field), target.field)],
    }
}

/// What the rule of an output says.
proof fn lemma_output_rule(
    case: CaseModel,
    db: Database,
    name: Seq<char>,
    target: ReferenceModel,
    valuation: Valuation,
    row: Seq<i64>,
)
    requires
        value_of(case.schema(), target.block_type) is Some,
    ensures
        ({
            let names = value_of(case.schema(), target.block_type)->0;
            let rule = coded_rule(output_rule(name, target, names), case.table());
            &&& rule.head.name == relation_for(name)
            &&& satisfies(db, rule, valuation) <==> is_fed(
                db,
                output_target(target),
                case.schema(),
                case.table(),
                valuation,
            )
            &&& is_head_row(valuation, rule.head.head_arguments, row) <==> row == seq![
                valuation(variable_name(target.field)),
            ]
        }),
{
    let schema = case.schema();
    let table = case.table();
    let names = value_of(schema, target.block_type)->0;
    let plain = output_rule(name, target, names);
    let rule = coded_rule(plain, table);
    let own = output_target(target);
    let atoms = seq![target_atom(own, schema)];
    assert(plain.rhs[0] == PredicateModel::AtomPredicate(atoms[0]));
    lemma_body_meaning(db, plain, table, atoms, valuation);
    lemma_fed(db, own, schema, table, valuation);
    if satisfies(db, rule, valuation) {
        assert(atom_holds(db, coded_atom(atoms[0], table), valuation));
    }
    assert(rule.head.head_arguments =~= seq![HeadArgModel::Var(variable_name(target.field))]);
    if is_head_row(valuation, rule.head.head_arguments, row) {
        assert(head_value(valuation, rule.head.head_arguments[0]) == Some(row[0]));
        assert(row =~= seq![valuation(variable_name(target.field))]);
    }
}

proof fn lemma_output_var(target: ReferenceModel, name: Seq<char>)
    ensures
        var_for(output_target(target).fields, name) == if name == target.field {
            Some(variable_name(target.field))
        } else {
            None
        },
{
    let fields = output_target(target).fields;
    assert(fields.drop_last() =~= Seq::empty());
    assert(var_for(fields.drop_last(), name) is None);
}

/// What the rule of an output derives from what is meant is meant.
proof fn lemma_output_rule_is_meant(case: CaseModel, r: int, o: int, row: Seq<i64>)
    requires
        case.wf(),
        0 <= r < case.state.rules.len(),
        0 <= o < case.outputs.len(),
        is_output_rule(case.schema(), case.variables, case.outputs[o], case.state.rules[r]),
        is_answer(case.meant(), coded_rule(case.state.rules[r], case.table()), row),
    ensures
        case.meant()(coded_rule(case.state.rules[r], case.table()).head.name, row),
{
    let schema = case.schema();
    let table = case.table();
    let output = case.outputs[o];
    let expr = resolved(output.value, case.variables);
    let target = expr->Reference_0;
    let names = value_of(schema, target.block_type)->0;
    let own = output_target(target);
    let rule = coded_rule(case.state.rules[r], table);
    let valuation = choose|valuation: Valuation| #[trigger]
        satisfies(case.meant(), rule, valuation) && is_head_row(
            valuation,
            rule.head.head_arguments,
            row,
        );
    lemma_output_rule(case, case.meant(), output.name, target, valuation, row);
    assert(is_fed(case.meant(), own, schema, table, valuation));
    let found = choose|found: Seq<i64>|
        case.meant()(own.block_type, found) && #[trigger] feeds(
            own,
            names,
            table,
            valuation,
            found,
        );
    assert(case.state.rules[r].rhs[0] == PredicateModel::AtomPredicate(target_atom(own, schema)));
    lemma_label_known(case, r, 0, own);
    let (b, depth) = lemma_meant_block(case, own.block_type, own.block_label, found);
    let j = choose|j: int| 0 <= j < names.len() && names[j] == target.field;
    lemma_row_value(case, target, found, b, depth, j);
    lemma_output_var(target, names[j]);
    assert(var_for(own.fields, names[j]) == Some(variable_name(target.field)));
    let value = value_at(case.blocks, target, depth)->0;
    assert(comes_to(case.blocks, target, value));
    assert(output_comes_to(case.blocks, expr, value));
    assert(is_output_row(case.blocks, expr, table, row));
    assert(relation_for(case.outputs[o].name) == rule.head.name);
}

/// What is meant is closed under the rules of the program.
proof fn lemma_meant_is_model(case: CaseModel)
    requires
        case.wf(),
    ensures
        is_model(fact_rows(case.state.facts), case.meant(), final_rules(case.state)),
{
    let rules = final_rules(case.state);
    let input = fact_rows(case.state.facts);
    let db = case.meant();
    lemma_case(case);
    assert forall|name: Seq<char>, row: Seq<i64>| #![trigger db(name, row)]
        input(name, row) || is_derivable(db, rules, name, row) ==> db(name, row) by {
        if input(name, row) {
            lemma_facts_are_meant(case, name, row);
        } else if is_derivable(db, rules, name, row) {
            let r = choose|r: int|
                0 <= r < rules.len() && (#[trigger] rules[r]).head.name == name && is_answer(
                    db,
                    rules[r],
                    row,
                );
            assert(rules[r] == coded_rule(case.state.rules[r], case.table()));
            lemma_rule_is_meant(case, r, row);
        }
    }
}

proof fn lemma_rule_is_meant(case: CaseModel, r: int, row: Seq<i64>)
    requires
        case.wf(),
        0 <= r < case.state.rules.len(),
        is_answer(case.meant(), coded_rule(case.state.rules[r], case.table()), row),
    ensures
        case.meant()(coded_rule(case.state.rules[r], case.table()).head.name, row),
{
    lemma_case(case);
    let first = case.base.rules;
    let ids = case.analysis.topo_order;
    let rule = case.state.rules[r];
    if r < first.len() {
        assert(first[r] == rule);
        assert(has_rule_from(case.blocks, ids, first[r]));
        let k = choose|k: int|
            0 <= k < ids.len() && is_block_rule(case.blocks, #[trigger] ids[k], first[r]);
        let b = lemma_found_from(case.blocks, ids[k]);
        lemma_block_rule_is_meant(case, r, b, row);
    } else {
        assert(has_output_rule(case.schema(), case.variables, case.outputs, case.state.rules[r]));
        let o = choose|o: int|
            0 <= o < case.outputs.len() && is_output_rule(
                case.schema(),
                case.variables,
                #[trigger] case.outputs[o],
                rule,
            );
        lemma_output_rule_is_meant(case, r, o, row);
    }
}

/// The values that the variables of the rule of a block have.
spec fn block_valuation(case: CaseModel, b: int, depth: nat) -> Valuation {
    let block = case.blocks[b];
    let names = names_for(case.blocks, block.block_type);
    |var: Seq<char>|
        {
            let k = choose|k: int|
                0 <= k < names.len() && value_of(
                    block.attributes,
                    #[trigger] names[k],
                )->0 is Reference && variable_name(names[k]) == var;
            code(value_in(case.blocks, block, names[k], depth)->0, case.table())
        }
}

proof fn lemma_block_valuation(case: CaseModel, b: int, depth: nat, k: int)
    requires
        case.wf(),
        0 <= b < case.blocks.len(),
        0 <= k < names_for(case.blocks, case.blocks[b].block_type).len(),
        value_of(
            case.blocks[b].attributes,
            names_for(case.blocks, case.blocks[b].block_type)[k],
        )->0 is Reference,
    ensures
        block_valuation(case, b, depth)(
            variable_name(names_for(case.blocks, case.blocks[b].block_type)[k]),
        ) == code(
            value_in(
                case.blocks,
                case.blocks[b],
                names_for(case.blocks, case.blocks[b].block_type)[k],
                depth,
            )->0,
            case.table(),
        ),
{
    let block = case.blocks[b];
    let names = names_for(case.blocks, block.block_type);
    let var = variable_name(names[k]);
    let m = choose|m: int|
        0 <= m < names.len() && value_of(block.attributes, #[trigger] names[m])->0 is Reference
            && variable_name(names[m]) == var;
    assert(0 <= m < names.len() && value_of(block.attributes, names[m])->0 is Reference
        && variable_name(names[m]) == var);
    lemma_block_attributes(case, b, k);
    lemma_block_attributes(case, b, m);
    lemma_same_attribute(block, names[k], names[m]);
}

/// A target of the rule of a whole block is fed, where the rows of the blocks that it
/// refers to are there.
proof fn lemma_target_fed(
    case: CaseModel,
    db: Database,
    b: int,
    depth: nat,
    bindings: Seq<BindingModel>,
    target: TargetModel,
)
    requires
        case.wf(),
        0 <= b < case.blocks.len(),
        kind_of(case.blocks[b]) is Idb,
        is_whole(case.blocks, case.blocks[b], depth),
        is_made_of(target, bindings),
        target.fields.len() > 0,
        forall|i: int|
            0 <= i < bindings.len() ==> is_bound_by(
                case.blocks[b],
                names_for(case.blocks, case.blocks[b].block_type),
                #[trigger] bindings[i],
            ),
        depth > 0 ==> forall|a: int|
            0 <= a < case.blocks.len() && is_whole(
                case.blocks,
                #[trigger] case.blocks[a],
                (depth - 1) as nat,
            ) ==> db(
                case.blocks[a].block_type,
                block_row(case.blocks, case.blocks[a], case.table(), (depth - 1) as nat),
            ),
    ensures
        depth > 0,
        is_fed(db, target, case.schema(), case.table(), block_valuation(case, b, depth)),
{
    let block = case.blocks[b];
    let schema = case.schema();
    let table = case.table();
    let names = names_for(case.blocks, block.block_type);
    let valuation = block_valuation(case, b, depth);
    lemma_case_whole(case, b, depth);
    let first = target.fields[0];
    assert(target.fields.contains((first.0, first.1)));
    let k = lemma_field(block, names, bindings, target, first.0, first.1);
    let reference = value_of(block.attributes, names[k])->0->Reference_0;
    assert(value_in(case.blocks, block, names[k], depth) is Some);
    assert(depth > 0);
    let less = (depth - 1) as nat;
    assert(value_at(case.blocks, reference, less) is Some);
    let id = (target.block_type, target.block_label);
    let a = lemma_found_from(case.blocks, id);
    let other = case.blocks[a];
    lemma_block_stated(case, a);
    let fields = value_of(schema, target.block_type)->0;
    assert(fields == names_for(case.blocks, other.block_type));
    let row = block_row(case.blocks, other, table, less);
    assert(db(target.block_type, row));
    assert(feeds(target, fields, table, valuation, row)) by {
        assert forall|j: int| 0 <= j < fields.len() implies (var_for(
            target.fields,
            #[trigger] fields[j],
        ) matches Some(var) ==> row[1 + j] == valuation(var)) by {
            if let Some(var) = var_for(target.fields, fields[j]) {
                lemma_var_for(target.fields, fields[j]);
                let m = lemma_field(block, names, bindings, target, var, fields[j]);
                lemma_block_valuation(case, b, depth, m);
                let at = value_of(block.attributes, names[m])->0->Reference_0;
                assert(value_in(case.blocks, block, names[m], depth) == value_at(
                    case.blocks,
                    at,
                    less,
                ));
                assert(value_at(case.blocks, at, less) == value_in(
                    case.blocks,
                    other,
                    fields[j],
                    less,
                ));
            }
        }
    }
}

/// The rows of blocks that are whole are in every database that holds the facts and is
/// closed under the rules.
proof fn lemma_rows_held(case: CaseModel, db: Database, b: int, depth: nat)
    requires
        case.wf(),
        is_model(fact_rows(case.state.facts), db, final_rules(case.state)),
        0 <= b < case.blocks.len(),
        is_whole(case.blocks, case.blocks[b], depth),
    ensures
        db(
            case.blocks[b].block_type,
            block_row(case.blocks, case.blocks[b], case.table(), depth),
        ),
    decreases depth,
{
    let block = case.blocks[b];
    let table = case.table();
    let id = block.id();
    let row = block_row(case.blocks, block, table, depth);
    let input = fact_rows(case.state.facts);
    lemma_case(case);
    lemma_block_stated(case, b);
    match kind_of(block) {
        BlockKind::Edb => {
            let first = facts_under(case.base.facts, id.0);
            let i = choose|i: int|
                0 <= i < first.len() && is_block_fact(
                    case.blocks,
                    id,
                    table,
                    id.0,
                    #[trigger] first[i],
                );
            lemma_fact_row(case, b, first[i], depth);
            let all = facts_under(case.state.facts, id.0);
            assert(first.is_prefix_of(all));
            assert(all[i] == first[i]);
            assert(row == as_row(facts_under(case.state.facts, block.block_type)[i]));
            assert(input(block.block_type, row));
        },
        BlockKind::Idb => {
            if depth > 0 {
                assert forall|a: int|
                    0 <= a < case.blocks.len() && is_whole(
                        case.blocks,
                        #[trigger] case.blocks[a],
                        (depth - 1) as nat,
                    ) implies db(
                    case.blocks[a].block_type,
                    block_row(case.blocks, case.blocks[a], table, (depth - 1) as nat),
                ) by {
                    lemma_rows_held(case, db, a, (depth - 1) as nat);
                }
            }
            lemma_derived_row(case, db, b, depth);
        },
    }
}

proof fn lemma_derived_row(case: CaseModel, db: Database, b: int, depth: nat)
    requires
        case.wf(),
        is_model(fact_rows(case.state.facts), db, final_rules(case.state)),
        0 <= b < case.blocks.len(),
        kind_of(case.blocks[b]) is Idb,
        is_whole(case.blocks, case.blocks[b], depth),
        depth > 0 ==> forall|a: int|
            0 <= a < case.blocks.len() && is_whole(
                case.blocks,
                #[trigger] case.blocks[a],
                (depth - 1) as nat,
            ) ==> db(
                case.blocks[a].block_type,
                block_row(case.blocks, case.blocks[a], case.table(), (depth - 1) as nat),
            ),
    ensures
        db(
            case.blocks[b].block_type,
            block_row(case.blocks, case.blocks[b], case.table(), depth),
        ),
{
    let block = case.blocks[b];
    let table = case.table();
    let id = block.id();
    let names = names_for(case.blocks, block.block_type);
    let row = block_row(case.blocks, block, table, depth);
    let rules = final_rules(case.state);
    let valuation = block_valuation(case, b, depth);
    lemma_case(case);
    lemma_block_stated(case, b);
    let r = choose|r: int|
        0 <= r < case.base.rules.len() && is_block_rule(
            case.blocks,
            id,
            #[trigger] case.base.rules[r],
        );
    let rule = case.base.rules[r];
    assert(case.state.rules[r] == rule);
    lemma_head(block, names);
    let (arguments, bindings) = head_of(block, names)->Ok_0;
    let targets = targets_of(bindings);
    lemma_targets(bindings);
    lemma_rule_body(db, block, names, case.schema(), rule, table, valuation);
    assert forall|i: int| 0 <= i < targets.len() implies is_fed(
        db,
        (#[trigger] targets[i]).1,
        case.schema(),
        table,
        valuation,
    ) by {
        lemma_target_fed(case, db, b, depth, bindings, targets[i].1);
    }
    assert forall|k: int|
        0 <= k < names.len() && value_of(
            block.attributes,
            names[k],
        )->0 is Reference implies valuation(variable_name(#[trigger] names[k])) == code(
        value_in(case.blocks, block, names[k], depth)->0,
        table,
    ) by {
        lemma_block_valuation(case, b, depth, k);
    }
    lemma_head_is_row(case, b, rule, depth, valuation);
    let coded = coded_rule(rule, table);
    assert(satisfies(db, coded, valuation));
    assert(is_answer(db, coded, row));
    assert(rules[r] == coded);
    assert(is_derivable(db, rules, block.block_type, row));
}

/// What an output refers to is in the relation of the output, in every database that
/// holds the facts and is closed under the rules.
proof fn lemma_output_held(
    case: CaseModel,
    db: Database,
    o: int,
    target: ReferenceModel,
    value: HclValueModel,
)
    requires
        case.wf(),
        is_model(fact_rows(case.state.facts), db, final_rules(case.state)),
        0 <= o < case.outputs.len(),
        resolved(case.outputs[o].value, case.variables) == HclExprModel::Reference(target),
        comes_to(case.blocks, target, value),
    ensures
        db(relation_for(case.outputs[o].name), seq![code(value, case.table())]),
{
    let schema = case.schema();
    let table = case.table();
    let output = case.outputs[o];
    let own = output_target(target);
    let rules = final_rules(case.state);
    lemma_case(case);
    assert(is_asked(schema, case.variables, case.outputs[o], case.state));
    let r = choose|r: int|
        0 <= r < case.state.rules.len() && is_output_rule(
            schema,
            case.variables,
            output,
            #[trigger] case.state.rules[r],
        );
    let names = value_of(schema, target.block_type)->0;
    let depth = choose|depth: nat| #[trigger]
        value_at(case.blocks, target, depth) == Some(value);
    let b = lemma_found_from(case.blocks, (target.block_type, target.block_label));
    lemma_rows_held(case, db, b, depth);
    let found = block_row(case.blocks, case.blocks[b], table, depth);
    let number = code(value, table);
    let valuation: Valuation = |var: Seq<char>| number;
    let row = seq![number];
    lemma_output_rule(case, db, output.name, target, valuation, row);
    assert(feeds(own, names, table, valuation, found)) by {
        assert forall|j: int| 0 <= j < names.len() implies (var_for(
            own.fields,
            #[trigger] names[j],
        ) matches Some(var) ==> found[1 + j] == valuation(var)) by {
            lemma_output_var(target, names[j]);
        }
    }
    assert(is_fed(db, own, schema, table, valuation));
    let coded = coded_rule(case.state.rules[r], table);
    assert(satisfies(db, coded, valuation) && is_head_row(
        valuation,
        coded.head.head_arguments,
        row,
    ));
    assert(is_answer(db, coded, row));
    assert(rules[r] == coded);
    assert(is_derivable(db, rules, relation_for(output.name), row));
}

proof fn lemma_not_aggregated(rules: Seq<FLRuleModel>, name: Seq<char>)
    requires
        forall|r: int|
            0 <= r < rules.len() ==> head_idb(
                (#[trigger] rules[r]).head,
            ).aggregation_argument is None,
    ensures
        lookup(first_heads(rules), name) matches Some(idb) ==> idb.aggregation_argument is None,
    decreases rules.len(),
{
    if rules.len() > 0 {
        let front = rules.drop_last();
        assert forall|r: int| 0 <= r < front.len() implies head_idb(
            (#[trigger] front[r]).head,
        ).aggregation_argument is None by {
            assert(front[r] == rules[r]);
        }
        lemma_not_aggregated(front, name);
        assert(head_idb(rules[rules.len() - 1].head).aggregation_argument is None);
        let heads = first_heads(front);
        let head = rules.last().head;
        lemma_lookup_push(heads, head.name, head_idb(head));
    }
}

/// The rules of a translated program negate nothing and aggregate nothing.
proof fn lemma_rules_positive(case: CaseModel)
    requires
        case.wf(),
    ensures
        are_positive(final_rules(case.state)),
        forall|name: Seq<char>| #[trigger] gather_of(final_rules(case.state), name) is Plain,
{
    let rules = final_rules(case.state);
    assert forall|r: int| 0 <= r < rules.len() implies head_idb(
        (#[trigger] rules[r]).head,
    ).aggregation_argument is None && forall|name: Seq<char>| !#[trigger] negates(
        rules[r],
        name,
    ) by {
        lemma_rule_positive(case, r);
    }
    assert forall|name: Seq<char>| #[trigger] gather_of(rules, name) is Plain by {
        lemma_not_aggregated(rules, name);
    }
}

proof fn lemma_rule_positive(case: CaseModel, r: int)
    requires
        case.wf(),
        0 <= r < case.state.rules.len(),
    ensures
        head_idb(coded_rule(case.state.rules[r], case.table()).head).aggregation_argument is None,
        forall|name: Seq<char>|
            !#[trigger] negates(coded_rule(case.state.rules[r], case.table()), name),
{
    lemma_case(case);
    let first = case.base.rules;
    let ids = case.analysis.topo_order;
    let rule = case.state.rules[r];
    let coded = coded_rule(rule, case.table());
    if r < first.len() {
        assert(first[r] == rule);
        assert(has_rule_from(case.blocks, ids, first[r]));
        let k = choose|k: int|
            0 <= k < ids.len() && is_block_rule(case.blocks, #[trigger] ids[k], first[r]);
        let b = lemma_found_from(case.blocks, ids[k]);
        let block = case.blocks[b];
        let names = names_for(case.blocks, block.block_type);
        lemma_block_stated(case, b);
        lemma_head(block, names);
        let (arguments, bindings) = head_of(block, names)->Ok_0;
        lemma_body(targets_of(bindings), case.schema());
        if names.len() > 0 {
            let n = names.len() - 1;
            assert(is_head_argument(block, names[n], arguments[1 + n], bindings));
            assert(arguments.last() == arguments[1 + n]);
        } else {
            assert(arguments.last() == arguments[0]);
        }
        assert forall|i: int| 0 <= i < coded.rhs.len() implies (
        #[trigger] coded.rhs[i]) is AtomPredicate by {
            assert(rule.rhs[i] is AtomPredicate);
        }
    } else {
        assert(has_output_rule(case.schema(), case.variables, case.outputs, case.state.rules[r]));
        let o = choose|o: int|
            0 <= o < case.outputs.len() && is_output_rule(
                case.schema(),
                case.variables,
                #[trigger] case.outputs[o],
                rule,
            );
        assert forall|i: int| 0 <= i < coded.rhs.len() implies (
        #[trigger] coded.rhs[i]) is AtomPredicate by {
            assert(rule.rhs[i] is AtomPredicate);
        }
    }
}

/// The outputs of a program have different names.
proof fn lemma_names_differ(
    state: TranslationModel,
    blocks: Seq<HclResourceModel>,
    schema: Seq<(Seq<char>, Seq<Seq<char>>)>,
    variables: Seq<(Seq<char>, HclValueModel)>,
    outputs: Seq<HclOutputModel>,
    i: int,
    j: int,
)
    requires
        with_outputs(state, blocks, schema, variables, outputs) is Ok,
        0 <= i < j < outputs.len(),
    ensures
        outputs[i].name != outputs[j].name,
    decreases outputs.len(),
{
    let front = outputs.drop_last();
    if j < front.len() {
        lemma_names_differ(state, blocks, schema, variables, front, i, j);
    } else {
        assert(front[i] == outputs[i]);
    }
}

proof fn lemma_relation_name(a: Seq<char>, b: Seq<char>)
    requires
        relation_for(a) == relation_for(b),
    ensures
        a == b,
{
    let start = "hcl_output_"@;
    assert(a =~= relation_for(a).skip(start.len() as int));
    assert(b =~= relation_for(b).skip(start.len() as int));
}

/// The facts of an output that is written down.
proof fn lemma_literal_held(case: CaseModel, o: int, value: HclValueModel)
    requires
        case.wf(),
        0 <= o < case.outputs.len(),
        resolved(case.outputs[o].value, case.variables) == HclExprModel::Literal(value),
    ensures
        fact_rows(case.state.facts)(
            relation_for(case.outputs[o].name),
            seq![code(value, case.table())],
        ),
{
    lemma_case(case);
    let name = relation_for(case.outputs[o].name);
    assert(is_written(case.table(), case.variables, case.outputs[o], case.state));
    let i = choose|i: int|
        0 <= i < facts_under(case.state.facts, name).len() && is_output_fact(
            case.variables,
            case.outputs[o],
            case.table(),
            name,
            #[trigger] facts_under(case.state.facts, name)[i],
        );
    let tuple = facts_under(case.state.facts, name)[i];
    assert(as_row(tuple) =~= seq![code(value, case.table())]);
}

/// The relation of an output holds what the output comes to.
proof fn lemma_output_rows(
    case: CaseModel,
    states: Seq<Database>,
    strata: Seq<Seq<usize>>,
    flags: Seq<bool>,
    o: int,
    row: Seq<i64>,
)
    requires
        case.wf(),
        case.state.rules.len() <= usize::MAX,
        is_stratification(
            dependencies(final_rules(case.state)),
            final_rules(case.state).len(),
            strata,
            flags,
        ),
        are_evaluated(states, final_rules(case.state), strata, flags),
        states[0] == fact_rows(case.state.facts),
        0 <= o < case.outputs.len(),
    ensures
        states.last()(relation_for(case.outputs[o].name), row) <==> exists|
            value: HclValueModel,
        | #[trigger]
            output_comes_to(
                case.blocks,
                resolved(case.outputs[o].value, case.variables),
                value,
            ) && row == seq![code(value, case.table())],
{
    let rules = final_rules(case.state);
    let last = states.last();
    let input = fact_rows(case.state.facts);
    let name = relation_for(case.outputs[o].name);
    let expr = resolved(case.outputs[o].value, case.variables);
    lemma_rules_positive(case);
    lemma_meant_is_model(case);
    law_positive_programs_give_the_least(states, rules, strata, flags, case.meant());
    assert(is_model(input, last, rules)) by {
        assert forall|name: Seq<char>, row: Seq<i64>| #![trigger last(name, row)]
            input(name, row) || is_derivable(last, rules, name, row) ==> last(name, row) by {
            assert(gather_of(rules, name) is Plain);
            law_strata_give_what_the_program_says(states, rules, strata, flags, name, row);
        }
    }
    if last(name, row) {
        assert(case.meant()(name, row));
        assert(!(exists|b: int, depth: nat| #[trigger]
            is_block_row(case.blocks, case.table(), b, depth, name, row))) by {
            assert forall|b: int, depth: nat| !#[trigger] is_block_row(
                case.blocks,
                case.table(),
                b,
                depth,
                name,
                row,
            ) by {
                if is_block_row(case.blocks, case.table(), b, depth, name, row) {
                    lemma_block_stated(case, b);
                    assert(value_of(case.schema(), relation_for(case.outputs[o].name)) is None);
                }
            }
        }
        let p = choose|p: int|
            0 <= p < case.outputs.len() && name == relation_for((#[trigger] case.outputs[p]).name)
                && is_output_row(
                case.blocks,
                resolved(case.outputs[p].value, case.variables),
                case.table(),
                row,
            );
        lemma_relation_name(case.outputs[o].name, case.outputs[p].name);
        if o < p {
            lemma_names_differ(
                case.base,
                case.blocks,
                case.schema(),
                case.variables,
                case.outputs,
                o,
                p,
            );
        } else if p < o {
            lemma_names_differ(
                case.base,
                case.blocks,
                case.schema(),
                case.variables,
                case.outputs,
                p,
                o,
            );
        }
        assert(is_output_row(case.blocks, expr, case.table(), row));
    }
    if exists|value: HclValueModel| #[trigger]
        output_comes_to(case.blocks, expr, value) && row == seq![code(value, case.table())] {
        let value = choose|value: HclValueModel| #[trigger]
            output_comes_to(case.blocks, expr, value) && row == seq![code(value, case.table())];
        match expr {
            HclExprModel::Literal(literal) => {
                lemma_literal_held(case, o, literal);
                assert(input(name, row));
                assert(last(name, row));
            },
            HclExprModel::Reference(target) => {
                lemma_output_held(case, last, o, target, value);
            },
            HclExprModel::VarRef(_) => {},
        }
    }
}

/// A program and what it was translated into.
pub open spec fn case_of(
    program: HclProgramModel,
    analysis: DependencyAnalysisModel,
    state: TranslationModel,
) -> CaseModel {
    let blocks = resolved_program(program).resources;
    CaseModel {
        blocks,
        variables: program.variables,
        outputs: program.outputs,
        analysis,
        base: translated(blocks, analysis.block_kinds, analysis.topo_order)->Ok_0,
        state,
    }
}

/// Whether the references of a program can be followed: its blocks can tell their
/// references apart and refer to attributes that are there, and no type is named like
/// the relation of an output.
pub open spec fn is_followable(program: HclProgramModel) -> bool {
    let blocks = resolved_program(program).resources;
    &&& forall|i: int|
        0 <= i < blocks.len() ==> refers_apart(#[trigger] blocks[i]) && refers_to_fields(
            blocks[i],
            schema_of(blocks),
        )
    &&& forall|o: int|
        0 <= o < program.outputs.len() ==> value_of(
            schema_of(blocks),
            relation_for((#[trigger] program.outputs[o]).name),
        ) is None
}

/// What an output shows is what it refers to: once the strata of a translated program
/// have been evaluated, the relation of an output holds the value that the output comes
/// to, and nothing else; where it comes to nothing, the relation is empty. This is said
/// of programs whose blocks can tell their references apart and refer to attributes that
/// are there, without types that are named like the relations of outputs, and whose texts
/// can be counted in 32 bits.
pub proof fn law_outputs_hold_what_they_refer_to(
    program: HclProgramModel,
    analysis: DependencyAnalysisModel,
    state: TranslationModel,
    infos: Seq<OutputInfoModel>,
    states: Seq<Database>,
    strata: Seq<Seq<usize>>,
    flags: Seq<bool>,
    o: int,
    row: Seq<i64>,
)
    requires
        program.resources.len() <= usize::MAX,
        forall|i: int|
            0 <= i < program.resources.len() ==> unique_keys(
                (#[trigger] program.resources[i]).attributes,
            ),
        is_analysis(resolved_program(program).resources, analysis),
        translated_program(program, analysis) == Ok::<
            (TranslationModel, Seq<OutputInfoModel>),
            Seq<char>,
        >((state, infos)),
        is_followable(program),
        state.table.no_duplicates(),
        full_table(state).len() <= i32::MAX,
        state.rules.len() <= usize::MAX,
        is_stratification(
            dependencies(final_rules(state)),
            final_rules(state).len(),
            strata,
            flags,
        ),
        are_evaluated(states, final_rules(state), strata, flags),
        states[0] == fact_rows(state.facts),
        0 <= o < program.outputs.len(),
    ensures
        states.last()(relation_for(program.outputs[o].name), row) <==> exists|
            value: HclValueModel,
        | #[trigger]
            output_comes_to(
                resolved_program(program).resources,
                resolved(program.outputs[o].value, program.variables),
                value,
            ) && row == seq![code(value, full_table(state))],
{
    let case = case_of(program, analysis, state);
    lemma_case_wf(program, analysis, state, infos);
    lemma_output_rows(case, states, strata, flags, o, row);
}

pub proof fn lemma_case_wf(
    program: HclProgramModel,
    analysis: DependencyAnalysisModel,
    state: TranslationModel,
    infos: Seq<OutputInfoModel>,
)
    requires
        program.resources.len() <= usize::MAX,
        forall|i: int|
            0 <= i < program.resources.len() ==> unique_keys(
                (#[trigger] program.resources[i]).attributes,
            ),
        is_analysis(resolved_program(program).resources, analysis),
        translated_program(program, analysis) == Ok::<
            (TranslationModel, Seq<OutputInfoModel>),
            Seq<char>,
        >((state, infos)),
        is_followable(program),
        state.table.no_duplicates(),
        full_table(state).len() <= i32::MAX,
    ensures
        case_of(program, analysis, state).wf(),
{
    let blocks = resolved_program(program).resources;
    assert forall|i: int| 0 <= i < blocks.len() implies unique_keys(
        (#[trigger] blocks[i]).attributes,
    ) by {
        let before = program.resources[i].attributes;
        assert(unique_keys(program.resources[i].attributes));
        assert forall|j: int, k: int| 0 <= j < k < blocks[i].attributes.len() implies (
        #[trigger] blocks[i].attributes[j]).0 != (#[trigger] blocks[i].attributes[k]).0 by {
            assert(before[j].0 != before[k].0);
        }
    }
}

} // verus!
