//! Blocks as facts and rules.
use vstd::prelude::*;
use vstd::string::*;
use crate::compiler::asking::{add_outputs, with_outputs};
use crate::compiler::naming::{name_pair, pair_name, to_datalog_var, variable_name};
use crate::compiler::outputs::{OutputInfo, OutputInfoModel};
use crate::compiler::string_table::{number_of, table_with, StringTable};
use crate::hcl_types::{
    HclExpr, HclExprModel, HclProgram, HclProgramModel, HclResource, HclResourceModel, HclValue,
    HclValueModel, ReferenceModel,
};
use crate::lists::{clone_list, contains_same, empty, find, group_take, lookup, push};
use crate::ordered::{entered, value_of, Ordered};
use crate::parsing::arithmetic::{Arithmetic, ArithmeticModel, Factor, FactorModel};
use crate::parsing::decl::{Attribute, AttributeModel, DataType, RelDecl, RelDeclModel};
use crate::parsing::head::{Head, HeadArg, HeadArgModel, HeadModel};
use crate::parsing::parser::Program;
use crate::parsing::rule::{
    Atom, AtomArg, AtomArgModel, AtomModel, Const, ConstModel, FLRule, FLRuleModel, Predicate,
    PredicateModel,
};
use crate::reference::{
    analyze_dependencies, is_analysis, resolve_variables, resolved_program, BlockKind,
    DependencyAnalysis, DependencyAnalysisModel,
};

verus! {

/// A text in quotes.
pub open spec fn quoted(s: Seq<char>) -> Seq<char> {
    "\""@ + s + "\""@
}

pub fn quote(s: &str) -> (out: String)
    ensures
        out@ == quoted(s@),
{
    let mut out = "\"".to_owned();
    out.append(s);
    out.append("\"");
    out
}

/// The type of a column, by what an attribute is set to.
pub open spec fn type_for(expr: HclExprModel) -> DataType {
    match expr {
        HclExprModel::Literal(HclValueModel::Integer(_)) => DataType::Integer,
        HclExprModel::Literal(HclValueModel::Bool(_)) => DataType::Integer,
        _ => DataType::String,
    }
}

pub fn infer_data_type(expr: &HclExpr) -> (data_type: DataType)
    ensures
        data_type == type_for(expr.deep_view()),
{
    match expr {
        HclExpr::Literal(HclValue::Integer(_)) => DataType::Integer,
        HclExpr::Literal(HclValue::String(_)) => DataType::String,
        HclExpr::Literal(HclValue::Bool(_)) => DataType::Integer,
        HclExpr::Reference(_) => DataType::String,
        HclExpr::VarRef(_) => DataType::String,
    }
}

/// A value as a number: texts by their numbers in a table, and truth as one.
pub open spec fn value_number(value: HclValueModel, table: Seq<Seq<char>>) -> i32 {
    match value {
        HclValueModel::Integer(i) => i,
        HclValueModel::String(s) => number_of(table, s),
        HclValueModel::Bool(b) => if b {
            1
        } else {
            0
        },
    }
}

/// The table after a value was made a number.
pub open spec fn value_table(value: HclValueModel, table: Seq<Seq<char>>) -> Seq<Seq<char>> {
    match value {
        HclValueModel::String(s) => table_with(table, s),
        _ => table,
    }
}

pub fn value_to_i32(value: &HclValue, string_table: &mut StringTable) -> (number: i32)
    requires
        old(string_table).wf(),
    ensures
        final(string_table).wf(),
        final(string_table).table() == value_table(value.deep_view(), old(string_table).table()),
        number == value_number(value.deep_view(), old(string_table).table()),
{
    match value {
        HclValue::Integer(i) => *i,
        HclValue::String(s) => string_table.intern(s.as_str()),
        HclValue::Bool(b) => if *b {
            1
        } else {
            0
        },
    }
}

/// Names with some more behind them, each once.
pub open spec fn names_with(
    names: Seq<Seq<char>>,
    attributes: Seq<(Seq<char>, HclExprModel)>,
) -> Seq<Seq<char>>
    decreases attributes.len(),
{
    if attributes.len() == 0 {
        names
    } else {
        let front = names_with(names, attributes.drop_last());
        if front.contains(attributes.last().0) {
            front
        } else {
            front.push(attributes.last().0)
        }
    }
}

/// The names under a type so far.
pub open spec fn names_under(
    schema: Seq<(Seq<char>, Seq<Seq<char>>)>,
    block_type: Seq<char>,
) -> Seq<Seq<char>> {
    match value_of(schema, block_type) {
        Some(names) => names,
        None => Seq::empty(),
    }
}

/// The attributes of each type of block: those of all its blocks, in order.
pub open spec fn schema_of(blocks: Seq<HclResourceModel>) -> Seq<(Seq<char>, Seq<Seq<char>>)>
    decreases blocks.len(),
{
    if blocks.len() == 0 {
        Seq::empty()
    } else {
        let front = schema_of(blocks.drop_last());
        let block = blocks.last();
        entered(
            front,
            block.block_type,
            names_with(names_under(front, block.block_type), block.attributes),
        )
    }
}

/// The declaration of the relation of a type: the label, then the attributes.
pub open spec fn declaration(
    block_type: Seq<char>,
    names: Seq<Seq<char>>,
    sample: Seq<(Seq<char>, HclExprModel)>,
) -> RelDeclModel {
    RelDeclModel {
        name: block_type,
        attributes: seq![AttributeModel { name: "label"@, data_type: DataType::String }] + Seq::new(
            names.len(),
            |i: int|
                AttributeModel {
                    name: names[i],
                    data_type: match value_of(sample, names[i]) {
                        Some(expr) => type_for(expr),
                        None => DataType::String,
                    },
                },
        ),
        path: None,
    }
}

/// What is said of a block without an attribute.
pub open spec fn missing_text(block: HclResourceModel, name: Seq<char>) -> Seq<char> {
    "resource "@ + block.block_type + "."@ + block.label + " missing attribute '"@ + name + "'"@
}

pub open spec fn non_literal_text(block: HclResourceModel, name: Seq<char>) -> Seq<char> {
    "EDB block "@ + block.block_type + "."@ + block.label + " has non-literal value for '"@ + name
        + "'"@
}

pub open spec fn unresolved_text(block: HclResourceModel, name: Seq<char>) -> Seq<char> {
    "unresolved variable reference in "@ + block.block_type + "."@ + block.label + "."@ + name
}

pub open spec fn no_schema_text(block_type: Seq<char>) -> Seq<char> {
    "referenced type '"@ + block_type + "' not found in schema"@
}

/// The tuple of a block, and the table after it: the number of the label, then the
/// numbers of the attributes; or what is wrong with the block.
pub open spec fn tuple_of(
    block: HclResourceModel,
    names: Seq<Seq<char>>,
    table: Seq<Seq<char>>,
) -> Result<(Seq<i32>, Seq<Seq<char>>), Seq<char>>
    decreases names.len(),
{
    if names.len() == 0 {
        Ok((seq![number_of(table, block.label)], table_with(table, block.label)))
    } else {
        match tuple_of(block, names.drop_last(), table) {
            Err(text) => Err(text),
            Ok((tuple, known)) => match value_of(block.attributes, names.last()) {
                None => Err(missing_text(block, names.last())),
                Some(HclExprModel::Literal(value)) => Ok(
                    (tuple.push(value_number(value, known)), value_table(value, known)),
                ),
                Some(_) => Err(non_literal_text(block, names.last())),
            },
        }
    }
}

/// A value as a constant: texts in quotes, and truth as one.
pub open spec fn constant_of(value: HclValueModel) -> ConstModel {
    match value {
        HclValueModel::Integer(i) => ConstModel::Integer(i),
        HclValueModel::String(s) => ConstModel::Text(quoted(s)),
        HclValueModel::Bool(b) => ConstModel::Integer(
            if b {
                1
            } else {
                0
            },
        ),
    }
}

/// A value as an argument of a head.
pub open spec fn constant_argument(value: HclValueModel) -> HeadArgModel {
    HeadArgModel::Arith(
        ArithmeticModel { init: FactorModel::Const(constant_of(value)), rest: Seq::empty() },
    )
}

fn make_constant(value: &HclValue) -> (constant: Const)
    ensures
        constant.deep_view() == constant_of(value.deep_view()),
{
    match value {
        HclValue::Integer(i) => Const::Integer(*i),
        HclValue::String(s) => Const::Text(quote(s.as_str())),
        HclValue::Bool(b) => Const::Integer(
            if *b {
                1
            } else {
                0
            },
        ),
    }
}

fn argument_with(constant: Const) -> (argument: HeadArg)
    ensures
        argument.deep_view() == HeadArgModel::Arith(
            ArithmeticModel {
                init: FactorModel::Const(constant.deep_view()),
                rest: Seq::empty(),
            },
        ),
{
    let arithmetic = Arithmetic { init: Factor::Const(constant), rest: Vec::new() };
    assert(arithmetic.deep_view().rest =~= Seq::empty());
    HeadArg::Arith(arithmetic)
}

/// A variable of a rule, and what it refers to.
#[verifier::ext_equal]
pub struct BindingModel {
    pub var: Seq<char>,
    pub target: ReferenceModel,
}

/// The arguments of the head of a block: its label and what is written down as
/// constants, and variables that refer to other blocks; or what is wrong with the
/// block.
pub open spec fn head_of(block: HclResourceModel, names: Seq<Seq<char>>) -> Result<
    (Seq<HeadArgModel>, Seq<BindingModel>),
    Seq<char>,
>
    decreases names.len(),
{
    if names.len() == 0 {
        Ok((seq![constant_argument(HclValueModel::String(block.label))], Seq::empty()))
    } else {
        match head_of(block, names.drop_last()) {
            Err(text) => Err(text),
            Ok((arguments, bindings)) => {
                let name = names.last();
                let var = variable_name(name);
                match value_of(block.attributes, name) {
                    None => Err(missing_text(block, name)),
                    Some(HclExprModel::Literal(value)) => Ok(
                        (arguments.push(constant_argument(value)), bindings),
                    ),
                    Some(HclExprModel::Reference(target)) => Ok(
                        (
                            arguments.push(HeadArgModel::Var(var)),
                            bindings.push(BindingModel { var, target }),
                        ),
                    ),
                    Some(HclExprModel::VarRef(_)) => Err(unresolved_text(block, name)),
                }
            },
        }
    }
}

/// A block that is referred to, with the variables for its attributes.
#[verifier::ext_equal]
pub struct TargetModel {
    pub block_type: Seq<char>,
    pub block_label: Seq<char>,
    pub fields: Seq<(Seq<char>, Seq<char>)>,
}

/// The blocks that are referred to, in order, each once.
pub open spec fn targets_of(bindings: Seq<BindingModel>) -> Seq<(Seq<char>, TargetModel)>
    decreases bindings.len(),
{
    if bindings.len() == 0 {
        Seq::empty()
    } else {
        let front = targets_of(bindings.drop_last());
        let binding = bindings.last();
        let key = pair_name(binding.target.block_type, binding.target.block_label);
        let fields = match value_of(front, key) {
            Some(target) => target.fields,
            None => Seq::empty(),
        };
        entered(
            front,
            key,
            TargetModel {
                block_type: binding.target.block_type,
                block_label: binding.target.block_label,
                fields: fields.push((binding.var, binding.target.field)),
            },
        )
    }
}

/// The first variable for an attribute.
pub open spec fn var_for(fields: Seq<(Seq<char>, Seq<char>)>, name: Seq<char>) -> Option<Seq<char>>
    decreases fields.len(),
{
    if fields.len() == 0 {
        None
    } else {
        match var_for(fields.drop_last(), name) {
            Some(var) => Some(var),
            None => if fields.last().1 == name {
                Some(fields.last().0)
            } else {
                None
            },
        }
    }
}

/// The atom for a block that is referred to: its label, and the variables for the
/// attributes that are referred to.
pub open spec fn atom_for(target: TargetModel, names: Seq<Seq<char>>) -> AtomModel {
    AtomModel {
        name: target.block_type,
        arguments: seq![AtomArgModel::Const(ConstModel::Text(quoted(target.block_label)))] + Seq::new(
            names.len(),
            |i: int|
                match var_for(target.fields, names[i]) {
                    Some(var) => AtomArgModel::Var(var),
                    None => AtomArgModel::Placeholder,
                },
        ),
    }
}

/// The atoms for the blocks that are referred to, or what is wrong with one.
pub open spec fn body_of(
    targets: Seq<(Seq<char>, TargetModel)>,
    schema: Seq<(Seq<char>, Seq<Seq<char>>)>,
) -> Result<Seq<PredicateModel>, Seq<char>>
    decreases targets.len(),
{
    if targets.len() == 0 {
        Ok(Seq::empty())
    } else {
        match body_of(targets.drop_last(), schema) {
            Err(text) => Err(text),
            Ok(front) => match value_of(schema, targets.last().1.block_type) {
                Some(names) => Ok(
                    front.push(PredicateModel::AtomPredicate(atom_for(targets.last().1, names))),
                ),
                None => Err(no_schema_text(targets.last().1.block_type)),
            },
        }
    }
}

/// The rule of a derived block, or what is wrong with the block.
pub open spec fn rule_of(
    block: HclResourceModel,
    names: Seq<Seq<char>>,
    schema: Seq<(Seq<char>, Seq<Seq<char>>)>,
) -> Result<FLRuleModel, Seq<char>> {
    match head_of(block, names) {
        Err(text) => Err(text),
        Ok((arguments, bindings)) => match body_of(targets_of(bindings), schema) {
            Err(text) => Err(text),
            Ok(rhs) => Ok(
                FLRuleModel {
                    head: HeadModel { name: block.block_type, head_arguments: arguments },
                    rhs,
                    is_planning: false,
                    is_sip: false,
                },
            ),
        },
    }
}

/// How far a program has been translated.
#[verifier::ext_equal]
pub struct TranslationModel {
    pub table: Seq<Seq<char>>,
    pub edbs: Seq<RelDeclModel>,
    pub idbs: Seq<RelDeclModel>,
    pub rules: Seq<FLRuleModel>,
    pub facts: Seq<(Seq<char>, Seq<Seq<i32>>)>,
}

pub open spec fn untranslated() -> TranslationModel {
    TranslationModel {
        table: Seq::empty(),
        edbs: Seq::empty(),
        idbs: Seq::empty(),
        rules: Seq::empty(),
        facts: Seq::empty(),
    }
}

/// Whether a relation is declared.
pub open spec fn is_declared(decls: Seq<RelDeclModel>, name: Seq<char>) -> bool {
    exists|i: int| 0 <= i < decls.len() && (#[trigger] decls[i]).name == name
}

/// Declarations with one more, unless the relation is declared.
pub open spec fn decls_with(decls: Seq<RelDeclModel>, decl: RelDeclModel) -> Seq<RelDeclModel> {
    if is_declared(decls, decl.name) {
        decls
    } else {
        decls.push(decl)
    }
}

/// The block with a type and a label.
pub open spec fn block_with(
    blocks: Seq<HclResourceModel>,
    id: (Seq<char>, Seq<char>),
) -> Option<HclResourceModel>
    decreases blocks.len(),
{
    if blocks.len() == 0 {
        None
    } else if blocks.last().id() == id {
        Some(blocks.last())
    } else {
        block_with(blocks.drop_last(), id)
    }
}

pub open spec fn internal_text(id: (Seq<char>, Seq<char>), what: Seq<char>) -> Seq<char> {
    "internal error: block ("@ + id.0 + ", "@ + id.1 + ") "@ + what
}

/// The facts of a relation so far.
pub open spec fn facts_under(facts: Seq<(Seq<char>, Seq<Seq<i32>>)>, name: Seq<char>) -> Seq<
    Seq<i32>,
> {
    match value_of(facts, name) {
        Some(tuples) => tuples,
        None => Seq::empty(),
    }
}

/// A translation with a block of written down values: its relation is declared and
/// its tuple is a fact.
pub open spec fn with_facts(
    state: TranslationModel,
    block: HclResourceModel,
    names: Seq<Seq<char>>,
) -> Result<TranslationModel, Seq<char>> {
    match tuple_of(block, names, state.table) {
        Err(text) => Err(text),
        Ok((tuple, table)) => Ok(
            TranslationModel {
                table,
                edbs: decls_with(
                    state.edbs,
                    declaration(block.block_type, names, block.attributes),
                ),
                facts: entered(
                    state.facts,
                    block.block_type,
                    facts_under(state.facts, block.block_type).push(tuple),
                ),
                ..state
            },
        ),
    }
}

/// A translation with a derived block: its relation is declared and it is a rule.
pub open spec fn with_rule(
    state: TranslationModel,
    block: HclResourceModel,
    names: Seq<Seq<char>>,
    schema: Seq<(Seq<char>, Seq<Seq<char>>)>,
) -> Result<TranslationModel, Seq<char>> {
    match rule_of(block, names, schema) {
        Err(text) => Err(text),
        Ok(rule) => Ok(
            TranslationModel {
                table: table_with(state.table, block.label),
                idbs: decls_with(
                    state.idbs,
                    declaration(block.block_type, names, block.attributes),
                ),
                rules: state.rules.push(rule),
                ..state
            },
        ),
    }
}

/// A translation with one more block.
pub open spec fn with_block(
    state: TranslationModel,
    blocks: Seq<HclResourceModel>,
    kinds: Seq<((Seq<char>, Seq<char>), BlockKind)>,
    id: (Seq<char>, Seq<char>),
) -> Result<TranslationModel, Seq<char>> {
    let schema = schema_of(blocks);
    match block_with(blocks, id) {
        None => Err(internal_text(id, "not found"@)),
        Some(block) => match lookup(kinds, id) {
            None => Err(internal_text(id, "not classified"@)),
            Some(kind) => match value_of(schema, id.0) {
                None => Err("internal error: no schema for type "@ + id.0),
                Some(names) => match kind {
                    BlockKind::Edb => with_facts(state, block, names),
                    BlockKind::Idb => with_rule(state, block, names, schema),
                },
            },
        },
    }
}

/// The blocks of a program translated one after the other, or what is wrong with
/// the first that cannot be.
pub open spec fn translated(
    blocks: Seq<HclResourceModel>,
    kinds: Seq<((Seq<char>, Seq<char>), BlockKind)>,
    order: Seq<(Seq<char>, Seq<char>)>,
) -> Result<TranslationModel, Seq<char>>
    decreases order.len(),
{
    if order.len() == 0 {
        Ok(untranslated())
    } else {
        match translated(blocks, kinds, order.drop_last()) {
            Err(text) => Err(text),
            Ok(state) => with_block(state, blocks, kinds, order.last()),
        }
    }
}

fn say_missing(block: &HclResource, name: &str) -> (out: String)
    ensures
        out@ == missing_text(block.deep_view(), name@),
{
    let mut out = "resource ".to_owned();
    out.append(block.block_type.as_str());
    out.append(".");
    out.append(block.label.as_str());
    out.append(" missing attribute '");
    out.append(name);
    out.append("'");
    out
}

fn say_non_literal(block: &HclResource, name: &str) -> (out: String)
    ensures
        out@ == non_literal_text(block.deep_view(), name@),
{
    let mut out = "EDB block ".to_owned();
    out.append(block.block_type.as_str());
    out.append(".");
    out.append(block.label.as_str());
    out.append(" has non-literal value for '");
    out.append(name);
    out.append("'");
    out
}

fn say_unresolved(block: &HclResource, name: &str) -> (out: String)
    ensures
        out@ == unresolved_text(block.deep_view(), name@),
{
    let mut out = "unresolved variable reference in ".to_owned();
    out.append(block.block_type.as_str());
    out.append(".");
    out.append(block.label.as_str());
    out.append(".");
    out.append(name);
    out
}

fn say_internal(id: &(String, String), what: &str) -> (out: String)
    ensures
        out@ == internal_text(id.deep_view(), what@),
{
    let mut out = "internal error: block (".to_owned();
    out.append(id.0.as_str());
    out.append(", ");
    out.append(id.1.as_str());
    out.append(") ");
    out.append(what);
    out
}

fn extend_names(names: &mut Vec<String>, attributes: &Ordered<HclExpr>)
    requires
        attributes.wf(),
    ensures
        final(names).deep_view() == names_with(old(names).deep_view(), attributes.deep_view()),
{
    broadcast use group_take;

    let ghost start = names.deep_view();
    let ghost entries = attributes.deep_view();
    let len: usize = attributes.len();
    let mut i: usize = 0;
    while i < len
        invariant
            i <= len,
            len == entries.len(),
            attributes.wf(),
            entries == attributes.deep_view(),
            names.deep_view() == names_with(start, entries.take(i as int)),
        decreases len - i,
    {
        assert(entries.take(i + 1).drop_last() == entries.take(i as int));
        let name = attributes.name_at(i);
        if !contains_same(names, name) {
            push(names, name.clone());
        }
        i += 1;
    }
}

/// The attributes of each type of block.
fn make_schema(blocks: &Vec<HclResource>) -> (schema: Ordered<Vec<String>>)
    requires
        forall|i: int| 0 <= i < blocks@.len() ==> (#[trigger] blocks@[i]).attributes.wf(),
    ensures
        schema.wf(),
        schema.deep_view() == schema_of(blocks.deep_view()),
{
    broadcast use group_take;

    let ghost models = blocks.deep_view();
    let mut schema: Ordered<Vec<String>> = Ordered::new();
    let mut i: usize = 0;
    while i < blocks.len()
        invariant
            i <= blocks.len(),
            models == blocks.deep_view(),
            forall|i: int| 0 <= i < blocks@.len() ==> (#[trigger] blocks@[i]).attributes.wf(),
            schema.wf(),
            schema.deep_view() == schema_of(models.take(i as int)),
        decreases blocks.len() - i,
    {
        assert(models.take(i + 1).drop_last() == models.take(i as int));
        assert(models[i as int] == blocks@[i as int].deep_view());
        assert(blocks@[i as int].attributes.wf());
        let block = &blocks[i];
        let mut names = match schema.get(block.block_type.as_str()) {
            Some(names) => clone_list(names),
            None => empty(),
        };
        extend_names(&mut names, &block.attributes);
        schema.insert(block.block_type.clone(), names);
        i += 1;
    }
    schema
}

/// The declaration of the relation of a type.
pub fn make_rel_decl(
    block_type: &str,
    attr_names: &Vec<String>,
    sample_attrs: &Ordered<HclExpr>,
) -> (decl: RelDecl)
    requires
        sample_attrs.wf(),
    ensures
        decl.deep_view() == declaration(
            block_type@,
            attr_names.deep_view(),
            sample_attrs.deep_view(),
        ),
{
    let ghost model = declaration(block_type@, attr_names.deep_view(), sample_attrs.deep_view());
    let mut attributes: Vec<Attribute> = Vec::new();
    attributes.push(Attribute { name: "label".to_owned(), data_type: DataType::String });
    let mut i: usize = 0;
    while i < attr_names.len()
        invariant
            i <= attr_names.len(),
            sample_attrs.wf(),
            model == declaration(block_type@, attr_names.deep_view(), sample_attrs.deep_view()),
            attributes@.len() == i + 1,
            forall|k: int|
                0 <= k < attributes@.len() ==> (#[trigger] attributes@[k]).deep_view()
                    == model.attributes[k],
        decreases attr_names.len() - i,
    {
        let name = &attr_names[i];
        assert(attr_names.deep_view()[i as int] == name@);
        let data_type = match sample_attrs.get(name.as_str()) {
            Some(expr) => infer_data_type(expr),
            None => DataType::String,
        };
        attributes.push(Attribute { name: name.clone(), data_type });
        i += 1;
    }
    assert(attributes.deep_view() =~= model.attributes);
    RelDecl { name: block_type.to_owned(), attributes, path: None }
}

/// The tuple of a block of written down values.
fn make_tuple(block: &HclResource, names: &Vec<String>, string_table: &mut StringTable) -> (out:
    Result<Vec<i32>, String>)
    requires
        block.attributes.wf(),
        old(string_table).wf(),
    ensures
        final(string_table).wf(),
        match out {
            Ok(tuple) => tuple_of(
                block.deep_view(),
                names.deep_view(),
                old(string_table).table(),
            ) == Ok::<(Seq<i32>, Seq<Seq<char>>), Seq<char>>(
                (tuple@, final(string_table).table()),
            ),
            Err(text) => tuple_of(
                block.deep_view(),
                names.deep_view(),
                old(string_table).table(),
            ) == Err::<(Seq<i32>, Seq<Seq<char>>), Seq<char>>(text@),
        },
{
    broadcast use group_take;

    let ghost model = block.deep_view();
    let ghost wanted = names.deep_view();
    let ghost start = string_table.table();
    let mut tuple: Vec<i32> = Vec::new();
    tuple.push(string_table.intern(block.label.as_str()));
    assert(tuple@ =~= seq![number_of(start, model.label)]);
    let mut wrong: Option<String> = None;
    let mut i: usize = 0;
    while i < names.len()
        invariant
            i <= names.len(),
            block.attributes.wf(),
            string_table.wf(),
            model == block.deep_view(),
            wanted == names.deep_view(),
            tuple_of(model, wanted.take(i as int), start) == match wrong {
                Some(text) => Err::<(Seq<i32>, Seq<Seq<char>>), Seq<char>>(text@),
                None => Ok::<(Seq<i32>, Seq<Seq<char>>), Seq<char>>(
                    (tuple@, string_table.table()),
                ),
            },
        decreases names.len() - i,
    {
        assert(wanted.take(i + 1).drop_last() == wanted.take(i as int));
        assert(wanted[i as int] == names@[i as int]@);
        if wrong.is_none() {
            let name = names[i].as_str();
            match block.attributes.get(name) {
                Some(HclExpr::Literal(value)) => {
                    tuple.push(value_to_i32(value, string_table));
                },
                Some(_) => {
                    wrong = Some(say_non_literal(block, name));
                },
                None => {
                    wrong = Some(say_missing(block, name));
                },
            }
        }
        i += 1;
    }
    match wrong {
        Some(text) => Err(text),
        None => Ok(tuple),
    }
}

/// A variable of a rule, and what it refers to.
#[derive(Debug)]
pub struct Binding {
    pub var: String,
    pub target: crate::hcl_types::Reference,
}

impl DeepView for Binding {
    type V = BindingModel;

    open spec fn deep_view(&self) -> BindingModel {
        BindingModel { var: self.var@, target: self.target.deep_view() }
    }
}

/// The arguments of the head of a block, and the variables that refer to others.
fn make_head(block: &HclResource, names: &Vec<String>) -> (out: Result<
    (Vec<HeadArg>, Vec<Binding>),
    String,
>)
    requires
        block.attributes.wf(),
    ensures
        match out {
            Ok((arguments, bindings)) => head_of(block.deep_view(), names.deep_view()) == Ok::<
                (Seq<HeadArgModel>, Seq<BindingModel>),
                Seq<char>,
            >((arguments.deep_view(), bindings.deep_view())),
            Err(text) => head_of(block.deep_view(), names.deep_view()) == Err::<
                (Seq<HeadArgModel>, Seq<BindingModel>),
                Seq<char>,
            >(text@),
        },
{
    broadcast use group_take;

    let ghost model = block.deep_view();
    let ghost wanted = names.deep_view();
    let mut arguments: Vec<HeadArg> = empty();
    let mut bindings: Vec<Binding> = empty();
    push(&mut arguments, argument_with(Const::Text(quote(block.label.as_str()))));
    assert(arguments.deep_view() =~= seq![constant_argument(HclValueModel::String(model.label))]);
    let mut wrong: Option<String> = None;
    let mut i: usize = 0;
    while i < names.len()
        invariant
            i <= names.len(),
            block.attributes.wf(),
            model == block.deep_view(),
            wanted == names.deep_view(),
            head_of(model, wanted.take(i as int)) == match wrong {
                Some(text) => Err::<(Seq<HeadArgModel>, Seq<BindingModel>), Seq<char>>(text@),
                None => Ok::<(Seq<HeadArgModel>, Seq<BindingModel>), Seq<char>>(
                    (arguments.deep_view(), bindings.deep_view()),
                ),
            },
        decreases names.len() - i,
    {
        assert(wanted.take(i + 1).drop_last() == wanted.take(i as int));
        assert(wanted[i as int] == names@[i as int]@);
        if wrong.is_none() {
            let name = names[i].as_str();
            match block.attributes.get(name) {
                Some(HclExpr::Literal(value)) => {
                    push(&mut arguments, argument_with(make_constant(value)));
                },
                Some(HclExpr::Reference(target)) => {
                    push(&mut arguments, HeadArg::Var(to_datalog_var(name)));
                    push(
                        &mut bindings,
                        Binding { var: to_datalog_var(name), target: target.clone() },
                    );
                },
                Some(HclExpr::VarRef(_)) => {
                    wrong = Some(say_unresolved(block, name));
                },
                None => {
                    wrong = Some(say_missing(block, name));
                },
            }
        }
        i += 1;
    }
    match wrong {
        Some(text) => Err(text),
        None => Ok((arguments, bindings)),
    }
}

/// A block that is referred to, with the variables for its attributes.
#[derive(Debug)]
pub struct Target {
    pub block_type: String,
    pub block_label: String,
    pub fields: Vec<(String, String)>,
}

impl DeepView for Target {
    type V = TargetModel;

    open spec fn deep_view(&self) -> TargetModel {
        TargetModel {
            block_type: self.block_type@,
            block_label: self.block_label@,
            fields: self.fields.deep_view(),
        }
    }
}

fn copy_fields(fields: &Vec<(String, String)>) -> (copy: Vec<(String, String)>)
    ensures
        copy.deep_view() == fields.deep_view(),
{
    let mut copy: Vec<(String, String)> = Vec::new();
    let mut i: usize = 0;
    while i < fields.len()
        invariant
            i <= fields.len(),
            copy.len() == i,
            forall|k: int|
                0 <= k < i ==> (#[trigger] copy@[k]).deep_view() == fields@[k].deep_view(),
        decreases fields.len() - i,
    {
        copy.push((fields[i].0.clone(), fields[i].1.clone()));
        i += 1;
    }
    assert(copy.deep_view() =~= fields.deep_view());
    copy
}

/// The blocks that are referred to.
fn make_targets(bindings: &Vec<Binding>) -> (targets: Ordered<Target>)
    ensures
        targets.wf(),
        targets.deep_view() == targets_of(bindings.deep_view()),
{
    broadcast use group_take;

    let ghost models = bindings.deep_view();
    let mut targets: Ordered<Target> = Ordered::new();
    let mut i: usize = 0;
    while i < bindings.len()
        invariant
            i <= bindings.len(),
            models == bindings.deep_view(),
            targets.wf(),
            targets.deep_view() == targets_of(models.take(i as int)),
        decreases bindings.len() - i,
    {
        assert(models.take(i + 1).drop_last() == models.take(i as int));
        assert(models[i as int] == bindings@[i as int].deep_view());
        let binding = &bindings[i];
        let block_type = &binding.target.block_type;
        let block_label = &binding.target.block_label;
        let key = name_pair(block_type.as_str(), block_label.as_str());
        let mut fields = match targets.get(key.as_str()) {
            Some(target) => copy_fields(&target.fields),
            None => empty(),
        };
        push(&mut fields, (binding.var.clone(), binding.target.field.clone()));
        targets.insert(
            key,
            Target { block_type: block_type.clone(), block_label: block_label.clone(), fields },
        );
        i += 1;
    }
    targets
}

fn find_var<'a>(fields: &'a Vec<(String, String)>, name: &String) -> (var: Option<&'a String>)
    ensures
        var.deep_view() == var_for(fields.deep_view(), name@),
{
    broadcast use group_take;

    let ghost model = fields.deep_view();
    let mut var: Option<&'a String> = None;
    let mut i: usize = 0;
    while i < fields.len()
        invariant
            i <= fields.len(),
            model == fields.deep_view(),
            var.deep_view() == var_for(model.take(i as int), name@),
        decreases fields.len() - i,
    {
        assert(model.take(i + 1).drop_last() == model.take(i as int));
        assert(model[i as int] == fields@[i as int].deep_view());
        if var.is_none() && fields[i].1 == *name {
            var = Some(&fields[i].0);
        }
        i += 1;
    }
    var
}

pub(crate) fn make_atom(target: &Target, names: &Vec<String>) -> (atom: Atom)
    ensures
        atom.deep_view() == atom_for(target.deep_view(), names.deep_view()),
{
    let ghost model = atom_for(target.deep_view(), names.deep_view());
    let mut arguments: Vec<AtomArg> = Vec::new();
    arguments.push(AtomArg::Const(Const::Text(quote(target.block_label.as_str()))));
    let mut i: usize = 0;
    while i < names.len()
        invariant
            i <= names.len(),
            model == atom_for(target.deep_view(), names.deep_view()),
            arguments@.len() == i + 1,
            forall|k: int|
                0 <= k < arguments@.len() ==> (#[trigger] arguments@[k]).deep_view()
                    == model.arguments[k],
        decreases names.len() - i,
    {
        assert(names.deep_view()[i as int] == names@[i as int]@);
        match find_var(&target.fields, &names[i]) {
            Some(var) => {
                arguments.push(AtomArg::Var(var.clone()));
            },
            None => {
                arguments.push(AtomArg::Placeholder);
            },
        }
        i += 1;
    }
    assert(arguments.deep_view() =~= model.arguments);
    Atom::from_str(target.block_type.as_str(), arguments)
}

fn make_body(targets: &Ordered<Target>, schema: &Ordered<Vec<String>>) -> (out: Result<
    Vec<Predicate>,
    String,
>)
    requires
        targets.wf(),
        schema.wf(),
    ensures
        match out {
            Ok(rhs) => body_of(targets.deep_view(), schema.deep_view()) == Ok::<
                Seq<PredicateModel>,
                Seq<char>,
            >(rhs.deep_view()),
            Err(text) => body_of(targets.deep_view(), schema.deep_view()) == Err::<
                Seq<PredicateModel>,
                Seq<char>,
            >(text@),
        },
{
    broadcast use group_take;

    let ghost models = targets.deep_view();
    let mut rhs: Vec<Predicate> = empty();
    let mut wrong: Option<String> = None;
    let len: usize = targets.len();
    let mut i: usize = 0;
    while i < len
        invariant
            i <= len,
            len == models.len(),
            targets.wf(),
            schema.wf(),
            models == targets.deep_view(),
            body_of(models.take(i as int), schema.deep_view()) == match wrong {
                Some(text) => Err::<Seq<PredicateModel>, Seq<char>>(text@),
                None => Ok::<Seq<PredicateModel>, Seq<char>>(rhs.deep_view()),
            },
        decreases len - i,
    {
        assert(models.take(i + 1).drop_last() == models.take(i as int));
        if wrong.is_none() {
            let target = targets.value_at(i);
            match schema.get(target.block_type.as_str()) {
                Some(names) => {
                    push(&mut rhs, Predicate::AtomPredicate(make_atom(target, names)));
                },
                None => {
                    let mut text = "referenced type '".to_owned();
                    text.append(target.block_type.as_str());
                    text.append("' not found in schema");
                    wrong = Some(text);
                },
            }
        }
        i += 1;
    }
    match wrong {
        Some(text) => Err(text),
        None => Ok(rhs),
    }
}

/// The rule of a derived block. Its label is entered into the table.
pub fn make_rule(
    resource: &HclResource,
    attr_names: &Vec<String>,
    schema_map: &Ordered<Vec<String>>,
    string_table: &mut StringTable,
) -> (out: Result<FLRule, String>)
    requires
        resource.attributes.wf(),
        schema_map.wf(),
        old(string_table).wf(),
    ensures
        final(string_table).wf(),
        final(string_table).table() == table_with(
            old(string_table).table(),
            resource.deep_view().label,
        ),
        match out {
            Ok(rule) => rule_of(
                resource.deep_view(),
                attr_names.deep_view(),
                schema_map.deep_view(),
            ) == Ok::<FLRuleModel, Seq<char>>(rule.deep_view()),
            Err(text) => rule_of(
                resource.deep_view(),
                attr_names.deep_view(),
                schema_map.deep_view(),
            ) == Err::<FLRuleModel, Seq<char>>(text@),
        },
{
    let _label_id: i32 = string_table.intern(resource.label.as_str());
    let (arguments, bindings) = match make_head(resource, attr_names) {
        Ok(parts) => parts,
        Err(text) => {
            return Err(text);
        },
    };
    let targets = make_targets(&bindings);
    match make_body(&targets, schema_map) {
        Ok(rhs) => Ok(
            FLRule::new(Head::new(resource.block_type.clone(), arguments), rhs, false, false),
        ),
        Err(text) => Err(text),
    }
}

/// How far a program has been translated.
#[derive(Debug)]
pub struct Translation {
    pub string_table: StringTable,
    pub edbs: Vec<RelDecl>,
    pub idbs: Vec<RelDecl>,
    pub rules: Vec<FLRule>,
    pub facts: Ordered<Vec<Vec<i32>>>,
}

impl Translation {
    pub open spec fn wf(&self) -> bool {
        self.string_table.wf() && self.facts.wf()
    }

    pub open spec fn model(&self) -> TranslationModel {
        TranslationModel {
            table: self.string_table.table(),
            edbs: self.edbs.deep_view(),
            idbs: self.idbs.deep_view(),
            rules: self.rules.deep_view(),
            facts: self.facts.deep_view(),
        }
    }
}

pub(crate) fn declare(decls: &mut Vec<RelDecl>, decl: RelDecl)
    ensures
        final(decls).deep_view() == decls_with(old(decls).deep_view(), decl.deep_view()),
{
    let ghost models = decls.deep_view();
    let mut i: usize = 0;
    while i < decls.len()
        invariant
            i <= decls.len(),
            models == decls.deep_view(),
            models == old(decls).deep_view(),
            forall|k: int| 0 <= k < i ==> (#[trigger] models[k]).name != decl.deep_view().name,
        decreases decls.len() - i,
    {
        assert(models[i as int] == decls@[i as int].deep_view());
        if decls[i].name == decl.name {
            assert(is_declared(models, decl.deep_view().name));
            return;
        }
        i += 1;
    }
    push(decls, decl);
}

pub(crate) fn copy_tuples(tuples: &Vec<Vec<i32>>) -> (copy: Vec<Vec<i32>>)
    ensures
        copy.deep_view() == tuples.deep_view(),
{
    let mut copy: Vec<Vec<i32>> = Vec::new();
    let mut i: usize = 0;
    while i < tuples.len()
        invariant
            i <= tuples.len(),
            copy.len() == i,
            forall|k: int|
                0 <= k < i ==> (#[trigger] copy@[k]).deep_view() == tuples@[k].deep_view(),
        decreases tuples.len() - i,
    {
        let tuple = tuples[i].clone();
        assert(tuple.deep_view() =~= tuples@[i as int].deep_view());
        copy.push(tuple);
        i += 1;
    }
    assert(copy.deep_view() =~= tuples.deep_view());
    copy
}

pub(crate) fn find_block<'a>(blocks: &'a Vec<HclResource>, id: &(String, String)) -> (block: Option<
    &'a HclResource,
>)
    requires
        forall|i: int| 0 <= i < blocks@.len() ==> (#[trigger] blocks@[i]).attributes.wf(),
    ensures
        block.deep_view() == block_with(blocks.deep_view(), id.deep_view()),
        block matches Some(block) ==> block.attributes.wf(),
{
    let ghost models = blocks.deep_view();
    let mut i: usize = blocks.len();
    assert(models.take(i as int) =~= models);
    while i > 0
        invariant
            i <= blocks.len(),
            models == blocks.deep_view(),
            forall|i: int| 0 <= i < blocks@.len() ==> (#[trigger] blocks@[i]).attributes.wf(),
            block_with(models, id.deep_view()) == block_with(
                models.take(i as int),
                id.deep_view(),
            ),
        decreases i,
    {
        assert(models.take(i as int).drop_last() =~= models.take(i - 1));
        assert(models.take(i as int).last() == models[i - 1]);
        assert(models[i - 1] == blocks@[i - 1].deep_view());
        assert(blocks@[i - 1].attributes.wf());
        if blocks[i - 1].block_type == id.0 && blocks[i - 1].label == id.1 {
            return Some(&blocks[i - 1]);
        }
        i -= 1;
    }
    None
}

/// Translates one more block.
fn add_block(
    state: &mut Translation,
    blocks: &Vec<HclResource>,
    schema: &Ordered<Vec<String>>,
    kinds: &Vec<((String, String), BlockKind)>,
    id: &(String, String),
) -> (out: Result<(), String>)
    requires
        old(state).wf(),
        schema.wf(),
        schema.deep_view() == schema_of(blocks.deep_view()),
        forall|i: int| 0 <= i < blocks@.len() ==> (#[trigger] blocks@[i]).attributes.wf(),
    ensures
        final(state).wf(),
        match out {
            Ok(_) => with_block(
                old(state).model(),
                blocks.deep_view(),
                kinds.deep_view(),
                id.deep_view(),
            ) == Ok::<TranslationModel, Seq<char>>(final(state).model()),
            Err(text) => with_block(
                old(state).model(),
                blocks.deep_view(),
                kinds.deep_view(),
                id.deep_view(),
            ) == Err::<TranslationModel, Seq<char>>(text@),
        },
{
    let block = match find_block(blocks, id) {
        Some(block) => block,
        None => {
            return Err(say_internal(id, "not found"));
        },
    };
    let kind = match find(kinds, id) {
        Some(kind) => *kind,
        None => {
            return Err(say_internal(id, "not classified"));
        },
    };
    let names = match schema.get(id.0.as_str()) {
        Some(names) => names,
        None => {
            let mut text = "internal error: no schema for type ".to_owned();
            text.append(id.0.as_str());
            return Err(text);
        },
    };
    match kind {
        BlockKind::Edb => {
            let tuple = match make_tuple(block, names, &mut state.string_table) {
                Ok(tuple) => tuple,
                Err(text) => {
                    return Err(text);
                },
            };
            declare(
                &mut state.edbs,
                make_rel_decl(block.block_type.as_str(), names, &block.attributes),
            );
            let mut tuples = match state.facts.get(block.block_type.as_str()) {
                Some(tuples) => copy_tuples(tuples),
                None => empty(),
            };
            assert(tuple.deep_view() =~= tuple@);
            push(&mut tuples, tuple);
            state.facts.insert(block.block_type.clone(), tuples);
            Ok(())
        },
        BlockKind::Idb => {
            let rule = match make_rule(block, names, schema, &mut state.string_table) {
                Ok(rule) => rule,
                Err(text) => {
                    return Err(text);
                },
            };
            declare(
                &mut state.idbs,
                make_rel_decl(block.block_type.as_str(), names, &block.attributes),
            );
            push(&mut state.rules, rule);
            Ok(())
        },
    }
}

/// What a program comes to.
#[derive(Debug)]
pub struct CompileResult {
    pub program: Program,
    pub string_table: StringTable,
    pub analysis: DependencyAnalysis,
    pub edb_facts: Ordered<Vec<Vec<i32>>>,
    /// what the program is asked for, in order
    pub outputs: Vec<OutputInfo>,
}

impl CompileResult {
    pub open spec fn wf(&self) -> bool {
        self.string_table.wf() && self.edb_facts.wf()
    }

    /// The translation that was made.
    pub open spec fn model(&self) -> TranslationModel {
        TranslationModel {
            table: self.string_table.table(),
            edbs: self.program.deep_view().edbs,
            idbs: self.program.deep_view().idbs,
            rules: self.program.deep_view().rules,
            facts: self.edb_facts.deep_view(),
        }
    }
}

/// Whether a block with a type and a label is among some.
pub open spec fn is_block_in(
    blocks: Seq<HclResourceModel>,
    id: (Seq<char>, Seq<char>),
) -> bool {
    exists|i: int| 0 <= i < blocks.len() && (#[trigger] blocks[i]).id() == id
}

/// The first block whose type and label another one before it has.
pub open spec fn repeated(blocks: Seq<HclResourceModel>) -> Option<(Seq<char>, Seq<char>)>
    decreases blocks.len(),
{
    if blocks.len() == 0 {
        None
    } else {
        match repeated(blocks.drop_last()) {
            Some(id) => Some(id),
            None => if is_block_in(blocks.drop_last(), blocks.last().id()) {
                Some(blocks.last().id())
            } else {
                None
            },
        }
    }
}

pub open spec fn repeated_text(id: (Seq<char>, Seq<char>)) -> Seq<char> {
    "duplicate resource '"@ + id.0 + "."@ + id.1 + "'"@
}

/// The blocks of a program and then its outputs translated; or what is wrong: a block
/// is there twice, or the first block or output that cannot be translated.
pub open spec fn translated_program(
    program: HclProgramModel,
    analysis: DependencyAnalysisModel,
) -> Result<(TranslationModel, Seq<OutputInfoModel>), Seq<char>> {
    let blocks = resolved_program(program).resources;
    match repeated(blocks) {
        Some(id) => Err(repeated_text(id)),
        None => match translated(blocks, analysis.block_kinds, analysis.topo_order) {
            Err(text) => Err(text),
            Ok(state) => with_outputs(
                state,
                blocks,
                schema_of(blocks),
                program.variables,
                program.outputs,
            ),
        },
    }
}

fn has_block(blocks: &Vec<HclResource>, upto: usize, block: &HclResource) -> (answer: bool)
    requires
        upto <= blocks@.len(),
    ensures
        answer == is_block_in(blocks.deep_view().take(upto as int), block.deep_view().id()),
{
    let ghost models = blocks.deep_view();
    let ghost id = block.deep_view().id();
    let mut i: usize = 0;
    while i < upto
        invariant
            i <= upto <= blocks@.len(),
            models == blocks.deep_view(),
            id == block.deep_view().id(),
            forall|k: int| 0 <= k < i ==> (#[trigger] models[k]).id() != id,
        decreases upto - i,
    {
        assert(models[i as int] == blocks@[i as int].deep_view());
        if blocks[i].block_type == block.block_type && blocks[i].label == block.label {
            assert(models.take(upto as int)[i as int].id() == id);
            return true;
        }
        i += 1;
    }
    assert forall|k: int| 0 <= k < upto implies (#[trigger] models.take(upto as int)[k]).id()
        != id by {
        assert(models[k].id() != id);
    }
    false
}

/// What is said of blocks of which one is there twice.
fn find_repeated(blocks: &Vec<HclResource>) -> (text: Option<String>)
    ensures
        match text {
            Some(text) => repeated(blocks.deep_view()) matches Some(id) && text@ == repeated_text(
                id,
            ),
            None => repeated(blocks.deep_view()) is None,
        },
{
    broadcast use group_take;

    let ghost models = blocks.deep_view();
    let mut text: Option<String> = None;
    let mut i: usize = 0;
    while i < blocks.len()
        invariant
            i <= blocks.len(),
            models == blocks.deep_view(),
            match text {
                Some(text) => repeated(models.take(i as int)) matches Some(id) && text@
                    == repeated_text(id),
                None => repeated(models.take(i as int)) is None,
            },
        decreases blocks.len() - i,
    {
        assert(models.take(i + 1).drop_last() == models.take(i as int));
        assert(models[i as int] == blocks@[i as int].deep_view());
        if text.is_none() && has_block(blocks, i, &blocks[i]) {
            let mut out = "duplicate resource '".to_owned();
            out.append(blocks[i].block_type.as_str());
            out.append(".");
            out.append(blocks[i].label.as_str());
            out.append("'");
            text = Some(out);
        }
        i += 1;
    }
    text
}

/// Whether this is what is said of a program that cannot be translated.
pub open spec fn is_refusal(program: HclProgramModel, text: Seq<char>) -> bool {
    exists|analysis: DependencyAnalysisModel| #[trigger]
        is_analysis(resolved_program(program).resources, analysis) && translated_program(
            program,
            analysis,
        ) == Err::<(TranslationModel, Seq<OutputInfoModel>), Seq<char>>(text)
}

/// Translates a program: variables are put in, blocks are put in order, and each
/// becomes a fact or a rule; then each output becomes a relation. Otherwise says what
/// is wrong with a block or an output, or that a block is there twice.
pub fn compile(hcl_program: HclProgram) -> (out: Result<CompileResult, String>)
    requires
        hcl_program.wf(),
    ensures
        match out {
            Ok(result) => result.wf() && is_analysis(
                resolved_program(hcl_program.deep_view()).resources,
                result.analysis.deep_view(),
            ) && translated_program(hcl_program.deep_view(), result.analysis.deep_view()) == Ok::<
                (TranslationModel, Seq<OutputInfoModel>),
                Seq<char>,
            >((result.model(), result.outputs.deep_view())),
            Err(text) => is_refusal(hcl_program.deep_view(), text@),
        },
{
    broadcast use group_take;

    let mut program = hcl_program;
    let ghost blocks = resolved_program(hcl_program.deep_view()).resources;
    resolve_variables(&mut program);
    let analysis = analyze_dependencies(&program);
    let ghost found = analysis.deep_view();
    match find_repeated(&program.resources) {
        Some(text) => {
            assert(is_refusal(hcl_program.deep_view(), text@));
            return Err(text);
        },
        None => {},
    }
    let schema = make_schema(&program.resources);
    let mut state = Translation {
        string_table: StringTable::new(),
        edbs: empty(),
        idbs: empty(),
        rules: empty(),
        facts: Ordered::new(),
    };
    assert(state.model() =~= untranslated());
    let mut i: usize = 0;
    while i < analysis.topo_order.len()
        invariant
            i <= analysis.topo_order.len(),
            program.wf(),
            blocks == program.deep_view().resources,
            program.deep_view().outputs == hcl_program.deep_view().outputs,
            program.deep_view().variables == hcl_program.deep_view().variables,
            blocks == resolved_program(hcl_program.deep_view()).resources,
            repeated(blocks) is None,
            found == analysis.deep_view(),
            is_analysis(blocks, found),
            schema.wf(),
            schema.deep_view() == schema_of(blocks),
            state.wf(),
            translated(blocks, found.block_kinds, found.topo_order.take(i as int)) == Ok::<
                TranslationModel,
                Seq<char>,
            >(state.model()),
        decreases analysis.topo_order.len() - i,
    {
        proof {
            assert(found.topo_order.take(i + 1).drop_last() == found.topo_order.take(i as int));
            assert(found.topo_order[i as int] == analysis.topo_order@[i as int].deep_view());
        }
        match add_block(
            &mut state,
            &program.resources,
            &schema,
            &analysis.block_kinds,
            &analysis.topo_order[i],
        ) {
            Ok(_) => {},
            Err(text) => {
                proof {
                    lemma_stays_wrong(blocks, found.block_kinds, found.topo_order, i + 1);
                    assert(translated(blocks, found.block_kinds, found.topo_order) == Err::<
                        TranslationModel,
                        Seq<char>,
                    >(text@));
                    assert(is_refusal(hcl_program.deep_view(), text@));
                }
                return Err(text);
            },
        }
        i += 1;
    }
    assert(found.topo_order.take(i as int) =~= found.topo_order);
    match add_outputs(
        &mut state,
        &program.resources,
        &schema,
        &program.variables,
        &program.outputs,
    ) {
        Ok(outputs) => Ok(
            CompileResult {
                program: Program::new(state.edbs, state.idbs, state.rules),
                string_table: state.string_table,
                analysis,
                edb_facts: state.facts,
                outputs,
            },
        ),
        Err(text) => {
            assert(is_refusal(hcl_program.deep_view(), text@));
            Err(text)
        },
    }
}

proof fn lemma_stays_wrong(
    blocks: Seq<HclResourceModel>,
    kinds: Seq<((Seq<char>, Seq<char>), BlockKind)>,
    order: Seq<(Seq<char>, Seq<char>)>,
    n: int,
)
    requires
        0 <= n <= order.len(),
        translated(blocks, kinds, order.take(n)) is Err,
    ensures
        translated(blocks, kinds, order) == translated(blocks, kinds, order.take(n)),
    decreases order.len() - n,
{
    broadcast use group_take;

    if n < order.len() {
        assert(order.take(n + 1).drop_last() == order.take(n));
        lemma_stays_wrong(blocks, kinds, order, n + 1);
    }
}

} // verus!
