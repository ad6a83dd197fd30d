//! What a program is asked for: a relation for each output.
use vstd::prelude::*;
use vstd::string::*;
use crate::compiler::naming::{to_datalog_var, variable_name};
use crate::compiler::outputs::{OutputInfo, OutputInfoModel};
use crate::compiler::translate::{
    atom_for, block_with, decls_with, declare, facts_under, find_block, infer_data_type,
    is_declared, make_atom, type_for, value_number, value_table, value_to_i32, Target, TargetModel,
    Translation, TranslationModel,
};
use crate::hcl_types::{
    HclExpr, HclExprModel, HclOutput, HclOutputModel, HclResource, HclResourceModel, HclValue,
    HclValueModel, Reference, ReferenceModel,
};
use crate::lists::{contains_same, empty, group_take, push};
use crate::ordered::{entered, value_of, Ordered};
use crate::parsing::decl::{Attribute, AttributeModel, DataType, RelDecl, RelDeclModel};
use crate::parsing::head::{Head, HeadArg, HeadArgModel, HeadModel};
use crate::parsing::rule::{FLRule, FLRuleModel, Predicate, PredicateModel};
use crate::reference::resolved;

verus! {

/// The relation of an output.
pub open spec fn relation_for(name: Seq<char>) -> Seq<char> {
    "hcl_output_"@ + name
}

fn name_relation(name: &str) -> (out: String)
    ensures
        out@ == relation_for(name@),
{
    let mut out = "hcl_output_".to_owned();
    out.append(name);
    out
}

/// The declaration of the relation of an output: one column.
pub open spec fn output_decl(name: Seq<char>, data_type: DataType) -> RelDeclModel {
    RelDeclModel {
        name: relation_for(name),
        attributes: seq![AttributeModel { name: "value"@, data_type }],
        path: None,
    }
}

fn make_output_decl(name: &str, data_type: DataType) -> (decl: RelDecl)
    ensures
        decl.deep_view() == output_decl(name@, data_type),
{
    let mut attributes: Vec<Attribute> = Vec::new();
    attributes.push(Attribute { name: "value".to_owned(), data_type });
    let decl = RelDecl { name: name_relation(name), attributes, path: None };
    assert(decl.attributes.deep_view() =~= output_decl(name@, data_type).attributes);
    decl
}

/// The rule of an output that refers to an attribute of a block.
pub open spec fn output_rule(
    name: Seq<char>,
    target: ReferenceModel,
    names: Seq<Seq<char>>,
) -> FLRuleModel {
    let var = variable_name(target.field);
    FLRuleModel {
        head: HeadModel {
            name: relation_for(name),
            head_arguments: seq![HeadArgModel::Var(var)],
        },
        rhs: seq![
            PredicateModel::AtomPredicate(
                atom_for(
                    TargetModel {
                        block_type: target.block_type,
                        block_label: target.block_label,
                        fields: seq![(var, target.field)],
                    },
                    names,
                ),
            ),
        ],
        is_planning: false,
        is_sip: false,
    }
}

fn make_output_rule(name: &str, target: &Reference, names: &Vec<String>) -> (rule: FLRule)
    ensures
        rule.deep_view() == output_rule(name@, target.deep_view(), names.deep_view()),
{
    let ghost model = output_rule(name@, target.deep_view(), names.deep_view());
    let var = to_datalog_var(target.field.as_str());
    let mut fields: Vec<(String, String)> = empty();
    push(&mut fields, (var.clone(), target.field.clone()));
    assert(fields.deep_view() =~= seq![(variable_name(target.field@), target.field@)]);
    let body = Target {
        block_type: target.block_type.clone(),
        block_label: target.block_label.clone(),
        fields,
    };
    let mut rhs: Vec<Predicate> = empty();
    push(&mut rhs, Predicate::AtomPredicate(make_atom(&body, names)));
    let mut arguments: Vec<HeadArg> = empty();
    push(&mut arguments, HeadArg::Var(var));
    assert(arguments.deep_view() =~= model.head.head_arguments);
    assert(rhs.deep_view() =~= model.rhs);
    FLRule::new(Head::new(name_relation(name), arguments), rhs, false, false)
}

/// The type of what a reference comes to, over at most so many references.
pub open spec fn type_after(
    blocks: Seq<HclResourceModel>,
    target: ReferenceModel,
    depth: nat,
) -> DataType
    decreases depth,
{
    match block_with(blocks, (target.block_type, target.block_label)) {
        Some(block) => match value_of(block.attributes, target.field) {
            Some(HclExprModel::Reference(next)) => if depth == 0 {
                DataType::String
            } else {
                type_after(blocks, next, (depth - 1) as nat)
            },
            Some(expr) => type_for(expr),
            None => DataType::String,
        },
        None => DataType::String,
    }
}

/// The type of what a reference comes to.
pub open spec fn target_type(blocks: Seq<HclResourceModel>, target: ReferenceModel) -> DataType {
    type_after(blocks, target, blocks.len())
}

fn find_type_after(blocks: &Vec<HclResource>, target: &Reference, depth: usize) -> (data_type:
    DataType)
    requires
        forall|i: int| 0 <= i < blocks@.len() ==> (#[trigger] blocks@[i]).attributes.wf(),
    ensures
        data_type == type_after(blocks.deep_view(), target.deep_view(), depth as nat),
    decreases depth,
{
    let id = (target.block_type.clone(), target.block_label.clone());
    match find_block(blocks, &id) {
        Some(block) => match block.attributes.get(target.field.as_str()) {
            Some(HclExpr::Reference(next)) => if depth == 0 {
                DataType::String
            } else {
                find_type_after(blocks, next, depth - 1)
            },
            Some(expr) => infer_data_type(expr),
            None => DataType::String,
        },
        None => DataType::String,
    }
}

fn find_target_type(blocks: &Vec<HclResource>, target: &Reference) -> (data_type: DataType)
    requires
        forall|i: int| 0 <= i < blocks@.len() ==> (#[trigger] blocks@[i]).attributes.wf(),
    ensures
        data_type == target_type(blocks.deep_view(), target.deep_view()),
{
    assert(blocks.len() == blocks.deep_view().len());
    find_type_after(blocks, target, blocks.len())
}

pub open spec fn duplicate_text(name: Seq<char>) -> Seq<char> {
    "duplicate output name '"@ + name + "'"@
}

pub open spec fn unknown_type_text(name: Seq<char>, block_type: Seq<char>) -> Seq<char> {
    "output '"@ + name + "' has a reference to unknown type '"@ + block_type + "'"@
}

pub open spec fn unknown_field_text(name: Seq<char>, target: ReferenceModel) -> Seq<char> {
    "output '"@ + name + "' has a reference to unknown field '"@ + target.field + "' of '"@
        + target.block_type + "'"@
}

pub open spec fn unresolved_output_text(name: Seq<char>, var: Seq<char>) -> Seq<char> {
    "unresolved variable reference '"@ + var + "' in output '"@ + name + "'"@
}

/// What is known of an output.
pub open spec fn output_info(name: Seq<char>, data_type: DataType) -> OutputInfoModel {
    OutputInfoModel {
        name,
        relation_name: relation_for(name),
        column_types: seq![data_type],
    }
}

fn make_info(name: &str, data_type: DataType) -> (info: OutputInfo)
    ensures
        info.deep_view() == output_info(name@, data_type),
{
    let mut column_types: Vec<DataType> = Vec::new();
    column_types.push(data_type);
    assert(column_types.deep_view() =~= seq![data_type]);
    OutputInfo { name: name.to_owned(), relation_name: name_relation(name), column_types }
}

/// A translation with an output whose value is written down: a fact of its relation.
pub open spec fn with_literal(
    state: TranslationModel,
    name: Seq<char>,
    value: HclValueModel,
) -> TranslationModel {
    let relation = relation_for(name);
    TranslationModel {
        table: value_table(value, state.table),
        edbs: decls_with(
            state.edbs,
            output_decl(name, type_for(HclExprModel::Literal(value))),
        ),
        facts: entered(
            state.facts,
            relation,
            facts_under(state.facts, relation).push(seq![value_number(value, state.table)]),
        ),
        ..state
    }
}

/// A translation with an output that refers to an attribute: a rule for its relation.
pub open spec fn with_reference(
    state: TranslationModel,
    blocks: Seq<HclResourceModel>,
    name: Seq<char>,
    target: ReferenceModel,
    names: Seq<Seq<char>>,
) -> TranslationModel {
    TranslationModel {
        idbs: decls_with(state.idbs, output_decl(name, target_type(blocks, target))),
        rules: state.rules.push(output_rule(name, target, names)),
        ..state
    }
}

/// A translation with one more output and what is known of the output, or what is
/// wrong with it: it refers to a type or an attribute that no block has, or to a
/// variable without a value.
pub open spec fn with_output(
    state: TranslationModel,
    blocks: Seq<HclResourceModel>,
    schema: Seq<(Seq<char>, Seq<Seq<char>>)>,
    variables: Seq<(Seq<char>, HclValueModel)>,
    output: HclOutputModel,
) -> Result<(TranslationModel, OutputInfoModel), Seq<char>> {
    let name = output.name;
    let value = resolved(output.value, variables);
    match value {
        HclExprModel::Literal(literal) => Ok(
            (with_literal(state, name, literal), output_info(name, type_for(value))),
        ),
        HclExprModel::Reference(target) => match value_of(schema, target.block_type) {
            None => Err(unknown_type_text(name, target.block_type)),
            Some(names) => if names.contains(target.field) {
                Ok(
                    (
                        with_reference(state, blocks, name, target, names),
                        output_info(name, target_type(blocks, target)),
                    ),
                )
            } else {
                Err(unknown_field_text(name, target))
            },
        },
        HclExprModel::VarRef(var) => Err(unresolved_output_text(name, var)),
    }
}

/// Whether an output is among some.
pub open spec fn is_named_in(outputs: Seq<HclOutputModel>, name: Seq<char>) -> bool {
    exists|i: int| 0 <= i < outputs.len() && (#[trigger] outputs[i]).name == name
}

/// A translation with outputs one after the other and what is known of them, or what
/// is wrong with the first that has a name for the second time or cannot be had.
pub open spec fn with_outputs(
    state: TranslationModel,
    blocks: Seq<HclResourceModel>,
    schema: Seq<(Seq<char>, Seq<Seq<char>>)>,
    variables: Seq<(Seq<char>, HclValueModel)>,
    outputs: Seq<HclOutputModel>,
) -> Result<(TranslationModel, Seq<OutputInfoModel>), Seq<char>>
    decreases outputs.len(),
{
    if outputs.len() == 0 {
        Ok((state, Seq::empty()))
    } else {
        let front = outputs.drop_last();
        let output = outputs.last();
        match with_outputs(state, blocks, schema, variables, front) {
            Err(text) => Err(text),
            Ok((before, infos)) => if is_named_in(front, output.name) {
                Err(duplicate_text(output.name))
            } else {
                match with_output(before, blocks, schema, variables, output) {
                    Err(text) => Err(text),
                    Ok((after, info)) => Ok((after, infos.push(info))),
                }
            },
        }
    }
}

fn say_duplicate(name: &str) -> (out: String)
    ensures
        out@ == duplicate_text(name@),
{
    let mut out = "duplicate output name '".to_owned();
    out.append(name);
    out.append("'");
    out
}

fn say_unknown_type(name: &str, block_type: &str) -> (out: String)
    ensures
        out@ == unknown_type_text(name@, block_type@),
{
    let mut out = "output '".to_owned();
    out.append(name);
    out.append("' has a reference to unknown type '");
    out.append(block_type);
    out.append("'");
    out
}

fn say_unknown_field(name: &str, target: &Reference) -> (out: String)
    ensures
        out@ == unknown_field_text(name@, target.deep_view()),
{
    let mut out = "output '".to_owned();
    out.append(name);
    out.append("' has a reference to unknown field '");
    out.append(target.field.as_str());
    out.append("' of '");
    out.append(target.block_type.as_str());
    out.append("'");
    out
}

fn say_unresolved_output(name: &str, var: &str) -> (out: String)
    ensures
        out@ == unresolved_output_text(name@, var@),
{
    let mut out = "unresolved variable reference '".to_owned();
    out.append(var);
    out.append("' in output '");
    out.append(name);
    out.append("'");
    out
}

fn add_literal(state: &mut Translation, name: &str, value: &HclValue) -> (info: OutputInfo)
    requires
        old(state).wf(),
    ensures
        final(state).wf(),
        final(state).model() == with_literal(old(state).model(), name@, value.deep_view()),
        info.deep_view() == output_info(
            name@,
            type_for(HclExprModel::Literal(value.deep_view())),
        ),
{
    let data_type = match value {
        HclValue::Integer(_) => DataType::Integer,
        HclValue::String(_) => DataType::String,
        HclValue::Bool(_) => DataType::Integer,
    };
    let relation = name_relation(name);
    let number = value_to_i32(value, &mut state.string_table);
    declare(&mut state.edbs, make_output_decl(name, data_type));
    let mut tuple: Vec<i32> = Vec::new();
    tuple.push(number);
    assert(tuple.deep_view() =~= seq![number]);
    let mut tuples = match state.facts.get(relation.as_str()) {
        Some(tuples) => crate::compiler::translate::copy_tuples(tuples),
        None => empty(),
    };
    push(&mut tuples, tuple);
    state.facts.insert(relation, tuples);
    make_info(name, data_type)
}

/// Adds an output to a translation.
fn add_output(
    state: &mut Translation,
    blocks: &Vec<HclResource>,
    schema: &Ordered<Vec<String>>,
    variables: &Ordered<HclValue>,
    output: &HclOutput,
) -> (out: Result<OutputInfo, String>)
    requires
        old(state).wf(),
        schema.wf(),
        variables.wf(),
        forall|i: int| 0 <= i < blocks@.len() ==> (#[trigger] blocks@[i]).attributes.wf(),
    ensures
        final(state).wf(),
        match out {
            Ok(info) => with_output(
                old(state).model(),
                blocks.deep_view(),
                schema.deep_view(),
                variables.deep_view(),
                output.deep_view(),
            ) == Ok::<(TranslationModel, OutputInfoModel), Seq<char>>(
                (final(state).model(), info.deep_view()),
            ),
            Err(text) => with_output(
                old(state).model(),
                blocks.deep_view(),
                schema.deep_view(),
                variables.deep_view(),
                output.deep_view(),
            ) == Err::<(TranslationModel, OutputInfoModel), Seq<char>>(text@),
        },
{
    let name = output.name.as_str();
    match &output.value {
        HclExpr::Literal(value) => Ok(add_literal(state, name, value)),
        HclExpr::Reference(target) => {
            let names = match schema.get(target.block_type.as_str()) {
                Some(names) => names,
                None => {
                    return Err(say_unknown_type(name, target.block_type.as_str()));
                },
            };
            if !contains_same(names, &target.field) {
                return Err(say_unknown_field(name, target));
            }
            let data_type = find_target_type(blocks, target);
            declare(&mut state.idbs, make_output_decl(name, data_type));
            push(&mut state.rules, make_output_rule(name, target, names));
            Ok(make_info(name, data_type))
        },
        HclExpr::VarRef(var) => match variables.get(var.as_str()) {
            Some(value) => Ok(add_literal(state, name, value)),
            None => Err(say_unresolved_output(name, var.as_str())),
        },
    }
}

fn has_name(outputs: &Vec<HclOutput>, upto: usize, name: &String) -> (answer: bool)
    requires
        upto <= outputs@.len(),
    ensures
        answer == is_named_in(outputs.deep_view().take(upto as int), name@),
{
    let ghost models = outputs.deep_view();
    let mut i: usize = 0;
    while i < upto
        invariant
            i <= upto <= outputs@.len(),
            models == outputs.deep_view(),
            forall|k: int| 0 <= k < i ==> (#[trigger] models[k]).name != name@,
        decreases upto - i,
    {
        assert(models[i as int] == outputs@[i as int].deep_view());
        if outputs[i].name == *name {
            assert(models.take(upto as int)[i as int].name == name@);
            return true;
        }
        i += 1;
    }
    assert forall|k: int| 0 <= k < upto implies (#[trigger] models.take(upto as int)[k]).name
        != name@ by {
        assert(models[k].name != name@);
    }
    false
}

/// Adds the outputs of a program to its translation.
pub(crate) fn add_outputs(
    state: &mut Translation,
    blocks: &Vec<HclResource>,
    schema: &Ordered<Vec<String>>,
    variables: &Ordered<HclValue>,
    outputs: &Vec<HclOutput>,
) -> (out: Result<Vec<OutputInfo>, String>)
    requires
        old(state).wf(),
        schema.wf(),
        variables.wf(),
        forall|i: int| 0 <= i < blocks@.len() ==> (#[trigger] blocks@[i]).attributes.wf(),
    ensures
        final(state).wf(),
        match out {
            Ok(infos) => with_outputs(
                old(state).model(),
                blocks.deep_view(),
                schema.deep_view(),
                variables.deep_view(),
                outputs.deep_view(),
            ) == Ok::<(TranslationModel, Seq<OutputInfoModel>), Seq<char>>(
                (final(state).model(), infos.deep_view()),
            ),
            Err(text) => with_outputs(
                old(state).model(),
                blocks.deep_view(),
                schema.deep_view(),
                variables.deep_view(),
                outputs.deep_view(),
            ) == Err::<(TranslationModel, Seq<OutputInfoModel>), Seq<char>>(text@),
        },
{
    broadcast use group_take;

    let ghost start = state.model();
    let ghost models = outputs.deep_view();
    let mut infos: Vec<OutputInfo> = empty();
    let mut i: usize = 0;
    while i < outputs.len()
        invariant
            i <= outputs.len(),
            models == outputs.deep_view(),
            start == old(state).model(),
            state.wf(),
            schema.wf(),
            variables.wf(),
            forall|i: int| 0 <= i < blocks@.len() ==> (#[trigger] blocks@[i]).attributes.wf(),
            with_outputs(
                start,
                blocks.deep_view(),
                schema.deep_view(),
                variables.deep_view(),
                models.take(i as int),
            ) == Ok::<(TranslationModel, Seq<OutputInfoModel>), Seq<char>>(
                (state.model(), infos.deep_view()),
            ),
        decreases outputs.len() - i,
    {
        proof {
            assert(models.take(i + 1).drop_last() == models.take(i as int));
            assert(models[i as int] == outputs@[i as int].deep_view());
        }
        let output = &outputs[i];
        if has_name(outputs, i, &output.name) {
            proof {
                lemma_outputs_stay_wrong(
                    start,
                    blocks.deep_view(),
                    schema.deep_view(),
                    variables.deep_view(),
                    models,
                    i + 1,
                );
            }
            return Err(say_duplicate(output.name.as_str()));
        }
        match add_output(state, blocks, schema, variables, output) {
            Ok(info) => {
                push(&mut infos, info);
            },
            Err(text) => {
                proof {
                    lemma_outputs_stay_wrong(
                        start,
                        blocks.deep_view(),
                        schema.deep_view(),
                        variables.deep_view(),
                        models,
                        i + 1,
                    );
                }
                return Err(text);
            },
        }
        i += 1;
    }
    Ok(infos)
}

proof fn lemma_outputs_stay_wrong(
    state: TranslationModel,
    blocks: Seq<HclResourceModel>,
    schema: Seq<(Seq<char>, Seq<Seq<char>>)>,
    variables: Seq<(Seq<char>, HclValueModel)>,
    outputs: Seq<HclOutputModel>,
    n: int,
)
    requires
        0 <= n <= outputs.len(),
        with_outputs(state, blocks, schema, variables, outputs.take(n)) is Err,
    ensures
        with_outputs(state, blocks, schema, variables, outputs) == with_outputs(
            state,
            blocks,
            schema,
            variables,
            outputs.take(n),
        ),
    decreases outputs.len() - n,
{
    broadcast use group_take;

    if n < outputs.len() {
        assert(outputs.take(n + 1).drop_last() == outputs.take(n));
        lemma_outputs_stay_wrong(state, blocks, schema, variables, outputs, n + 1);
    }
}

/// Whether an output can be had: its value is written down, or it refers to an
/// attribute that blocks of the type have.
pub open spec fn can_be_had(
    schema: Seq<(Seq<char>, Seq<Seq<char>>)>,
    variables: Seq<(Seq<char>, HclValueModel)>,
    output: HclOutputModel,
) -> bool {
    match resolved(output.value, variables) {
        HclExprModel::Literal(_) => true,
        HclExprModel::Reference(target) => match value_of(schema, target.block_type) {
            Some(names) => names.contains(target.field),
            None => false,
        },
        HclExprModel::VarRef(_) => false,
    }
}

/// Outputs are refused for no other reasons than that a name stands twice or one of
/// them cannot be had. Otherwise each becomes a declared relation, in order.
pub proof fn law_outputs_become_relations(
    state: TranslationModel,
    blocks: Seq<HclResourceModel>,
    schema: Seq<(Seq<char>, Seq<Seq<char>>)>,
    variables: Seq<(Seq<char>, HclValueModel)>,
    outputs: Seq<HclOutputModel>,
)
    ensures
        with_outputs(state, blocks, schema, variables, outputs) is Ok <==> (forall|i: int|
            0 <= i < outputs.len() ==> can_be_had(schema, variables, #[trigger] outputs[i])) && (
        forall|i: int, j: int|
            0 <= i < j < outputs.len() ==> (#[trigger] outputs[i]).name != (
            #[trigger] outputs[j]).name),
        with_outputs(state, blocks, schema, variables, outputs) matches Ok((after, infos)) ==> {
            &&& infos.len() == outputs.len()
            &&& forall|i: int|
                0 <= i < outputs.len() ==> (#[trigger] infos[i]).name == outputs[i].name
                    && infos[i].relation_name == relation_for(outputs[i].name) && (is_declared(
                    after.edbs,
                    infos[i].relation_name,
                ) || is_declared(after.idbs, infos[i].relation_name))
        },
    decreases outputs.len(),
{
    if outputs.len() > 0 {
        let front = outputs.drop_last();
        let last = outputs.last();
        let n = front.len() as int;
        assert(outputs[n] == last);
        assert forall|i: int| 0 <= i < n implies front[i] == #[trigger] outputs[i] by {}
        law_outputs_become_relations(state, blocks, schema, variables, front);
        let whole = with_outputs(state, blocks, schema, variables, outputs);
        match with_outputs(state, blocks, schema, variables, front) {
            Ok((before, infos)) => {
                if whole is Ok {
                    let (after, all) = whole->Ok_0;
                    lemma_declared_stay(before, blocks, schema, variables, last);
                    assert forall|i: int| 0 <= i < outputs.len() implies (#[trigger] all[i]).name
                        == outputs[i].name && all[i].relation_name == relation_for(
                        outputs[i].name,
                    ) && (is_declared(after.edbs, all[i].relation_name) || is_declared(
                        after.idbs,
                        all[i].relation_name,
                    )) by {
                        if i < n {
                            assert(all[i] == infos[i]);
                            assert(outputs[i] == front[i]);
                        }
                    }
                    assert forall|i: int| 0 <= i < outputs.len() implies can_be_had(
                        schema,
                        variables,
                        #[trigger] outputs[i],
                    ) by {
                        if i < n {
                            assert(can_be_had(schema, variables, front[i]));
                        }
                    }
                    assert forall|i: int, j: int| 0 <= i < j < outputs.len() implies (
                    #[trigger] outputs[i]).name != (#[trigger] outputs[j]).name by {
                        assert(front[i] == outputs[i]);
                        if j < n {
                            assert(front[j] == outputs[j]);
                        }
                    }
                } else if is_named_in(front, last.name) {
                    let i = choose|i: int|
                        0 <= i < front.len() && (#[trigger] front[i]).name == last.name;
                    assert(outputs[i].name == outputs[n].name);
                } else {
                    assert(!can_be_had(schema, variables, outputs[n]));
                }
            },
            Err(_) => {
                if forall|i: int|
                    0 <= i < front.len() ==> can_be_had(schema, variables, #[trigger] front[i]) {
                    let (i, j) = choose|i: int, j: int|
                        0 <= i < j < front.len() && (#[trigger] front[i]).name == (
                        #[trigger] front[j]).name;
                    assert(outputs[i].name == outputs[j].name);
                } else {
                    let i = choose|i: int|
                        0 <= i < front.len() && !can_be_had(
                            schema,
                            variables,
                            #[trigger] front[i],
                        );
                    assert(!can_be_had(schema, variables, outputs[i]));
                }
            },
        }
    }
}

proof fn lemma_declared_with(decls: Seq<RelDeclModel>, decl: RelDeclModel)
    ensures
        is_declared(decls_with(decls, decl), decl.name),
        forall|name: Seq<char>| #[trigger]
            is_declared(decls, name) ==> is_declared(decls_with(decls, decl), name),
{
    let after = decls_with(decls, decl);
    if !is_declared(decls, decl.name) {
        assert(after[decls.len() as int] == decl);
        assert forall|name: Seq<char>| #[trigger] is_declared(decls, name) implies is_declared(
            after,
            name,
        ) by {
            let i = choose|i: int| 0 <= i < decls.len() && (#[trigger] decls[i]).name == name;
            assert(after[i].name == name);
        }
    }
}

proof fn lemma_declared_stay(
    state: TranslationModel,
    blocks: Seq<HclResourceModel>,
    schema: Seq<(Seq<char>, Seq<Seq<char>>)>,
    variables: Seq<(Seq<char>, HclValueModel)>,
    output: HclOutputModel,
)
    ensures
        with_output(state, blocks, schema, variables, output) matches Ok((after, info)) ==> {
            &&& info.name == output.name
            &&& info.relation_name == relation_for(output.name)
            &&& is_declared(after.edbs, info.relation_name) || is_declared(
                after.idbs,
                info.relation_name,
            )
            &&& forall|name: Seq<char>| #[trigger]
                is_declared(state.edbs, name) ==> is_declared(after.edbs, name)
            &&& forall|name: Seq<char>| #[trigger]
                is_declared(state.idbs, name) ==> is_declared(after.idbs, name)
        },
{
    let value = resolved(output.value, variables);
    match value {
        HclExprModel::Literal(_) => {
            lemma_declared_with(state.edbs, output_decl(output.name, type_for(value)));
        },
        HclExprModel::Reference(target) => {
            lemma_declared_with(
                state.idbs,
                output_decl(output.name, target_type(blocks, target)),
            );
        },
        HclExprModel::VarRef(_) => {},
    }
}

} // verus!
