//! What a translation keeps of the values of blocks.
use vstd::prelude::*;
use vstd::string::*;
use crate::compiler::naming::{capitalized, capitalized_all, upper, variable_name};
use crate::compiler::outputs::{decoded_tuple, decoded_value};
use crate::compiler::resolving::lemma_quoted;
use crate::compiler::string_table::{law_interned_text_is_found, number_of, table_with, text_under};
use crate::compiler::telling::value_text;
use crate::compiler::translate::{
    block_with, constant_of, declaration, head_of, names_with, repeated, tuple_of, type_for,
    value_number, value_table,
};
use crate::hcl_types::{HclExprModel, HclResourceModel, HclValueModel};
use crate::ordered::value_of;
use crate::parsing::decl::DataType;
use crate::parsing::rule::ConstModel;
use crate::reading::interner::{coded_const, column_types};
use crate::reference::{kind_of, BlockKind};
use crate::text::{law_parts_part_at_separators, split_text};

verus! {

/// A block is found by its type and label, and only a block with them is. No type and
/// label stand twice exactly if nothing is found repeated, and what is found repeated
/// stands twice.
pub proof fn law_blocks_are_told_apart(
    blocks: Seq<HclResourceModel>,
    id: (Seq<char>, Seq<char>),
)
    ensures
        block_with(blocks, id) is Some <==> exists|i: int|
            0 <= i < blocks.len() && (#[trigger] blocks[i]).id() == id,
        block_with(blocks, id) matches Some(block) ==> block.id() == id && blocks.contains(block),
        repeated(blocks) is None <==> forall|i: int, j: int|
            0 <= i < j < blocks.len() ==> (#[trigger] blocks[i]).id() != (
            #[trigger] blocks[j]).id(),
        repeated(blocks) matches Some(twice) ==> exists|i: int, j: int|
            0 <= i < j < blocks.len() && (#[trigger] blocks[i]).id() == twice && (
            #[trigger] blocks[j]).id() == twice,
    decreases blocks.len(),
{
    if blocks.len() > 0 {
        let front = blocks.drop_last();
        let n = blocks.len() - 1;
        law_blocks_are_told_apart(front, id);
        assert(blocks[n] == blocks.last());
        assert(blocks.contains(blocks[n]));
        assert(forall|i: int| 0 <= i < front.len() ==> front[i] == blocks[i]);
        if let Some(block) = block_with(front, id) {
            let i = choose|i: int| 0 <= i < front.len() && front[i] == block;
            assert(blocks[i] == block);
            assert(blocks[i].id() == id);
        }
        if block_with(blocks, id) is None {
            assert forall|i: int| 0 <= i < blocks.len() implies (#[trigger] blocks[i]).id()
                != id by {
                if i < n {
                    assert(front[i].id() != id);
                }
            }
        }
        if let Some(twice) = repeated(front) {
            let (i, j) = choose|i: int, j: int|
                0 <= i < j < front.len() && (#[trigger] front[i]).id() == twice && (
                #[trigger] front[j]).id() == twice;
            assert(blocks[i].id() == twice && blocks[j].id() == twice);
        } else if let Some(twice) = repeated(blocks) {
            let i = choose|i: int| 0 <= i < front.len() && (#[trigger] front[i]).id() == twice;
            assert(blocks[i].id() == twice && blocks[n].id() == twice);
        } else {
            assert forall|i: int, j: int| 0 <= i < j < blocks.len() implies (
            #[trigger] blocks[i]).id() != (#[trigger] blocks[j]).id() by {
                assert(front[i] == blocks[i]);
                if j < n {
                    assert(front[j] == blocks[j]);
                }
            }
        }
    }
}

/// A block is derived exactly if one of its attributes refers to another block.
pub proof fn law_kinds_of_blocks(block: HclResourceModel)
    ensures
        kind_of(block) == BlockKind::Idb <==> exists|k: int|
            0 <= k < block.attributes.len() && (#[trigger] block.attributes[k]).1
                matches HclExprModel::Reference(_),
{
}

/// Whether a number stands for a value: a number for itself, one and zero for true and
/// false, and the place of a text in a table for the text.
pub open spec fn stands_for(number: i32, value: HclValueModel, table: Seq<Seq<char>>) -> bool {
    match value {
        HclValueModel::Integer(i) => number == i,
        HclValueModel::Bool(b) => if b {
            number == 1
        } else {
            number == 0
        },
        HclValueModel::String(s) => 0 <= number < table.len() && table[number as int] == s,
    }
}

/// The number of a value stands for it in the table that its text was entered into, and
/// is shown as the value by the type of the value, whatever else the table holds.
pub proof fn law_numbers_stand_for_values(value: HclValueModel, table: Seq<Seq<char>>)
    requires
        table.no_duplicates(),
        table.len() < i32::MAX,
    ensures
        stands_for(value_number(value, table), value, value_table(value, table)),
        decoded_value(
            value_number(value, table),
            seq![type_for(HclExprModel::Literal(value))],
            0,
            value_table(value, table),
        ) == value_text(value),
{
    if let HclValueModel::String(s) = value {
        law_interned_text_is_found(table, s, s);
    }
}

/// A literal is the same number in a rule as in a fact.
pub proof fn law_literals_are_the_same_in_rules(value: HclValueModel, table: Seq<Seq<char>>)
    ensures
        coded_const(constant_of(value), table) == ConstModel::Integer(value_number(value, table)),
{
    if let HclValueModel::String(s) = value {
        lemma_quoted(s);
    }
}

/// Whether a table is another one with more texts behind it.
pub open spec fn goes_on(table: Seq<Seq<char>>, after: Seq<Seq<char>>) -> bool {
    &&& after.no_duplicates()
    &&& table.len() <= after.len()
    &&& forall|i: int| 0 <= i < table.len() ==> #[trigger] table[i] == after[i]
}

proof fn lemma_goes_on(table: Seq<Seq<char>>, s: Seq<char>)
    requires
        table.no_duplicates(),
        table.len() < i32::MAX,
    ensures
        goes_on(table, table_with(table, s)),
        table_with(table, s).len() <= table.len() + 1,
        0 <= number_of(table, s) < table_with(table, s).len(),
        table_with(table, s)[number_of(table, s) as int] == s,
{
    law_interned_text_is_found(table, s, s);
}

proof fn lemma_stands_on(
    number: i32,
    value: HclValueModel,
    table: Seq<Seq<char>>,
    after: Seq<Seq<char>>,
)
    requires
        stands_for(number, value, table),
        goes_on(table, after),
    ensures
        stands_for(number, value, after),
{
    if value is String {
        assert(table[number as int] == after[number as int]);
    }
}

/// A block can be written down as a fact exactly if it gives a literal to each attribute
/// of its type. The fact then holds what stands for the label and for each of the
/// literals, in the order of the attributes.
pub proof fn law_facts_hold_the_values_of_their_blocks(
    block: HclResourceModel,
    names: Seq<Seq<char>>,
    table: Seq<Seq<char>>,
)
    requires
        table.no_duplicates(),
        table.len() + names.len() < i32::MAX,
    ensures
        tuple_of(block, names, table) is Ok <==> forall|k: int|
            0 <= k < names.len() ==> (value_of(block.attributes, #[trigger] names[k]) matches Some(
                HclExprModel::Literal(_),
            )),
        tuple_of(block, names, table) matches Ok((tuple, after)) ==> {
            &&& tuple.len() == 1 + names.len()
            &&& goes_on(table, after)
            &&& after.len() <= table.len() + 1 + names.len()
            &&& stands_for(tuple[0], HclValueModel::String(block.label), after)
            &&& forall|k: int|
                0 <= k < names.len() ==> (value_of(block.attributes, #[trigger] names[k])
                    matches Some(HclExprModel::Literal(value)) && stands_for(
                    tuple[1 + k],
                    value,
                    after,
                ))
        },
    decreases names.len(),
{
    if names.len() == 0 {
        lemma_goes_on(table, block.label);
    } else {
        let front = names.drop_last();
        let n = names.len() - 1;
        law_facts_hold_the_values_of_their_blocks(block, front, table);
        assert(names[n] == names.last());
        assert(forall|k: int| 0 <= k < front.len() ==> front[k] == names[k]);
        match tuple_of(block, front, table) {
            Ok((before, known)) => {
                if let Some(HclExprModel::Literal(value)) = value_of(
                    block.attributes,
                    names.last(),
                ) {
                    let (tuple, after) = tuple_of(block, names, table)->Ok_0;
                    law_numbers_stand_for_values(value, known);
                    if let HclValueModel::String(s) = value {
                        lemma_goes_on(known, s);
                    }
                    assert forall|i: int| 0 <= i < table.len() implies #[trigger] table[i]
                        == after[i] by {
                        assert(table[i] == known[i]);
                        assert(known[i] == after[i]);
                    }
                    assert(tuple[0] == before[0]);
                    lemma_stands_on(
                        before[0],
                        HclValueModel::String(block.label),
                        known,
                        after,
                    );
                    assert forall|k: int| 0 <= k < names.len() implies (value_of(
                        block.attributes,
                        #[trigger] names[k],
                    ) matches Some(HclExprModel::Literal(v)) && stands_for(
                        tuple[1 + k],
                        v,
                        after,
                    )) by {
                        if k < n {
                            assert(front[k] == names[k]);
                            assert(tuple[1 + k] == before[1 + k]);
                            let v = value_of(block.attributes, front[k])->0->Literal_0;
                            lemma_stands_on(before[1 + k], v, known, after);
                        }
                    }
                } else {
                    assert(!(value_of(block.attributes, names[n]) matches Some(
                        HclExprModel::Literal(_),
                    )));
                }
            },
            Err(_) => {
                let k = choose|k: int|
                    0 <= k < front.len() && !(value_of(block.attributes, #[trigger] front[k])
                        matches Some(HclExprModel::Literal(_)));
                assert(!(value_of(block.attributes, names[k]) matches Some(
                    HclExprModel::Literal(_),
                )));
            },
        }
    }
}

/// A fact shows the block that it was made of: decoded by the types of the columns that
/// the type of the block is declared with, it gives the label and the values of the
/// attributes. The columns are named for the label and the attributes.
pub proof fn law_facts_show_their_blocks(
    block: HclResourceModel,
    names: Seq<Seq<char>>,
    table: Seq<Seq<char>>,
    k: int,
)
    requires
        table.no_duplicates(),
        table.len() + names.len() < i32::MAX,
        tuple_of(block, names, table) is Ok,
        0 <= k < names.len(),
    ensures
        ({
            let (tuple, after) = tuple_of(block, names, table)->Ok_0;
            let decl = declaration(block.block_type, names, block.attributes);
            let shown = decoded_tuple(tuple, column_types(decl), after);
            &&& decl.name == block.block_type
            &&& decl.attributes.len() == 1 + names.len()
            &&& decl.attributes[1 + k].name == names[k]
            &&& shown.len() == 1 + names.len()
            &&& shown[0] == block.label
            &&& value_of(block.attributes, names[k]) matches Some(HclExprModel::Literal(value))
                && shown[1 + k] == value_text(value)
        }),
{
    law_facts_hold_the_values_of_their_blocks(block, names, table);
    let (tuple, after) = tuple_of(block, names, table)->Ok_0;
    let decl = declaration(block.block_type, names, block.attributes);
    let types = column_types(decl);
    assert(types[0] == DataType::String);
    let value = value_of(block.attributes, names[k])->0->Literal_0;
    assert(types[1 + k] == type_for(HclExprModel::Literal(value)));
    assert(stands_for(tuple[1 + k], value, after));
    assert(text_under(after, tuple[0]) == Some(block.label));
}

/// The variable for a name is made of its words: the words between underscores are put
/// together without them, each with its first letter as a capital.
pub proof fn law_variables_are_made_of_words(a: Seq<char>, b: Seq<char>)
    ensures
        variable_name(a.push('_') + b) == variable_name(a) + variable_name(b),
        variable_name(Seq::empty()) == Seq::<char>::empty(),
        !a.contains('_') && a.len() > 0 && (a[0] as u32) < 128 ==> ({
            let name = variable_name(a);
            &&& name.len() == a.len()
            &&& name.skip(1) == a.skip(1)
            &&& if 'a' <= a[0] <= 'z' {
                name[0] as int - 'A' as int == a[0] as int - 'a' as int
            } else {
                name[0] == a[0]
            }
        }),
{
    law_parts_part_at_separators(a, b, '_');
    lemma_words(split_text(a, '_'), split_text(b, '_'));
    lemma_one_word(Seq::empty());
    assert(split_text(Seq::empty(), '_') =~= seq![Seq::empty()]);
    if !a.contains('_') && a.len() > 0 && (a[0] as u32) < 128 {
        lemma_one_word(a);
        let name = variable_name(a);
        assert(name == upper(a[0]) + a.skip(1));
        assert(name.skip(1) =~= a.skip(1));
    }
}

proof fn lemma_one_word(word: Seq<char>)
    ensures
        capitalized_all(seq![word]) == capitalized(word),
{
    assert(seq![word].drop_last() =~= Seq::empty());
    assert(capitalized_all(Seq::empty()) =~= Seq::empty());
    assert(capitalized_all(seq![word]) =~= capitalized(word));
}

proof fn lemma_words(a: Seq<Seq<char>>, b: Seq<Seq<char>>)
    ensures
        capitalized_all(a + b) == capitalized_all(a) + capitalized_all(b),
    decreases b.len(),
{
    if b.len() == 0 {
        assert(a + b =~= a);
        assert(capitalized_all(a) + capitalized_all(b) =~= capitalized_all(a));
    } else {
        lemma_words(a, b.drop_last());
        assert((a + b).drop_last() =~= a + b.drop_last());
        assert(capitalized_all(a + b) =~= capitalized_all(a) + capitalized_all(b));
    }
}

/// The attributes of a type come in the order in which its blocks name them first: those
/// that are known stay where they are, and a new one goes behind them.
pub proof fn law_new_attributes_go_behind(
    names: Seq<Seq<char>>,
    attributes: Seq<(Seq<char>, HclExprModel)>,
    name: Seq<char>,
    expr: HclExprModel,
)
    ensures
        names_with(names, Seq::empty()) == names,
        names_with(names, attributes.push((name, expr))) == if names_with(
            names,
            attributes,
        ).contains(name) {
            names_with(names, attributes)
        } else {
            names_with(names, attributes).push(name)
        },
        names.is_prefix_of(names_with(names, attributes)),
    decreases attributes.len(),
{
    assert(attributes.push((name, expr)).drop_last() =~= attributes);
    if attributes.len() > 0 {
        law_new_attributes_go_behind(names, attributes.drop_last(), name, expr);
    }
}

/// A block that cannot be written down as a fact is refused for the first attribute that
/// has no literal: it is named, and whether it is missing or has another value.
pub proof fn law_refused_facts_name_the_first_attribute(
    block: HclResourceModel,
    names: Seq<Seq<char>>,
    table: Seq<Seq<char>>,
)
    ensures
        tuple_of(block, names, table) matches Err(text) ==> exists|k: int| {
            &&& 0 <= k < names.len()
            &&& forall|j: int|
                0 <= j < k ==> (value_of(block.attributes, #[trigger] names[j]) matches Some(
                    HclExprModel::Literal(_),
                ))
            &&& match value_of(block.attributes, #[trigger] names[k]) {
                None => text == "resource "@ + block.block_type + "."@ + block.label
                    + " missing attribute '"@ + names[k] + "'"@,
                Some(HclExprModel::Literal(_)) => false,
                Some(_) => text == "EDB block "@ + block.block_type + "."@ + block.label
                    + " has non-literal value for '"@ + names[k] + "'"@,
            }
        },
    decreases names.len(),
{
    if names.len() > 0 {
        let front = names.drop_last();
        let n = names.len() - 1;
        law_refused_facts_name_the_first_attribute(block, front, table);
        assert(names[n] == names.last());
        match tuple_of(block, front, table) {
            Err(text) => {
                let k = choose|k: int| {
                    &&& 0 <= k < front.len()
                    &&& forall|j: int|
                        0 <= j < k ==> (value_of(block.attributes, #[trigger] front[j])
                            matches Some(HclExprModel::Literal(_)))
                    &&& match value_of(block.attributes, #[trigger] front[k]) {
                        None => text == "resource "@ + block.block_type + "."@ + block.label
                            + " missing attribute '"@ + front[k] + "'"@,
                        Some(HclExprModel::Literal(_)) => false,
                        Some(_) => text == "EDB block "@ + block.block_type + "."@ + block.label
                            + " has non-literal value for '"@ + front[k] + "'"@,
                    }
                };
                assert(names[k] == front[k]);
                assert forall|j: int| 0 <= j < k implies (value_of(
                    block.attributes,
                    #[trigger] names[j],
                ) matches Some(HclExprModel::Literal(_))) by {
                    assert(front[j] == names[j]);
                }
            },
            Ok(_) => {
                lemma_literals(block, front, table);
                assert forall|j: int| 0 <= j < n implies (value_of(
                    block.attributes,
                    #[trigger] names[j],
                ) matches Some(HclExprModel::Literal(_))) by {
                    assert(front[j] == names[j]);
                }
            },
        }
    }
}

proof fn lemma_literals(block: HclResourceModel, names: Seq<Seq<char>>, table: Seq<Seq<char>>)
    requires
        tuple_of(block, names, table) is Ok,
    ensures
        forall|j: int|
            0 <= j < names.len() ==> (value_of(block.attributes, #[trigger] names[j]) matches Some(
                HclExprModel::Literal(_),
            )),
    decreases names.len(),
{
    if names.len() > 0 {
        let front = names.drop_last();
        lemma_literals(block, front, table);
        assert forall|j: int| 0 <= j < names.len() implies (value_of(
            block.attributes,
            #[trigger] names[j],
        ) matches Some(HclExprModel::Literal(_))) by {
            if j < front.len() {
                assert(front[j] == names[j]);
            }
        }
    }
}

/// A block that cannot become the head of a rule is refused for the first attribute that
/// is missing or names a variable without a value: it is named, and which of both holds.
pub proof fn law_refused_rules_name_the_first_attribute(
    block: HclResourceModel,
    names: Seq<Seq<char>>,
)
    ensures
        head_of(block, names) is Ok ==> forall|j: int|
            0 <= j < names.len() ==> (value_of(block.attributes, #[trigger] names[j]) matches Some(
                expr,
            ) && !(expr is VarRef)),
        head_of(block, names) matches Err(text) ==> exists|k: int| {
            &&& 0 <= k < names.len()
            &&& forall|j: int|
                0 <= j < k ==> (value_of(block.attributes, #[trigger] names[j]) matches Some(expr)
                    && !(expr is VarRef))
            &&& match value_of(block.attributes, #[trigger] names[k]) {
                None => text == "resource "@ + block.block_type + "."@ + block.label
                    + " missing attribute '"@ + names[k] + "'"@,
                Some(expr) => expr is VarRef && text == "unresolved variable reference in "@
                    + block.block_type + "."@ + block.label + "."@ + names[k],
            }
        },
    decreases names.len(),
{
    if names.len() > 0 {
        let front = names.drop_last();
        let n = names.len() - 1;
        law_refused_rules_name_the_first_attribute(block, front);
        assert(names[n] == names.last());
        match head_of(block, front) {
            Err(text) => {
                let k = choose|k: int| {
                    &&& 0 <= k < front.len()
                    &&& forall|j: int|
                        0 <= j < k ==> (value_of(block.attributes, #[trigger] front[j])
                            matches Some(expr) && !(expr is VarRef))
                    &&& match value_of(block.attributes, #[trigger] front[k]) {
                        None => text == "resource "@ + block.block_type + "."@ + block.label
                            + " missing attribute '"@ + front[k] + "'"@,
                        Some(expr) => expr is VarRef && text
                            == "unresolved variable reference in "@ + block.block_type + "."@
                            + block.label + "."@ + front[k],
                    }
                };
                assert(names[k] == front[k]);
                assert forall|j: int| 0 <= j < k implies (value_of(
                    block.attributes,
                    #[trigger] names[j],
                ) matches Some(expr) && !(expr is VarRef)) by {
                    assert(front[j] == names[j]);
                }
            },
            Ok(_) => {
                assert forall|j: int| 0 <= j < n implies (value_of(
                    block.attributes,
                    #[trigger] names[j],
                ) matches Some(expr) && !(expr is VarRef)) by {
                    assert(front[j] == names[j]);
                }
            },
        }
    }
}

} // verus!
