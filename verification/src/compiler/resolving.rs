//! What references come to, and what the rules of blocks say.
use vstd::prelude::*;
use crate::catalog::body::{atoms_of, comparisons, negated_atoms, positive_atoms};
use crate::catalog::sideways::{lemma_no_negated, lemma_only_positive};
use crate::compiler::naming::{pair_name, variable_name};
use crate::compiler::string_table::number_of;
use crate::compiler::translate::{
    atom_for, block_with, body_of, constant_argument, head_of, quoted, targets_of, value_number,
    var_for, BindingModel, TargetModel,
};
use crate::executing::compare::evaluate;
use crate::executing::meaning::{
    argument_fits, atom_holds, head_value, row_fits, satisfies, valued_rest, Database, Valuation,
};
use crate::hcl_types::{HclExprModel, HclResourceModel, HclValueModel, ReferenceModel};
use crate::lists::unique_keys;
use crate::ordered::{law_entered_value_is_found, place_of, value_of};
use crate::parsing::arithmetic::ArithmeticOperator;
use crate::parsing::compare::ComparisonExprModel;
use crate::parsing::head::HeadArgModel;
use crate::parsing::rule::{
    AtomArgModel, AtomModel, ConstModel, FLRuleModel, PredicateModel,
};
use crate::reading::interner::{coded_atom, coded_head_argument, coded_rule, literal_text};
use crate::text::{int_text, law_int_text_injective, lemma_nat_text_digits, nat_text};

verus! {

/// What an attribute of a block comes to, over at most so many references.
pub open spec fn value_in(
    blocks: Seq<HclResourceModel>,
    block: HclResourceModel,
    name: Seq<char>,
    depth: nat,
) -> Option<HclValueModel>
    decreases depth, 0nat,
{
    match value_of(block.attributes, name) {
        Some(HclExprModel::Literal(value)) => Some(value),
        Some(HclExprModel::Reference(target)) => if depth == 0 {
            None
        } else {
            value_at(blocks, target, (depth - 1) as nat)
        },
        _ => None,
    }
}

/// Whether all attributes of a block come to something.
pub open spec fn is_whole(
    blocks: Seq<HclResourceModel>,
    block: HclResourceModel,
    depth: nat,
) -> bool
    decreases depth, 1nat,
{
    forall|k: int|
        0 <= k < block.attributes.len() ==> value_in(
            blocks,
            block,
            (#[trigger] block.attributes[k]).0,
            depth,
        ) is Some
}

/// What a reference comes to, over at most so many more references: the attribute of the
/// block that it names, where there is one and all its attributes come to something.
pub open spec fn value_at(
    blocks: Seq<HclResourceModel>,
    target: ReferenceModel,
    depth: nat,
) -> Option<HclValueModel>
    decreases depth, 2nat,
{
    match block_with(blocks, (target.block_type, target.block_label)) {
        Some(block) => if is_whole(blocks, block, depth) {
            value_in(blocks, block, target.field, depth)
        } else {
            None
        },
        None => None,
    }
}

/// Whether a reference comes to a value.
pub open spec fn comes_to(
    blocks: Seq<HclResourceModel>,
    target: ReferenceModel,
    value: HclValueModel,
) -> bool {
    exists|depth: nat| #[trigger] value_at(blocks, target, depth) == Some(value)
}

/// Over more references nothing else comes of an attribute.
pub proof fn lemma_deeper_in(
    blocks: Seq<HclResourceModel>,
    block: HclResourceModel,
    name: Seq<char>,
    depth: nat,
    more: nat,
)
    requires
        value_in(blocks, block, name, depth) is Some,
        depth <= more,
    ensures
        value_in(blocks, block, name, more) == value_in(blocks, block, name, depth),
    decreases depth, 0nat,
{
    match value_of(block.attributes, name) {
        Some(HclExprModel::Reference(target)) => {
            lemma_deeper_at(blocks, target, (depth - 1) as nat, (more - 1) as nat);
        },
        _ => {},
    }
}

pub proof fn lemma_deeper_whole(
    blocks: Seq<HclResourceModel>,
    block: HclResourceModel,
    depth: nat,
    more: nat,
)
    requires
        is_whole(blocks, block, depth),
        depth <= more,
    ensures
        is_whole(blocks, block, more),
    decreases depth, 1nat,
{
    assert forall|k: int| 0 <= k < block.attributes.len() implies value_in(
        blocks,
        block,
        (#[trigger] block.attributes[k]).0,
        more,
    ) is Some by {
        lemma_deeper_in(blocks, block, block.attributes[k].0, depth, more);
    }
}

pub proof fn lemma_deeper_at(
    blocks: Seq<HclResourceModel>,
    target: ReferenceModel,
    depth: nat,
    more: nat,
)
    requires
        value_at(blocks, target, depth) is Some,
        depth <= more,
    ensures
        value_at(blocks, target, more) == value_at(blocks, target, depth),
    decreases depth, 2nat,
{
    let block = block_with(blocks, (target.block_type, target.block_label))->0;
    lemma_deeper_whole(blocks, block, depth, more);
    lemma_deeper_in(blocks, block, target.field, depth, more);
}

/// A reference comes to one value at most.
pub proof fn law_references_come_to_one_value(
    blocks: Seq<HclResourceModel>,
    target: ReferenceModel,
    a: HclValueModel,
    b: HclValueModel,
)
    requires
        comes_to(blocks, target, a),
        comes_to(blocks, target, b),
    ensures
        a == b,
{
    let i = choose|depth: nat| #[trigger] value_at(blocks, target, depth) == Some(a);
    let j = choose|depth: nat| #[trigger] value_at(blocks, target, depth) == Some(b);
    if i <= j {
        lemma_deeper_at(blocks, target, i, j);
    } else {
        lemma_deeper_at(blocks, target, j, i);
    }
}

proof fn lemma_start(s: Seq<char>, t: Seq<char>, a: Seq<char>, b: Seq<char>)
    requires
        s.len() == t.len(),
        s + a == t + b,
    ensures
        s == t,
        a == b,
{
    assert(s =~= (s + a).take(s.len() as int));
    assert(t =~= (t + b).take(t.len() as int));
    assert(a =~= (s + a).skip(s.len() as int));
    assert(b =~= (t + b).skip(t.len() as int));
}

/// The names of pairs tell the pairs apart.
pub proof fn law_pair_names(a: Seq<char>, b: Seq<char>, c: Seq<char>, d: Seq<char>)
    requires
        pair_name(a, b) == pair_name(c, d),
    ensures
        a == c,
        b == d,
{
    reveal_strlit(" ");
    let m = nat_text(a.len());
    let n = nat_text(c.len());
    let x = pair_name(a, b);
    lemma_nat_text_digits(a.len());
    lemma_nat_text_digits(c.len());
    assert(x[m.len() as int] == ' ');
    assert(x[n.len() as int] == ' ');
    if m.len() < n.len() {
        assert(x[m.len() as int] == n[m.len() as int]);
    } else if n.len() < m.len() {
        assert(x[n.len() as int] == m[n.len() as int]);
    }
    assert(x =~= (m + " "@) + (a + b));
    assert(x =~= (n + " "@) + (c + d));
    lemma_start(m + " "@, n + " "@, a + b, c + d);
    lemma_start(m, n, " "@, " "@);
    assert(int_text(a.len() as int) == int_text(c.len() as int));
    law_int_text_injective(a.len() as int, c.len() as int);
    lemma_start(a, c, b, d);
}

/// What an argument of the head of a block stands for.
pub open spec fn is_head_argument(
    block: HclResourceModel,
    name: Seq<char>,
    argument: HeadArgModel,
    bindings: Seq<BindingModel>,
) -> bool {
    match value_of(block.attributes, name) {
        Some(HclExprModel::Literal(value)) => argument == constant_argument(value),
        Some(HclExprModel::Reference(target)) => argument == HeadArgModel::Var(
            variable_name(name),
        ) && bindings.contains(BindingModel { var: variable_name(name), target }),
        _ => false,
    }
}

/// Whether a variable of a rule is that of an attribute that refers to another block.
pub open spec fn is_bound_by(
    block: HclResourceModel,
    names: Seq<Seq<char>>,
    binding: BindingModel,
) -> bool {
    exists|k: int|
        0 <= k < names.len() && value_of(block.attributes, #[trigger] names[k]) == Some(
            HclExprModel::Reference(binding.target),
        ) && binding.var == variable_name(names[k])
}

pub proof fn lemma_head(block: HclResourceModel, names: Seq<Seq<char>>)
    requires
        head_of(block, names) is Ok,
    ensures
        ({
            let (arguments, bindings) = head_of(block, names)->Ok_0;
            &&& arguments.len() == 1 + names.len()
            &&& arguments[0] == constant_argument(HclValueModel::String(block.label))
            &&& forall|k: int|
                0 <= k < names.len() ==> is_head_argument(
                    block,
                    #[trigger] names[k],
                    arguments[1 + k],
                    bindings,
                )
            &&& forall|i: int|
                0 <= i < bindings.len() ==> is_bound_by(block, names, #[trigger] bindings[i])
        }),
    decreases names.len(),
{
    if names.len() > 0 {
        let front = names.drop_last();
        lemma_head(block, front);
        let (before, bound) = head_of(block, front)->Ok_0;
        let (arguments, bindings) = head_of(block, names)->Ok_0;
        let n = front.len() as int;
        assert(names[n] == names.last());
        assert forall|b: BindingModel| #[trigger] bound.contains(b) implies bindings.contains(
            b,
        ) by {
            let i = choose|i: int| 0 <= i < bound.len() && bound[i] == b;
            assert(bindings[i] == b);
        }
        if bindings.len() > bound.len() {
            assert(bindings[bound.len() as int] == bindings.last());
            assert(bindings.contains(bindings.last()));
        }
        assert forall|k: int| 0 <= k < names.len() implies is_head_argument(
            block,
            #[trigger] names[k],
            arguments[1 + k],
            bindings,
        ) by {
            if k < n {
                assert(names[k] == front[k]);
                assert(arguments[1 + k] == before[1 + k]);
                assert(is_head_argument(block, front[k], before[1 + k], bound));
            }
        }
        assert forall|i: int| 0 <= i < bindings.len() implies is_bound_by(
            block,
            names,
            #[trigger] bindings[i],
        ) by {
            if i < bound.len() {
                assert(bindings[i] == bound[i]);
                assert(is_bound_by(block, front, bound[i]));
                let k = choose|k: int|
                    0 <= k < front.len() && value_of(block.attributes, #[trigger] front[k])
                        == Some(HclExprModel::Reference(bound[i].target)) && bound[i].var
                        == variable_name(front[k]);
                assert(names[k] == front[k]);
            } else {
                assert(value_of(block.attributes, names[n]) == Some(
                    HclExprModel::Reference(bindings[i].target),
                ));
            }
        }
    }
}

/// Whether a target takes a variable from the block that the variable refers to.
pub open spec fn takes(target: TargetModel, binding: BindingModel) -> bool {
    &&& target.block_type == binding.target.block_type
    &&& target.block_label == binding.target.block_label
    &&& target.fields.contains((binding.var, binding.target.field))
}

/// Whether a variable is taken from one of the targets.
pub open spec fn is_taken(
    targets: Seq<(Seq<char>, TargetModel)>,
    binding: BindingModel,
) -> bool {
    exists|i: int| 0 <= i < targets.len() && takes((#[trigger] targets[i]).1, binding)
}

/// Whether all variables of a target refer to its block.
pub open spec fn is_made_of(target: TargetModel, bindings: Seq<BindingModel>) -> bool {
    forall|j: int|
        0 <= j < target.fields.len() ==> bindings.contains(
            BindingModel {
                var: (#[trigger] target.fields[j]).0,
                target: ReferenceModel {
                    block_type: target.block_type,
                    block_label: target.block_label,
                    field: target.fields[j].1,
                },
            },
        )
}

/// What is known of the targets of a rule.
pub open spec fn are_targets(
    targets: Seq<(Seq<char>, TargetModel)>,
    bindings: Seq<BindingModel>,
) -> bool {
    &&& unique_keys(targets)
    &&& forall|i: int|
        0 <= i < targets.len() ==> (#[trigger] targets[i]).0 == pair_name(
            targets[i].1.block_type,
            targets[i].1.block_label,
        ) && targets[i].1.fields.len() > 0 && is_made_of(targets[i].1, bindings)
    &&& forall|b: int| 0 <= b < bindings.len() ==> is_taken(targets, #[trigger] bindings[b])
}

proof fn lemma_made_of_more(
    target: TargetModel,
    bindings: Seq<BindingModel>,
    binding: BindingModel,
)
    requires
        is_made_of(target, bindings),
    ensures
        is_made_of(target, bindings.push(binding)),
{
    assert forall|b: BindingModel| #[trigger] bindings.contains(b) implies bindings.push(
        binding,
    ).contains(b) by {
        let i = choose|i: int| 0 <= i < bindings.len() && bindings[i] == b;
        assert(bindings.push(binding)[i] == b);
    }
}

pub proof fn lemma_targets(bindings: Seq<BindingModel>)
    ensures
        are_targets(targets_of(bindings), bindings),
    decreases bindings.len(),
{
    if bindings.len() > 0 {
        let shorter = bindings.drop_last();
        let binding = bindings.last();
        let front = targets_of(shorter);
        let targets = targets_of(bindings);
        lemma_targets(shorter);
        assert(bindings =~= shorter.push(binding));
        assert(bindings[bindings.len() - 1] == binding);
        let key = pair_name(binding.target.block_type, binding.target.block_label);
        let fields = match value_of(front, key) {
            Some(target) => target.fields,
            None => Seq::empty(),
        };
        let own = TargetModel {
            block_type: binding.target.block_type,
            block_label: binding.target.block_label,
            fields: fields.push((binding.var, binding.target.field)),
        };
        law_entered_value_is_found(front, key, own, key);
        let place = place_of(front, key);
        if place is Some {
            let i = place->0;
            assert(0 <= i < front.len() && front[i].0 == key);
            law_pair_names(
                front[i].1.block_type,
                front[i].1.block_label,
                binding.target.block_type,
                binding.target.block_label,
            );
            assert(is_made_of(front[i].1, shorter));
        }
        assert(is_made_of(own, bindings)) by {
            assert forall|j: int| 0 <= j < own.fields.len() implies bindings.contains(
                BindingModel {
                    var: (#[trigger] own.fields[j]).0,
                    target: ReferenceModel {
                        block_type: own.block_type,
                        block_label: own.block_label,
                        field: own.fields[j].1,
                    },
                },
            ) by {
                if j < fields.len() {
                    let i = place->0;
                    lemma_made_of_more(front[i].1, shorter, binding);
                    assert(front[i].1.fields[j] == own.fields[j]);
                } else {
                    assert(binding.target == (ReferenceModel {
                        block_type: own.block_type,
                        block_label: own.block_label,
                        field: own.fields[j].1,
                    }));
                    assert(bindings[bindings.len() - 1] == binding);
                }
            }
        }
        assert forall|i: int| 0 <= i < targets.len() implies (#[trigger] targets[i]).0
            == pair_name(targets[i].1.block_type, targets[i].1.block_label)
            && targets[i].1.fields.len() > 0 && is_made_of(targets[i].1, bindings) by {
            if targets[i].0 == key && targets[i].1 == own {
            } else {
                assert(i < front.len() && targets[i] == front[i]);
                lemma_made_of_more(front[i].1, shorter, binding);
            }
        }
        assert(takes(own, binding)) by {
            assert(own.fields[fields.len() as int] == (binding.var, binding.target.field));
        }
        assert forall|b: int| 0 <= b < bindings.len() implies is_taken(
            targets,
            #[trigger] bindings[b],
        ) by {
            let at = match place {
                Some(i) => i,
                None => front.len() as int,
            };
            assert(targets[at].1 == own);
            if b < shorter.len() {
                assert(shorter[b] == bindings[b]);
                assert(is_taken(front, shorter[b]));
                let i = choose|i: int|
                    0 <= i < front.len() && takes((#[trigger] front[i]).1, shorter[b]);
                if place == Some(i) {
                    let pair = (shorter[b].var, shorter[b].target.field);
                    let j = choose|j: int| 0 <= j < fields.len() && fields[j] == pair;
                    assert(own.fields[j] == pair);
                    assert(takes(targets[i].1, bindings[b]));
                } else {
                    assert(targets[i] == front[i]);
                }
            } else {
                assert(takes(targets[at].1, binding));
            }
        }
    }
}

/// The atom of a target.
pub open spec fn target_atom(
    target: TargetModel,
    schema: Seq<(Seq<char>, Seq<Seq<char>>)>,
) -> AtomModel {
    atom_for(target, value_of(schema, target.block_type)->0)
}

pub proof fn lemma_body(
    targets: Seq<(Seq<char>, TargetModel)>,
    schema: Seq<(Seq<char>, Seq<Seq<char>>)>,
)
    requires
        body_of(targets, schema) is Ok,
    ensures
        ({
            let rhs = body_of(targets, schema)->Ok_0;
            &&& rhs.len() == targets.len()
            &&& forall|i: int|
                0 <= i < targets.len() ==> #[trigger] rhs[i] == PredicateModel::AtomPredicate(
                    target_atom(targets[i].1, schema),
                ) && value_of(schema, targets[i].1.block_type) is Some
        }),
    decreases targets.len(),
{
    if targets.len() > 0 {
        let front = targets.drop_last();
        lemma_body(front, schema);
        let before = body_of(front, schema)->Ok_0;
        let rhs = body_of(targets, schema)->Ok_0;
        assert forall|i: int| 0 <= i < targets.len() implies #[trigger] rhs[i]
            == PredicateModel::AtomPredicate(target_atom(targets[i].1, schema)) && value_of(
            schema,
            targets[i].1.block_type,
        ) is Some by {
            if i < front.len() {
                assert(rhs[i] == before[i]);
                assert(front[i] == targets[i]);
            }
        }
    }
}

proof fn lemma_no_comparisons(rhs: Seq<PredicateModel>)
    requires
        forall|k: int| 0 <= k < rhs.len() ==> (#[trigger] rhs[k]) is AtomPredicate,
    ensures
        comparisons(rhs) == Seq::<ComparisonExprModel>::empty(),
    decreases rhs.len(),
{
    if rhs.len() > 0 {
        assert(rhs[rhs.len() - 1] is AtomPredicate);
        assert forall|k: int| 0 <= k < rhs.drop_last().len() implies (
        #[trigger] rhs.drop_last()[k]) is AtomPredicate by {
            assert(rhs.drop_last()[k] == rhs[k]);
        }
        lemma_no_comparisons(rhs.drop_last());
    }
}

/// What a body of atoms says once its constants are numbers.
pub proof fn lemma_body_meaning(
    db: Database,
    rule: FLRuleModel,
    table: Seq<Seq<char>>,
    atoms: Seq<AtomModel>,
    valuation: Valuation,
)
    requires
        rule.rhs.len() == atoms.len(),
        forall|i: int|
            0 <= i < atoms.len() ==> #[trigger] rule.rhs[i] == PredicateModel::AtomPredicate(
                atoms[i],
            ),
    ensures
        satisfies(db, coded_rule(rule, table), valuation) <==> forall|i: int|
            0 <= i < atoms.len() ==> atom_holds(
                db,
                coded_atom(#[trigger] atoms[i], table),
                valuation,
            ),
        negated_atoms(coded_rule(rule, table).rhs).len() == 0,
{
    let coded = coded_rule(rule, table);
    let rhs = coded.rhs;
    assert forall|k: int| 0 <= k < rhs.len() implies (#[trigger] rhs[k])
        == PredicateModel::AtomPredicate(coded_atom(atoms[k], table)) by {
        assert(rule.rhs[k] == PredicateModel::AtomPredicate(atoms[k]));
    }
    lemma_only_positive(rhs);
    lemma_no_negated(rhs);
    lemma_no_comparisons(rhs);
    let found = positive_atoms(rhs);
    assert(atoms_of(coded, true) == found);
    assert forall|i: int| 0 <= i < atoms.len() implies found[i] == coded_atom(
        #[trigger] atoms[i],
        table,
    ) by {
        assert(PredicateModel::AtomPredicate(found[i]) == rhs[i]);
    }
    if satisfies(db, coded, valuation) {
        assert forall|i: int| 0 <= i < atoms.len() implies atom_holds(
            db,
            coded_atom(#[trigger] atoms[i], table),
            valuation,
        ) by {
            assert(atom_holds(db, atoms_of(coded, true)[i], valuation));
        }
    }
    if forall|i: int|
        0 <= i < atoms.len() ==> atom_holds(db, coded_atom(#[trigger] atoms[i], table), valuation) {
        assert forall|i: int| 0 <= i < atoms_of(coded, true).len() implies atom_holds(
            db,
            #[trigger] atoms_of(coded, true)[i],
            valuation,
        ) by {
            assert(atoms_of(coded, true)[i] == coded_atom(atoms[i], table));
        }
    }
}

pub proof fn lemma_quoted(s: Seq<char>)
    ensures
        literal_text(quoted(s)) == s,
{
    reveal_strlit("\"");
    let q = quoted(s);
    assert(q[0] == '"');
    assert(q.last() == '"');
    assert(q.subrange(1, q.len() - 1) =~= s);
}

/// Whether a row is one that the atom of a target takes its variables from.
pub open spec fn feeds(
    target: TargetModel,
    names: Seq<Seq<char>>,
    table: Seq<Seq<char>>,
    valuation: Valuation,
    row: Seq<i64>,
) -> bool {
    &&& row.len() == 1 + names.len()
    &&& row[0] == number_of(table, target.block_label)
    &&& forall|j: int|
        0 <= j < names.len() ==> (var_for(target.fields, #[trigger] names[j]) matches Some(var)
            ==> row[1 + j] == valuation(var))
}

pub proof fn lemma_feeds(
    target: TargetModel,
    names: Seq<Seq<char>>,
    table: Seq<Seq<char>>,
    valuation: Valuation,
    row: Seq<i64>,
)
    ensures
        row_fits(valuation, coded_atom(atom_for(target, names), table).arguments, row) <==> feeds(
            target,
            names,
            table,
            valuation,
            row,
        ),
{
    let plain = atom_for(target, names).arguments;
    let arguments = coded_atom(atom_for(target, names), table).arguments;
    lemma_quoted(target.block_label);
    assert(arguments[0] == AtomArgModel::Const(
        ConstModel::Integer(number_of(table, target.block_label)),
    ));
    assert forall|j: int| 0 <= j < names.len() implies arguments[1 + j] == match var_for(
        target.fields,
        #[trigger] names[j],
    ) {
        Some(var) => AtomArgModel::Var(var),
        None => AtomArgModel::Placeholder,
    } by {
        assert(plain[1 + j] == match var_for(target.fields, names[j]) {
            Some(var) => AtomArgModel::Var(var),
            None => AtomArgModel::Placeholder,
        });
    }
    if row_fits(valuation, arguments, row) {
        assert(argument_fits(valuation, arguments[0], row[0]));
        assert forall|j: int| 0 <= j < names.len() implies (var_for(
            target.fields,
            #[trigger] names[j],
        ) matches Some(var) ==> row[1 + j] == valuation(var)) by {
            assert(argument_fits(valuation, arguments[1 + j], row[1 + j]));
        }
    }
    if feeds(target, names, table, valuation, row) {
        assert forall|k: int| 0 <= k < arguments.len() implies argument_fits(
            valuation,
            #[trigger] arguments[k],
            row[k],
        ) by {
            if k > 0 {
                assert(arguments[1 + (k - 1)] == arguments[k]);
                let name = names[k - 1];
            }
        }
    }
}

/// The value of a constant in a head is the number of what was written down.
pub proof fn lemma_constant_value(
    value: HclValueModel,
    table: Seq<Seq<char>>,
    valuation: Valuation,
)
    ensures
        head_value(valuation, coded_head_argument(constant_argument(value), table)) == Some(
            value_number(value, table) as i64,
        ),
{
    if let HclValueModel::String(s) = value {
        lemma_quoted(s);
    }
    let argument = coded_head_argument(constant_argument(value), table);
    let arithmetic = argument->Arith_0;
    assert(arithmetic.rest =~= Seq::empty());
    let none = Seq::<(ArithmeticOperator, i64)>::empty();
    assert(valued_rest(valuation, arithmetic.rest) == Some(none));
    assert(evaluate(value_number(value, table) as i64, none) == Some(
        value_number(value, table) as i64,
    ));
}

} // verus!
