//! What holds of rules predicate by predicate, and of relations group by group.
use vstd::prelude::*;
use crate::catalog::body::{atoms_of, comparisons, negated_atoms, positive_atoms};
use crate::catalog::head::{first_heads, head_idb, law_first_rule_wins};
use crate::executing::aggregation::{aggregate, law_order_does_not_matter};
use crate::executing::compare::{compares, evaluate, law_left_to_right};
use crate::executing::evaluating::{are_values, gather_of, gathered, is_aggregated, RowSet};
use crate::executing::meaning::{
    argument_fits, atom_holds, comparison_holds, head_value, is_head_row, row_fits, satisfies, vals,
    valued_arithmetic, valued_factor, valued_rest, Database, Valuation,
};
use crate::lists::{lemma_lookup_push, lookup};
use crate::parsing::aggregation::{AggregationModel, AggregationOperator};
use crate::parsing::arithmetic::{ArithmeticModel, ArithmeticOperator, FactorModel};
use crate::parsing::compare::ComparisonExprModel;
use crate::parsing::head::{HeadArgModel, HeadModel};
use crate::parsing::rule::{AtomArgModel, AtomModel, ConstModel, FLRuleModel, PredicateModel};

verus! {

/// The positive atoms, the negated ones and the comparisons of a body are those of its
/// predicates, each in the order of the body.
pub proof fn law_bodies_are_sorted_out(a: Seq<PredicateModel>, b: Seq<PredicateModel>)
    ensures
        positive_atoms(a + b) == positive_atoms(a) + positive_atoms(b),
        negated_atoms(a + b) == negated_atoms(a) + negated_atoms(b),
        comparisons(a + b) == comparisons(a) + comparisons(b),
        positive_atoms(a).len() + negated_atoms(a).len() + comparisons(a).len() == a.len(),
        a.len() == 1 ==> match a[0] {
            PredicateModel::AtomPredicate(atom) => positive_atoms(a) == seq![atom],
            PredicateModel::NegatedAtomPredicate(atom) => negated_atoms(a) == seq![atom],
            PredicateModel::ComparePredicate(expr) => comparisons(a) == seq![expr],
        },
{
    lemma_sorted_parts(a, b);
    lemma_sorted_count(a);
    if a.len() == 1 {
        let none = a.drop_last();
        assert(a.last() == a[0]);
        match a[0] {
            PredicateModel::AtomPredicate(atom) => {
                assert(positive_atoms(none) =~= Seq::empty());
                assert(positive_atoms(a) =~= seq![atom]);
            },
            PredicateModel::NegatedAtomPredicate(atom) => {
                assert(negated_atoms(none) =~= Seq::empty());
                assert(negated_atoms(a) =~= seq![atom]);
            },
            PredicateModel::ComparePredicate(expr) => {
                assert(comparisons(none) =~= Seq::empty());
                assert(comparisons(a) =~= seq![expr]);
            },
        }
    }
}

proof fn lemma_sorted_count(a: Seq<PredicateModel>)
    ensures
        positive_atoms(a).len() + negated_atoms(a).len() + comparisons(a).len() == a.len(),
    decreases a.len(),
{
    if a.len() > 0 {
        lemma_sorted_count(a.drop_last());
    }
}

proof fn lemma_sorted_parts(a: Seq<PredicateModel>, b: Seq<PredicateModel>)
    ensures
        positive_atoms(a + b) == positive_atoms(a) + positive_atoms(b),
        negated_atoms(a + b) == negated_atoms(a) + negated_atoms(b),
        comparisons(a + b) == comparisons(a) + comparisons(b),
    decreases b.len(),
{
    if b.len() == 0 {
        assert(a + b =~= a);
    } else {
        lemma_sorted_parts(a, b.drop_last());
        assert((a + b).drop_last() =~= a + b.drop_last());
        assert((a + b).last() == b.last());
    }
    assert(positive_atoms(a + b) =~= positive_atoms(a) + positive_atoms(b));
    assert(negated_atoms(a + b) =~= negated_atoms(a) + negated_atoms(b));
    assert(comparisons(a + b) =~= comparisons(a) + comparisons(b));
}

/// Whether a predicate holds: an atom if a row is there for it, a negated atom if none
/// is, and a comparison if it holds between its values.
pub open spec fn predicate_holds(
    db: Database,
    predicate: PredicateModel,
    valuation: Valuation,
) -> bool {
    match predicate {
        PredicateModel::AtomPredicate(atom) => atom_holds(db, atom, valuation),
        PredicateModel::NegatedAtomPredicate(atom) => !atom_holds(db, atom, valuation),
        PredicateModel::ComparePredicate(expr) => comparison_holds(valuation, expr),
    }
}

/// The body of a rule is satisfied exactly if each of its predicates holds.
pub proof fn law_bodies_hold_predicate_by_predicate(
    db: Database,
    rule: FLRuleModel,
    valuation: Valuation,
)
    ensures
        satisfies(db, rule, valuation) <==> forall|i: int|
            0 <= i < rule.rhs.len() ==> predicate_holds(db, #[trigger] rule.rhs[i], valuation),
    decreases rule.rhs.len(),
{
    let rhs = rule.rhs;
    if rhs.len() > 0 {
        let front = FLRuleModel { rhs: rhs.drop_last(), ..rule };
        law_bodies_hold_predicate_by_predicate(db, front, valuation);
        lemma_one_more(db, rule, valuation);
        assert(rhs[rhs.len() - 1] == rhs.last());
        assert(forall|i: int| 0 <= i < front.rhs.len() ==> rhs[i] == #[trigger] front.rhs[i]);
        if satisfies(db, rule, valuation) {
            assert forall|i: int| 0 <= i < rhs.len() implies predicate_holds(
                db,
                #[trigger] rhs[i],
                valuation,
            ) by {
                if i < front.rhs.len() {
                    assert(predicate_holds(db, front.rhs[i], valuation));
                }
            }
        }
        if forall|i: int| 0 <= i < rhs.len() ==> predicate_holds(db, #[trigger] rhs[i], valuation) {
            assert forall|i: int| 0 <= i < front.rhs.len() implies predicate_holds(
                db,
                #[trigger] front.rhs[i],
                valuation,
            ) by {
                assert(predicate_holds(db, rhs[i], valuation));
            }
        }
    }
}

proof fn lemma_one_more(db: Database, rule: FLRuleModel, valuation: Valuation)
    requires
        rule.rhs.len() > 0,
    ensures
        satisfies(db, rule, valuation) <==> satisfies(
            db,
            (FLRuleModel { rhs: rule.rhs.drop_last(), ..rule }),
            valuation,
        ) && predicate_holds(db, rule.rhs.last(), valuation),
{
    let front = FLRuleModel { rhs: rule.rhs.drop_last(), ..rule };
    assert forall|i: int| 0 <= i < atoms_of(front, true).len() implies #[trigger] atoms_of(
        front,
        true,
    )[i] == atoms_of(rule, true)[i] by {}
    assert forall|i: int| 0 <= i < atoms_of(front, false).len() implies #[trigger] atoms_of(
        front,
        false,
    )[i] == atoms_of(rule, false)[i] by {}
    assert forall|i: int| 0 <= i < comparisons(front.rhs).len() implies #[trigger] comparisons(
        front.rhs,
    )[i] == comparisons(rule.rhs)[i] by {}
    match rule.rhs.last() {
        PredicateModel::AtomPredicate(atom) => {
            assert(atoms_of(rule, true)[atoms_of(front, true).len() as int] == atom);
        },
        PredicateModel::NegatedAtomPredicate(atom) => {
            assert(atoms_of(rule, false)[atoms_of(front, false).len() as int] == atom);
        },
        PredicateModel::ComparePredicate(expr) => {
            assert(comparisons(rule.rhs)[comparisons(front.rhs).len() as int] == expr);
        },
    }
    if satisfies(db, rule, valuation) {
        assert forall|i: int| 0 <= i < atoms_of(front, true).len() implies atom_holds(
            db,
            #[trigger] atoms_of(front, true)[i],
            valuation,
        ) by {
            assert(atom_holds(db, atoms_of(rule, true)[i], valuation));
        }
        assert forall|i: int| 0 <= i < atoms_of(front, false).len() implies !atom_holds(
            db,
            #[trigger] atoms_of(front, false)[i],
            valuation,
        ) by {
            assert(!atom_holds(db, atoms_of(rule, false)[i], valuation));
        }
        assert forall|i: int| 0 <= i < comparisons(front.rhs).len() implies comparison_holds(
            valuation,
            #[trigger] comparisons(front.rhs)[i],
        ) by {
            assert(comparison_holds(valuation, comparisons(rule.rhs)[i]));
        }
    }
    if satisfies(db, front, valuation) && predicate_holds(db, rule.rhs.last(), valuation) {
        assert forall|i: int| 0 <= i < atoms_of(rule, true).len() implies atom_holds(
            db,
            #[trigger] atoms_of(rule, true)[i],
            valuation,
        ) by {
            if i < atoms_of(front, true).len() {
                assert(atom_holds(db, atoms_of(front, true)[i], valuation));
            }
        }
        assert forall|i: int| 0 <= i < atoms_of(rule, false).len() implies !atom_holds(
            db,
            #[trigger] atoms_of(rule, false)[i],
            valuation,
        ) by {
            if i < atoms_of(front, false).len() {
                assert(!atom_holds(db, atoms_of(front, false)[i], valuation));
            }
        }
        assert forall|i: int| 0 <= i < comparisons(rule.rhs).len() implies comparison_holds(
            valuation,
            #[trigger] comparisons(rule.rhs)[i],
        ) by {
            if i < comparisons(front.rhs).len() {
                assert(comparison_holds(valuation, comparisons(front.rhs)[i]));
            }
        }
    }
}

/// A head is aggregated exactly if its last argument is an aggregation, by that one, and
/// grouped if there are other arguments before it. It has as many columns as arguments.
pub proof fn law_heads_say_how_to_gather(head: HeadModel)
    ensures
        ({
            let idb = head_idb(head);
            let arguments = head.head_arguments;
            &&& idb.name == head.name
            &&& idb.arity == arguments.len()
            &&& arguments.len() == 0 ==> idb.aggregation_argument is None
            &&& arguments.len() > 0 ==> (idb.aggregation_argument matches Some(aggregation)
                ==> arguments[arguments.len() - 1] == HeadArgModel::Aggregation(aggregation))
            &&& arguments.len() > 0 && idb.aggregation_argument is None ==> !(arguments[
            arguments.len() - 1] is Aggregation)
            &&& idb.is_group_by <==> idb.aggregation_argument is Some && arguments.len() >= 2
        }),
{
}

proof fn lemma_no_head(rules: Seq<FLRuleModel>, name: Seq<char>)
    requires
        forall|i: int| 0 <= i < rules.len() ==> (#[trigger] rules[i]).head.name != name,
    ensures
        lookup(first_heads(rules), name) is None,
    decreases rules.len(),
{
    if rules.len() > 0 {
        let front = rules.drop_last();
        assert forall|i: int| 0 <= i < front.len() implies (#[trigger] front[i]).head.name
            != name by {
            assert(front[i] == rules[i]);
        }
        assert(rules[rules.len() - 1].head.name != name);
        lemma_no_head(front, name);
        lemma_lookup_push(first_heads(front), rules.last().head.name, head_idb(rules.last().head));
    }
}

/// The rows of a relation are gathered as its first rule says: by the aggregation that
/// stands last in its head, for each group of rows that agree in all other columns what
/// it makes of the last values of the group; and as they are where none stands there. A
/// relation without rules is not aggregated.
pub proof fn law_first_heads_say_how_to_gather(
    rules: Seq<FLRuleModel>,
    first: int,
    other: Seq<char>,
    rows: RowSet,
    row: Seq<i64>,
)
    requires
        0 <= first < rules.len(),
        forall|j: int| 0 <= j < first ==> (#[trigger] rules[j]).head.name != rules[first].head.name,
        forall|j: int| 0 <= j < rules.len() ==> (#[trigger] rules[j]).head.name != other,
    ensures
        ({
            let arguments = rules[first].head.head_arguments;
            let gather = gather_of(rules, rules[first].head.name);
            if arguments.len() > 0 && arguments[arguments.len() - 1] is Aggregation {
                let operator = arguments[arguments.len() - 1]->Aggregation_0.operator;
                gathered(gather, rows, row) <==> row.len() > 0 && exists|values: Seq<i64>|
                    #[trigger] are_values(rows, row.drop_last(), values) && aggregate(
                        values,
                        operator,
                    ) == Some(row[row.len() - 1])
            } else {
                gathered(gather, rows, row) <==> rows(row)
            }
        }),
        gathered(gather_of(rules, other), rows, row) <==> rows(row),
{
    law_first_rule_wins(rules, first);
    lemma_no_head(rules, other);
    law_heads_say_how_to_gather(rules[first].head);
}

/// An aggregated relation holds one row at most for each group.
pub proof fn law_one_row_for_each_group(
    rows: RowSet,
    operator: AggregationOperator,
    a: Seq<i64>,
    b: Seq<i64>,
)
    requires
        is_aggregated(rows, operator, a),
        is_aggregated(rows, operator, b),
        a.drop_last() == b.drop_last(),
    ensures
        a == b,
{
    let key = a.drop_last();
    let x = choose|values: Seq<i64>| #[trigger]
        are_values(rows, key, values) && aggregate(values, operator) == Some(a.last());
    let y = choose|values: Seq<i64>| #[trigger]
        are_values(rows, key, values) && aggregate(values, operator) == Some(b.last());
    assert forall|v: i64| x.contains(v) <==> y.contains(v) by {
        assert(x.contains(v) <==> rows(key.push(v)));
        assert(y.contains(v) <==> rows(key.push(v)));
    }
    lemma_same_values(x, y);
    law_order_does_not_matter(x, y, operator);
    assert(a =~= key.push(a.last()));
    assert(b =~= key.push(b.last()));
}

proof fn lemma_same_values(x: Seq<i64>, y: Seq<i64>)
    requires
        x.no_duplicates(),
        y.no_duplicates(),
        forall|v: i64| x.contains(v) <==> y.contains(v),
    ensures
        x.to_multiset() == y.to_multiset(),
{
    x.to_multiset_ensures();
    y.to_multiset_ensures();
    x.lemma_multiset_has_no_duplicates();
    y.lemma_multiset_has_no_duplicates();
    assert forall|v: i64| x.to_multiset().count(v) == y.to_multiset().count(v) by {
        assert(x.contains(v) <==> x.to_multiset().count(v) > 0);
        assert(y.contains(v) <==> y.to_multiset().count(v) > 0);
        if x.contains(v) {
            assert(x.to_multiset().contains(v));
            assert(y.to_multiset().contains(v));
        }
    }
    assert(x.to_multiset() =~= y.to_multiset());
}

/// An atom of variables and numbers holds exactly if the row of their values is in its
/// relation, and an atom of open places exactly if any row of that length is.
pub proof fn law_atoms_ask_for_rows(
    db: Database,
    atom: AtomModel,
    valuation: Valuation,
    row: Seq<i64>,
)
    requires
        row.len() == atom.arguments.len(),
    ensures
        (forall|k: int|
            0 <= k < row.len() ==> match #[trigger] atom.arguments[k] {
                AtomArgModel::Var(var) => row[k] == valuation(var),
                AtomArgModel::Const(ConstModel::Integer(number)) => row[k] == number,
                _ => false,
            }) ==> (atom_holds(db, atom, valuation) <==> db(atom.name, row)),
        (forall|k: int|
            0 <= k < row.len() ==> #[trigger] atom.arguments[k] is Placeholder) ==> (atom_holds(
            db,
            atom,
            valuation,
        ) <==> exists|any: Seq<i64>| #[trigger] db(atom.name, any) && any.len() == row.len()),
        (exists|k: int|
            0 <= k < row.len() && (#[trigger] atom.arguments[k] matches AtomArgModel::Const(
                ConstModel::Text(_),
            ))) ==> !atom_holds(db, atom, valuation),
{
    if forall|k: int|
        0 <= k < row.len() ==> match #[trigger] atom.arguments[k] {
            AtomArgModel::Var(var) => row[k] == valuation(var),
            AtomArgModel::Const(ConstModel::Integer(number)) => row[k] == number,
            _ => false,
        } {
        if db(atom.name, row) {
            assert(row_fits(valuation, atom.arguments, row));
        }
        if atom_holds(db, atom, valuation) {
            let there = choose|there: Seq<i64>|
                db(atom.name, there) && #[trigger] row_fits(valuation, atom.arguments, there);
            assert forall|k: int| 0 <= k < row.len() implies there[k] == row[k] by {
                assert(argument_fits(valuation, atom.arguments[k], there[k]));
            }
            assert(there =~= row);
        }
    }
    if forall|k: int| 0 <= k < row.len() ==> #[trigger] atom.arguments[k] is Placeholder {
        if exists|any: Seq<i64>| #[trigger] db(atom.name, any) && any.len() == row.len() {
            let any = choose|any: Seq<i64>| #[trigger]
                db(atom.name, any) && any.len() == row.len();
            assert(row_fits(valuation, atom.arguments, any));
        }
    }
    if exists|k: int|
        0 <= k < row.len() && (#[trigger] atom.arguments[k] matches AtomArgModel::Const(
            ConstModel::Text(_),
        )) {
        let k = choose|k: int|
            0 <= k < row.len() && (#[trigger] atom.arguments[k] matches AtomArgModel::Const(
                ConstModel::Text(_),
            ));
        assert forall|there: Seq<i64>| !#[trigger] row_fits(
            valuation,
            atom.arguments,
            there,
        ) by {
            if row_fits(valuation, atom.arguments, there) {
                assert(argument_fits(valuation, atom.arguments[k], there[k]));
            }
        }
    }
}

/// A head of variables gives the row of their values, and no other.
pub proof fn law_heads_give_the_values_of_variables(
    valuation: Valuation,
    vars: Seq<Seq<char>>,
    row: Seq<i64>,
)
    ensures
        is_head_row(valuation, vars.map_values(|v: Seq<char>| HeadArgModel::Var(v)), row)
            <==> row == vals(valuation, vars),
{
    let arguments = vars.map_values(|v: Seq<char>| HeadArgModel::Var(v));
    if is_head_row(valuation, arguments, row) {
        assert forall|k: int| 0 <= k < row.len() implies row[k] == vals(valuation, vars)[k] by {
            assert(head_value(valuation, arguments[k]) == Some(row[k]));
        }
        assert(row =~= vals(valuation, vars));
    }
    if row == vals(valuation, vars) {
        assert forall|k: int| 0 <= k < arguments.len() implies head_value(
            valuation,
            #[trigger] arguments[k],
        ) == Some(row[k]) by {}
    }
}

/// In a rule an expression of one factor has the value of the factor, and one more
/// operation is done to the value of the expression. A comparison holds exactly if both
/// sides have values and these compare so; an aggregation takes the value of its
/// expression.
pub proof fn law_expressions_in_rules(
    valuation: Valuation,
    arithmetic: ArithmeticModel,
    operator: ArithmeticOperator,
    factor: FactorModel,
    var: Seq<char>,
    number: i32,
    comparison: ComparisonExprModel,
    aggregation: AggregationModel,
)
    ensures
        valued_factor(valuation, FactorModel::Var(var)) == Some(valuation(var)),
        valued_factor(valuation, FactorModel::Const(ConstModel::Integer(number))) matches Some(v)
            && v == number,
        valued_arithmetic(valuation, ArithmeticModel { init: factor, rest: Seq::empty() })
            == valued_factor(valuation, factor),
        valued_arithmetic(
            valuation,
            ArithmeticModel {
                init: arithmetic.init,
                rest: arithmetic.rest.push((operator, factor)),
            },
        ) == match (
            valued_arithmetic(valuation, arithmetic),
            valued_factor(valuation, factor),
        ) {
            (Some(x), Some(y)) => evaluate(x, seq![(operator, y)]),
            _ => None,
        },
        comparison_holds(valuation, comparison) <==> {
            let left = valued_arithmetic(valuation, comparison.left);
            let right = valued_arithmetic(valuation, comparison.right);
            left is Some && right is Some && compares(
                left->0 as int,
                comparison.operator,
                right->0 as int,
            )
        },
        head_value(valuation, HeadArgModel::Arith(arithmetic)) == valued_arithmetic(
            valuation,
            arithmetic,
        ),
        head_value(valuation, HeadArgModel::Aggregation(aggregation)) == valued_arithmetic(
            valuation,
            aggregation.arithmetic,
        ),
{
    let more = arithmetic.rest.push((operator, factor));
    assert(more.drop_last() =~= arithmetic.rest);
    assert(more.last() == (operator, factor));
    if let (Some(init), Some(rest), Some(y)) = (
        valued_factor(valuation, arithmetic.init),
        valued_rest(valuation, arithmetic.rest),
        valued_factor(valuation, factor),
    ) {
        law_left_to_right(init, rest, seq![(operator, y)]);
        assert(rest + seq![(operator, y)] =~= rest.push((operator, y)));
    }
}

} // verus!
