//! Evaluating strata one after the other.
use vstd::prelude::*;
use crate::catalog::body::atoms_of;
use crate::catalog::head::first_heads;
use crate::executing::aggregation::aggregate;
use crate::executing::assembly::{gather_for, Gather};
use crate::executing::meaning::{
    atom_holds, is_answer, is_head_row, row_fits, satisfies, Database, Valuation,
};
use crate::parsing::aggregation::AggregationOperator;
use crate::parsing::rule::FLRuleModel;
use crate::planning::collections::CollectionSignatureModel;
use crate::planning::linking::{lemma_mentions, lemma_negates};
use crate::strata::components::in_some;
use crate::strata::dependencies::{dependencies, mentions, negates};
use crate::strata::graph::edge;
use crate::strata::stratification::{
    is_stratification, law_dependencies_come_first, law_every_rule_in_one_stratum,
};

verus! {

/// Whether a relation has the same rows in two databases.
pub open spec fn has_same_rows(a: Database, b: Database, name: Seq<char>) -> bool {
    forall|row: Seq<i64>| #[trigger] a(name, row) <==> b(name, row)
}

/// Whether a rule of a stratum adds a row to a relation, by what is in a database.
pub open spec fn is_added(
    db: Database,
    rules: Seq<FLRuleModel>,
    stratum: Seq<usize>,
    name: Seq<char>,
    row: Seq<i64>,
) -> bool {
    exists|r: usize| #[trigger]
        stratum.contains(r) && rules[r as int].head.name == name && is_answer(
            db,
            rules[r as int],
            row,
        )
}

/// Whether a rule of a stratum adds to a relation.
pub open spec fn has_rule(
    rules: Seq<FLRuleModel>,
    stratum: Seq<usize>,
    name: Seq<char>,
) -> bool {
    exists|r: usize| #[trigger] stratum.contains(r) && rules[r as int].head.name == name
}

/// Some rows.
pub type RowSet = spec_fn(Seq<i64>) -> bool;

/// Whether these are the last values of the rows that start with a key, each once.
pub open spec fn are_values(rows: RowSet, key: Seq<i64>, values: Seq<i64>) -> bool {
    &&& values.len() > 0
    &&& values.no_duplicates()
    &&& forall|value: i64| values.contains(value) <==> #[trigger] rows(key.push(value))
}

/// Whether a row holds a key of some rows and what an aggregation makes of the last
/// values of the rows that start with the key.
pub open spec fn is_aggregated(
    rows: RowSet,
    operator: AggregationOperator,
    row: Seq<i64>,
) -> bool {
    row.len() > 0 && exists|values: Seq<i64>| #[trigger]
        are_values(rows, row.drop_last(), values) && aggregate(values, operator) == Some(
            row.last(),
        )
}

/// What is left of rows where they are put together: all, or for each group what the
/// aggregation makes of it.
pub open spec fn gathered(gather: Gather, rows: RowSet, row: Seq<i64>) -> bool {
    match gather {
        Gather::Plain => rows(row),
        Gather::Least { .. } => is_aggregated(rows, AggregationOperator::Min, row),
        Gather::Reduce { operator, .. } => is_aggregated(rows, operator, row),
    }
}

/// How the rows of a relation are put together, by the first rule for it.
pub open spec fn gather_of(rules: Seq<FLRuleModel>, name: Seq<char>) -> Gather {
    gather_for(first_heads(rules), CollectionSignatureModel::Atom { name })
}

/// The rows of a relation from before and those that the rules of a stratum add.
pub open spec fn put_together(
    before: Database,
    from: Database,
    rules: Seq<FLRuleModel>,
    stratum: Seq<usize>,
    name: Seq<char>,
) -> RowSet {
    |row: Seq<i64>| before(name, row) || is_added(from, rules, stratum, name, row)
}

/// Whether the rules of a stratum add nothing on account of what is not there: none
/// of them negates a relation of the stratum, and none aggregates.
pub open spec fn is_monotone(rules: Seq<FLRuleModel>, stratum: Seq<usize>) -> bool {
    forall|r: usize| #[trigger]
        stratum.contains(r) ==> gather_of(rules, rules[r as int].head.name) is Plain && forall|
            name: Seq<char>,
        | #[trigger] negates(rules[r as int], name) ==> !has_rule(rules, stratum, name)
}

/// Whether a database holds what was there before, has the relations without rules in
/// a stratum as they were, and gets nothing more from the rules of the stratum.
pub open spec fn is_closed_above(
    before: Database,
    db: Database,
    rules: Seq<FLRuleModel>,
    stratum: Seq<usize>,
) -> bool {
    forall|name: Seq<char>, row: Seq<i64>| #![trigger db(name, row)]
        if has_rule(rules, stratum, name) {
            before(name, row) || is_added(db, rules, stratum, name, row) ==> db(name, row)
        } else {
            db(name, row) <==> before(name, row)
        }
}

/// Whether all rows of one database are in another.
pub open spec fn is_contained(a: Database, b: Database) -> bool {
    forall|name: Seq<char>, row: Seq<i64>| #[trigger] a(name, row) ==> b(name, row)
}

/// Whether a stratum has been evaluated: its relations have the rows from before and
/// those that its rules derive, put together. Without recursion rules derive rows
/// from what was there before; in recursion from what is there after, so that nothing
/// more can be derived, and nothing is there that need not be: where its rules are
/// monotone, all of it is in every database that is closed under them.
pub open spec fn is_evaluated(
    before: Database,
    after: Database,
    rules: Seq<FLRuleModel>,
    stratum: Seq<usize>,
    is_recursive: bool,
) -> bool {
    let from = if is_recursive {
        after
    } else {
        before
    };
    &&& forall|name: Seq<char>, row: Seq<i64>| #[trigger]
        after(name, row) <==> if has_rule(rules, stratum, name) {
            gathered(
                gather_of(rules, name),
                put_together(before, from, rules, stratum, name),
                row,
            )
        } else {
            before(name, row)
        }
    &&& is_recursive && is_monotone(rules, stratum) ==> forall|other: Database| #[trigger]
        is_closed_above(before, other, rules, stratum) ==> is_contained(after, other)
}

/// Whether strata have been evaluated one after the other. There is one database
/// more than there are strata: the first one holds the input.
pub open spec fn are_evaluated(
    states: Seq<Database>,
    rules: Seq<FLRuleModel>,
    strata: Seq<Seq<usize>>,
    flags: Seq<bool>,
) -> bool {
    &&& states.len() == strata.len() + 1
    &&& forall|k: int|
        0 <= k < strata.len() ==> is_evaluated(
            states[k],
            states[k + 1],
            rules,
            #[trigger] strata[k],
            flags[k],
        )
}

/// Whether a rule derives a row of a relation.
pub open spec fn is_derivable(
    db: Database,
    rules: Seq<FLRuleModel>,
    name: Seq<char>,
    row: Seq<i64>,
) -> bool {
    exists|r: int|
        0 <= r < rules.len() && (#[trigger] rules[r]).head.name == name && is_answer(
            db,
            rules[r],
            row,
        )
}

proof fn lemma_atom_same(a: Database, b: Database, rule: FLRuleModel, is_positive: bool, i: int)
    requires
        0 <= i < atoms_of(rule, is_positive).len(),
        forall|name: Seq<char>| #[trigger] mentions(rule, name) ==> has_same_rows(a, b, name),
    ensures
        forall|valuation: Valuation|
            atom_holds(a, atoms_of(rule, is_positive)[i], valuation) ==> #[trigger] atom_holds(
                b,
                atoms_of(rule, is_positive)[i],
                valuation,
            ),
{
    let atom = atoms_of(rule, is_positive)[i];
    lemma_mentions(rule, is_positive, i);
    assert(has_same_rows(a, b, atom.name));
    assert forall|valuation: Valuation| atom_holds(a, atom, valuation) implies #[trigger] atom_holds(
        b,
        atom,
        valuation,
    ) by {
        let row = choose|row: Seq<i64>|
            a(atom.name, row) && #[trigger] row_fits(valuation, atom.arguments, row);
        assert(b(atom.name, row));
    }
}

/// The answers of a rule depend on the relations that it mentions, and on no others.
pub proof fn lemma_answers_same(a: Database, b: Database, rule: FLRuleModel, row: Seq<i64>)
    requires
        forall|name: Seq<char>| #[trigger] mentions(rule, name) ==> has_same_rows(a, b, name),
        is_answer(a, rule, row),
    ensures
        is_answer(b, rule, row),
{
    let valuation = choose|valuation: Valuation| #[trigger]
        satisfies(a, rule, valuation) && is_head_row(valuation, rule.head.head_arguments, row);
    assert forall|i: int| 0 <= i < atoms_of(rule, true).len() implies atom_holds(
        b,
        #[trigger] atoms_of(rule, true)[i],
        valuation,
    ) by {
        lemma_atom_same(a, b, rule, true, i);
        assert(atom_holds(a, atoms_of(rule, true)[i], valuation));
    }
    assert forall|name: Seq<char>| #[trigger] mentions(rule, name) implies has_same_rows(
        b,
        a,
        name,
    ) by {
        assert(has_same_rows(a, b, name));
    }
    assert forall|i: int| 0 <= i < atoms_of(rule, false).len() implies !atom_holds(
        b,
        #[trigger] atoms_of(rule, false)[i],
        valuation,
    ) by {
        lemma_atom_same(b, a, rule, false, i);
        assert(!atom_holds(a, atoms_of(rule, false)[i], valuation));
    }
    assert(satisfies(b, rule, valuation));
}

/// A relation keeps its rows through strata that have no rules for it.
proof fn lemma_rows_stay(
    states: Seq<Database>,
    rules: Seq<FLRuleModel>,
    strata: Seq<Seq<usize>>,
    flags: Seq<bool>,
    from: int,
    to: int,
    name: Seq<char>,
)
    requires
        are_evaluated(states, rules, strata, flags),
        0 <= from <= to <= strata.len(),
        forall|k: int, r: usize|
            from <= k < to && #[trigger] strata[k].contains(r) ==> rules[r as int].head.name
                != name,
    ensures
        has_same_rows(states[from], states[to], name),
    decreases to - from,
{
    if from < to {
        lemma_rows_stay(states, rules, strata, flags, from, to - 1, name);
        let k = to - 1;
        assert(is_evaluated(states[k], states[k + 1], rules, strata[k], flags[k]));
        assert forall|row: Seq<i64>| #[trigger] states[from](name, row) <==> states[to](
            name,
            row,
        ) by {
            assert(states[from](name, row) <==> states[k](name, row));
            assert(!has_rule(rules, strata[k], name));
            assert(states[k + 1](name, row) <==> states[k](name, row));
        }
    }
}

/// What a rule of a stratum reads when the stratum is evaluated is what it would
/// read at the end.
proof fn lemma_reads_the_end(
    states: Seq<Database>,
    rules: Seq<FLRuleModel>,
    strata: Seq<Seq<usize>>,
    flags: Seq<bool>,
    k: int,
    r: usize,
    name: Seq<char>,
)
    requires
        rules.len() <= usize::MAX,
        is_stratification(dependencies(rules), rules.len(), strata, flags),
        are_evaluated(states, rules, strata, flags),
        0 <= k < strata.len(),
        strata[k].contains(r),
        mentions(rules[r as int], name),
    ensures
        has_same_rows(
            if flags[k] {
                states[k + 1]
            } else {
                states[k]
            },
            states.last(),
            name,
        ),
{
    let g = dependencies(rules);
    let from = if flags[k] {
        k + 1
    } else {
        k
    };
    assert(in_some(strata, r));
    assert forall|j: int, d: usize|
        from <= j < strata.len() && #[trigger] strata[j].contains(d) implies rules[d as int].head.name
        != name by {
        if rules[d as int].head.name == name {
            assert(in_some(strata, d));
            assert(edge(g, r, d));
            law_dependencies_come_first(g, rules.len(), strata, flags, k, r, d);
            let at = choose|at: int|
                0 <= at <= k && #[trigger] strata[at].contains(d) && (at < k || flags[k]);
            law_every_rule_in_one_stratum(g, rules.len(), strata, flags, d);
            assert(strata[at].contains(d) && strata[j].contains(d));
            assert(at == j);
        }
    }
    lemma_rows_stay(states, rules, strata, flags, from, strata.len() as int, name);
}

/// What relations hold after some strata, by what holds at the end.
proof fn lemma_states(
    states: Seq<Database>,
    rules: Seq<FLRuleModel>,
    strata: Seq<Seq<usize>>,
    flags: Seq<bool>,
    k: int,
    name: Seq<char>,
    row: Seq<i64>,
)
    requires
        rules.len() <= usize::MAX,
        is_stratification(dependencies(rules), rules.len(), strata, flags),
        are_evaluated(states, rules, strata, flags),
        0 <= k <= strata.len(),
        gather_of(rules, name) is Plain,
    ensures
        states[k](name, row) <==> states[0](name, row) || exists|j: int|
            0 <= j < k && is_added(states.last(), rules, #[trigger] strata[j], name, row),
    decreases k,
{
    if k > 0 {
        let last = states.last();
        let j = k - 1;
        lemma_states(states, rules, strata, flags, j, name, row);
        assert(is_evaluated(states[j], states[j + 1], rules, strata[j], flags[j]));
        let from = if flags[j] {
            states[j + 1]
        } else {
            states[j]
        };
        assert(states[k](name, row) <==> states[j](name, row) || is_added(
            from,
            rules,
            strata[j],
            name,
            row,
        )) by {
            let rows = put_together(states[j], from, rules, strata[j], name);
            if has_rule(rules, strata[j], name) {
                assert(states[j + 1](name, row) <==> rows(row));
            } else {
                assert(states[j + 1](name, row) <==> states[j](name, row));
            }
        }
        lemma_added_at_the_end(states, rules, strata, flags, j, name, row);
    }
}

/// A stratum adds the same rows when it is evaluated and at the end.
proof fn lemma_added_at_the_end(
    states: Seq<Database>,
    rules: Seq<FLRuleModel>,
    strata: Seq<Seq<usize>>,
    flags: Seq<bool>,
    j: int,
    name: Seq<char>,
    row: Seq<i64>,
)
    requires
        rules.len() <= usize::MAX,
        is_stratification(dependencies(rules), rules.len(), strata, flags),
        are_evaluated(states, rules, strata, flags),
        0 <= j < strata.len(),
    ensures
        is_added(
            if flags[j] {
                states[j + 1]
            } else {
                states[j]
            },
            rules,
            strata[j],
            name,
            row,
        ) <==> is_added(states.last(), rules, strata[j], name, row),
{
    let last = states.last();
    let from = if flags[j] {
        states[j + 1]
    } else {
        states[j]
    };
    assert forall|r: usize| #[trigger] strata[j].contains(r) implies is_answer(
        from,
        rules[r as int],
        row,
    ) == is_answer(last, rules[r as int], row) by {
        let rule = rules[r as int];
        assert forall|other: Seq<char>| #[trigger] mentions(rule, other) implies has_same_rows(
            from,
            last,
            other,
        ) && has_same_rows(last, from, other) by {
            lemma_reads_the_end(states, rules, strata, flags, j, r, other);
            assert forall|row: Seq<i64>| #[trigger] last(other, row) <==> from(other, row) by {
                assert(from(other, row) <==> last(other, row));
            }
        }
        if is_answer(from, rule, row) {
            lemma_answers_same(from, last, rule, row);
        }
        if is_answer(last, rule, row) {
            lemma_answers_same(last, from, rule, row);
        }
    }
}

/// Evaluating the strata of a program one after the other gives what the program
/// says: in the end a relation has the rows that it started with and those that the
/// rules derive from what is there in the end, and no others. Rules of later strata
/// take nothing back and miss nothing. This is said of relations that are not
/// aggregated.
pub proof fn law_strata_give_what_the_program_says(
    states: Seq<Database>,
    rules: Seq<FLRuleModel>,
    strata: Seq<Seq<usize>>,
    flags: Seq<bool>,
    name: Seq<char>,
    row: Seq<i64>,
)
    requires
        rules.len() <= usize::MAX,
        is_stratification(dependencies(rules), rules.len(), strata, flags),
        are_evaluated(states, rules, strata, flags),
        gather_of(rules, name) is Plain,
    ensures
        states.last()(name, row) <==> states[0](name, row) || is_derivable(
            states.last(),
            rules,
            name,
            row,
        ),
{
    let last = states.last();
    lemma_states(states, rules, strata, flags, strata.len() as int, name, row);
    if exists|j: int|
        0 <= j < strata.len() && is_added(last, rules, #[trigger] strata[j], name, row) {
        let j = choose|j: int|
            0 <= j < strata.len() && is_added(last, rules, #[trigger] strata[j], name, row);
        let r = choose|r: usize| #[trigger]
            strata[j].contains(r) && rules[r as int].head.name == name && is_answer(
                last,
                rules[r as int],
                row,
            );
        assert(in_some(strata, r));
        assert(is_derivable(last, rules, name, row));
    }
    if is_derivable(last, rules, name, row) {
        let r = choose|r: int|
            0 <= r < rules.len() && (#[trigger] rules[r]).head.name == name && is_answer(
                last,
                rules[r],
                row,
            );
        let rule = r as usize;
        assert(in_some(strata, rule));
        let j = choose|j: int| 0 <= j < strata.len() && #[trigger] strata[j].contains(rule);
        assert(is_added(last, rules, strata[j], name, row));
    }
}

/// In the end a relation that is aggregated holds, for each group of the rows that it
/// started with and that its rules derive from what is there in the end, what the
/// aggregation makes of the last values of the group. This is said of relations whose
/// rules stand in one stratum.
pub proof fn law_aggregated_relations_hold_their_groups(
    states: Seq<Database>,
    rules: Seq<FLRuleModel>,
    strata: Seq<Seq<usize>>,
    flags: Seq<bool>,
    k: int,
    name: Seq<char>,
    row: Seq<i64>,
)
    requires
        rules.len() <= usize::MAX,
        is_stratification(dependencies(rules), rules.len(), strata, flags),
        are_evaluated(states, rules, strata, flags),
        0 <= k < strata.len(),
        has_rule(rules, strata[k], name),
        forall|r: int|
            0 <= r < rules.len() && (#[trigger] rules[r]).head.name == name ==> strata[k].contains(
                r as usize,
            ),
    ensures
        states.last()(name, row) <==> gathered(
            gather_of(rules, name),
            |row: Seq<i64>|
                states[0](name, row) || is_derivable(states.last(), rules, name, row),
            row,
        ),
{
    let last = states.last();
    let from = if flags[k] {
        states[k + 1]
    } else {
        states[k]
    };
    let g = dependencies(rules);
    assert forall|j: int, r: usize|
        0 <= j < strata.len() && j != k && #[trigger] strata[j].contains(r) implies rules[r as int].head.name
        != name by {
        if rules[r as int].head.name == name {
            assert(in_some(strata, r));
            law_every_rule_in_one_stratum(g, rules.len(), strata, flags, r);
            assert(strata[k].contains(r) && strata[j].contains(r));
        }
    }
    lemma_rows_stay(states, rules, strata, flags, 0, k, name);
    lemma_rows_stay(states, rules, strata, flags, k + 1, strata.len() as int, name);
    assert(is_evaluated(states[k], states[k + 1], rules, strata[k], flags[k]));
    let rows = put_together(states[k], from, rules, strata[k], name);
    let wanted = |row: Seq<i64>|
        states[0](name, row) || is_derivable(last, rules, name, row);
    assert forall|row: Seq<i64>| #[trigger] rows(row) == wanted(row) by {
        assert(states[0](name, row) <==> states[k](name, row));
        lemma_added_at_the_end(states, rules, strata, flags, k, name, row);
        if is_added(last, rules, strata[k], name, row) {
            let r = choose|r: usize| #[trigger]
                strata[k].contains(r) && rules[r as int].head.name == name && is_answer(
                    last,
                    rules[r as int],
                    row,
                );
            assert(in_some(strata, r));
            assert(is_derivable(last, rules, name, row));
        }
        if is_derivable(last, rules, name, row) {
            let r = choose|r: int|
                0 <= r < rules.len() && (#[trigger] rules[r]).head.name == name && is_answer(
                    last,
                    rules[r],
                    row,
                );
            assert(strata[k].contains(r as usize));
        }
    }
    assert(rows =~= wanted);
    assert(states[k + 1](name, row) <==> last(name, row));
}

/// A rule derives no less from more, where what it negates is the same.
pub proof fn lemma_answers_grow(a: Database, b: Database, rule: FLRuleModel, row: Seq<i64>)
    requires
        forall|name: Seq<char>, row: Seq<i64>| mentions(rule, name) && #[trigger] a(name, row)
            ==> b(name, row),
        forall|name: Seq<char>| #[trigger] negates(rule, name) ==> has_same_rows(a, b, name),
        is_answer(a, rule, row),
    ensures
        is_answer(b, rule, row),
{
    let valuation = choose|valuation: Valuation| #[trigger]
        satisfies(a, rule, valuation) && is_head_row(valuation, rule.head.head_arguments, row);
    assert forall|i: int| 0 <= i < atoms_of(rule, true).len() implies atom_holds(
        b,
        #[trigger] atoms_of(rule, true)[i],
        valuation,
    ) by {
        let atom = atoms_of(rule, true)[i];
        lemma_mentions(rule, true, i);
        assert(atom_holds(a, atom, valuation));
        let found = choose|found: Seq<i64>|
            a(atom.name, found) && #[trigger] row_fits(valuation, atom.arguments, found);
        assert(b(atom.name, found));
    }
    assert forall|i: int| 0 <= i < atoms_of(rule, false).len() implies !atom_holds(
        b,
        #[trigger] atoms_of(rule, false)[i],
        valuation,
    ) by {
        let atom = atoms_of(rule, false)[i];
        lemma_negates(rule, i);
        assert(has_same_rows(a, b, atom.name));
        assert(!atom_holds(a, atom, valuation));
        if atom_holds(b, atom, valuation) {
            let found = choose|found: Seq<i64>|
                b(atom.name, found) && #[trigger] row_fits(valuation, atom.arguments, found);
            assert(a(atom.name, found));
        }
    }
    assert(satisfies(b, rule, valuation));
}

/// What a stratum that is evaluated in rounds holds after some of them: at first its
/// relations are empty, and each round puts together what was there before and what
/// the rules derive from the round before.
pub open spec fn rounds(
    before: Database,
    rules: Seq<FLRuleModel>,
    stratum: Seq<usize>,
    n: nat,
) -> Database
    decreases n,
{
    if n == 0 {
        |name: Seq<char>, row: Seq<i64>| !has_rule(rules, stratum, name) && before(name, row)
    } else {
        let from = rounds(before, rules, stratum, (n - 1) as nat);
        |name: Seq<char>, row: Seq<i64>|
            if has_rule(rules, stratum, name) {
                gathered(
                    gather_of(rules, name),
                    put_together(before, from, rules, stratum, name),
                    row,
                )
            } else {
                before(name, row)
            }
    }
}

/// Where a round changes nothing any more, a recursive stratum has been evaluated:
/// nothing more can be derived, and, where its rules are monotone, what is there is
/// in every database that holds what was there before and is closed under the rules.
pub proof fn law_rounds_evaluate_the_stratum(
    before: Database,
    rules: Seq<FLRuleModel>,
    stratum: Seq<usize>,
    n: nat,
)
    requires
        rounds(before, rules, stratum, n + 1) == rounds(before, rules, stratum, n),
    ensures
        is_evaluated(before, rounds(before, rules, stratum, n), rules, stratum, true),
{
    let after = rounds(before, rules, stratum, n);
    assert(rounds(before, rules, stratum, n + 1) == after);
    if is_monotone(rules, stratum) {
        assert forall|other: Database| #[trigger]
            is_closed_above(before, other, rules, stratum) implies is_contained(after, other) by {
            lemma_rounds_within(before, rules, stratum, n, other);
        }
    }
}

proof fn lemma_rounds_within(
    before: Database,
    rules: Seq<FLRuleModel>,
    stratum: Seq<usize>,
    n: nat,
    other: Database,
)
    requires
        is_monotone(rules, stratum),
        is_closed_above(before, other, rules, stratum),
    ensures
        is_contained(rounds(before, rules, stratum, n), other),
    decreases n,
{
    let db = rounds(before, rules, stratum, n);
    if n > 0 {
        let from = rounds(before, rules, stratum, (n - 1) as nat);
        lemma_rounds_within(before, rules, stratum, (n - 1) as nat, other);
        assert forall|name: Seq<char>, row: Seq<i64>| #[trigger] db(name, row) implies other(
            name,
            row,
        ) by {
            if has_rule(rules, stratum, name) {
                let r = choose|r: usize| #[trigger]
                    stratum.contains(r) && rules[r as int].head.name == name;
                assert(gather_of(rules, name) is Plain);
                let rows = put_together(before, from, rules, stratum, name);
                assert(rows(row));
                if !before(name, row) {
                    lemma_added_within(before, from, other, rules, stratum, name, row);
                }
            }
        }
    } else {
        assert forall|name: Seq<char>, row: Seq<i64>| #[trigger] db(name, row) implies other(
            name,
            row,
        ) by {
            assert(!has_rule(rules, stratum, name) && before(name, row));
        }
    }
}

/// A monotone stratum adds no less to a database that holds more, where the relations
/// without rules in the stratum are the same.
proof fn lemma_added_within(
    before: Database,
    from: Database,
    other: Database,
    rules: Seq<FLRuleModel>,
    stratum: Seq<usize>,
    name: Seq<char>,
    row: Seq<i64>,
)
    requires
        is_monotone(rules, stratum),
        is_contained(from, other),
        forall|name: Seq<char>| !#[trigger] has_rule(rules, stratum, name) ==> has_same_rows(
            from,
            before,
            name,
        ) && has_same_rows(other, before, name),
        is_added(from, rules, stratum, name, row),
    ensures
        is_added(other, rules, stratum, name, row),
{
    let r = choose|r: usize| #[trigger]
        stratum.contains(r) && rules[r as int].head.name == name && is_answer(
            from,
            rules[r as int],
            row,
        );
    let rule = rules[r as int];
    assert forall|negated: Seq<char>| #[trigger] negates(rule, negated) implies has_same_rows(
        from,
        other,
        negated,
    ) by {
        assert(!has_rule(rules, stratum, negated));
        assert forall|row: Seq<i64>| #[trigger] from(negated, row) <==> other(negated, row) by {
            assert(from(negated, row) <==> before(negated, row));
            assert(other(negated, row) <==> before(negated, row));
        }
    }
    lemma_answers_grow(from, other, rule, row);
}

/// Whether a database holds the rows of another one and gets nothing more from rules.
pub open spec fn is_model(input: Database, db: Database, rules: Seq<FLRuleModel>) -> bool {
    forall|name: Seq<char>, row: Seq<i64>| #![trigger db(name, row)]
        input(name, row) || is_derivable(db, rules, name, row) ==> db(name, row)
}

/// Whether rules negate nothing and aggregate nothing.
pub open spec fn are_positive(rules: Seq<FLRuleModel>) -> bool {
    forall|r: int|
        0 <= r < rules.len() ==> gather_of(rules, (#[trigger] rules[r]).head.name) is Plain
            && forall|name: Seq<char>| !#[trigger] negates(rules[r], name)
}

/// Evaluating a program without negation and aggregation puts nothing into its
/// relations that need not be there: all of it is in every database that holds the
/// input and is closed under the rules.
pub proof fn law_positive_programs_give_the_least(
    states: Seq<Database>,
    rules: Seq<FLRuleModel>,
    strata: Seq<Seq<usize>>,
    flags: Seq<bool>,
    other: Database,
)
    requires
        is_stratification(dependencies(rules), rules.len(), strata, flags),
        are_evaluated(states, rules, strata, flags),
        are_positive(rules),
        is_model(states[0], other, rules),
    ensures
        is_contained(states.last(), other),
{
    lemma_least_so_far(states, rules, strata, flags, other, strata.len() as int);
}

proof fn lemma_least_so_far(
    states: Seq<Database>,
    rules: Seq<FLRuleModel>,
    strata: Seq<Seq<usize>>,
    flags: Seq<bool>,
    other: Database,
    k: int,
)
    requires
        is_stratification(dependencies(rules), rules.len(), strata, flags),
        are_evaluated(states, rules, strata, flags),
        are_positive(rules),
        is_model(states[0], other, rules),
        0 <= k <= strata.len(),
    ensures
        is_contained(states[k], other),
    decreases k,
{
    if k == 0 {
        assert forall|name: Seq<char>, row: Seq<i64>| #[trigger] states[0](name, row) implies other(
            name,
            row,
        ) by {}
    } else {
        let j = k - 1;
        let before = states[j];
        let after = states[k];
        let stratum = strata[j];
        lemma_least_so_far(states, rules, strata, flags, other, j);
        assert(is_evaluated(before, states[j + 1], rules, stratum, flags[j]));
        assert forall|r: usize| #[trigger] stratum.contains(r) implies r < rules.len()
            && gather_of(rules, rules[r as int].head.name) is Plain && forall|name: Seq<char>|
            !#[trigger] negates(rules[r as int], name) by {
            assert(in_some(strata, r));
        }
        assert(is_monotone(rules, stratum));
        if flags[j] {
            let bound: Database = |name: Seq<char>, row: Seq<i64>|
                if has_rule(rules, stratum, name) {
                    other(name, row)
                } else {
                    before(name, row)
                };
            assert(is_contained(bound, other)) by {
                assert forall|name: Seq<char>, row: Seq<i64>| #[trigger] bound(
                    name,
                    row,
                ) implies other(name, row) by {
                    if !has_rule(rules, stratum, name) {
                        assert(before(name, row));
                    }
                }
            }
            assert(is_closed_above(before, bound, rules, stratum)) by {
                assert forall|name: Seq<char>, row: Seq<i64>| #![trigger bound(name, row)]
                    if has_rule(rules, stratum, name) {
                        before(name, row) || is_added(bound, rules, stratum, name, row) ==> bound(
                            name,
                            row,
                        )
                    } else {
                        bound(name, row) <==> before(name, row)
                    } by {
                    if has_rule(rules, stratum, name) && is_added(
                        bound,
                        rules,
                        stratum,
                        name,
                        row,
                    ) {
                        lemma_added_is_held(bound, other, rules, stratum, states[0], name, row);
                    }
                }
            }
            assert(is_contained(after, bound));
            assert forall|name: Seq<char>, row: Seq<i64>| #[trigger] after(
                name,
                row,
            ) implies other(name, row) by {
                assert(bound(name, row));
            }
        } else {
            assert forall|name: Seq<char>, row: Seq<i64>| #[trigger] after(
                name,
                row,
            ) implies other(name, row) by {
                if has_rule(rules, stratum, name) {
                    let r = choose|r: usize| #[trigger]
                        stratum.contains(r) && rules[r as int].head.name == name;
                    let rows = put_together(before, before, rules, stratum, name);
                    assert(rows(row));
                    if !before(name, row) {
                        lemma_added_is_held(before, other, rules, stratum, states[0], name, row);
                    }
                } else {
                    assert(before(name, row));
                }
            }
        }
    }
}

/// What a stratum of rules that negate nothing adds is in a database that holds more
/// and is closed under the rules.
proof fn lemma_added_is_held(
    db: Database,
    other: Database,
    rules: Seq<FLRuleModel>,
    stratum: Seq<usize>,
    input: Database,
    name: Seq<char>,
    row: Seq<i64>,
)
    requires
        is_contained(db, other),
        is_model(input, other, rules),
        forall|r: usize| #[trigger]
            stratum.contains(r) ==> r < rules.len() && forall|name: Seq<char>|
                !#[trigger] negates(rules[r as int], name),
        is_added(db, rules, stratum, name, row),
    ensures
        other(name, row),
{
    let r = choose|r: usize| #[trigger]
        stratum.contains(r) && rules[r as int].head.name == name && is_answer(
            db,
            rules[r as int],
            row,
        );
    lemma_answers_grow(db, other, rules[r as int], row);
    assert(rules[r as int].head.name == name);
    assert(is_derivable(other, rules, name, row));
}

} // verus!
