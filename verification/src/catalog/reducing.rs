//! The names of the relations that pass values sideways.
use vstd::prelude::*;
use vstd::string::*;
use crate::catalog::cores::core_ids;
use crate::catalog::sideways::{
    backward_suffix, forward_suffix, reduce, reduced_both, reduced_forward, reduced_name,
    sideways_rules, unreduced, SidewaysModel,
};
use crate::executing::dataflow::{is_sideways, stands_at};
use crate::parsing::rule::FLRuleModel;
use crate::text::{int_text, is_digit, law_int_text_injective, lemma_nat_text_digits, nat_text};

verus! {

/// What stands before a number and the number are known from the text of both, where the
/// number stands behind something that is no digit.
pub proof fn lemma_number_behind(a: Seq<char>, c: char, i: nat, b: Seq<char>, d: char, j: nat)
    requires
        !is_digit(c),
        !is_digit(d),
        a.push(c) + nat_text(i) == b.push(d) + nat_text(j),
    ensures
        i == j,
        c == d,
        a == b,
{
    let x = nat_text(i);
    let y = nat_text(j);
    let s = a.push(c) + x;
    let t = b.push(d) + y;
    lemma_nat_text_digits(i);
    lemma_nat_text_digits(j);
    assert(s.len() == a.len() + 1 + x.len());
    assert(t.len() == b.len() + 1 + y.len());
    if x.len() < y.len() {
        assert(s[a.len() as int] == c);
        assert(t[a.len() as int] == y[a.len() - b.len() - 1]);
        assert(is_digit(y[a.len() - b.len() - 1]));
    }
    if y.len() < x.len() {
        assert(t[b.len() as int] == d);
        assert(s[b.len() as int] == x[b.len() - a.len() - 1]);
        assert(is_digit(x[b.len() - a.len() - 1]));
    }
    assert(a.len() == b.len());
    assert(x =~= y) by {
        assert forall|k: int| 0 <= k < x.len() implies x[k] == y[k] by {
            assert(s[a.len() + 1 + k] == x[k]);
            assert(t[b.len() + 1 + k] == y[k]);
        }
    }
    assert(int_text(i as int) == x && int_text(j as int) == y);
    law_int_text_injective(i as int, j as int);
    assert(s[a.len() as int] == c && t[b.len() as int] == d);
    assert(a =~= b) by {
        assert forall|k: int| 0 <= k < a.len() implies a[k] == b[k] by {
            assert(s[k] == a[k]);
            assert(t[k] == b[k]);
        }
    }
}

/// The text behind the names of the relations of one pass ends in the mark of the pass.
proof fn lemma_name_parts(name: Seq<char>, rule_loc: usize, i: int)
    requires
        i >= 0,
    ensures
        reduced_name(name, forward_suffix(rule_loc), i) == ((name + "_si"@).push('p') + nat_text(
            rule_loc as nat,
        )).push('f') + nat_text(i as nat),
        reduced_name(name, backward_suffix(rule_loc), i) == ((name + "_si"@).push('p') + nat_text(
            rule_loc as nat,
        )).push('b') + nat_text(i as nat),
{
    reveal_strlit("_");
    reveal_strlit("sip");
    reveal_strlit("f");
    reveal_strlit("b");
    reveal_strlit("_si");
    let start = (name + "_si"@).push('p');
    assert("_"@ + "sip"@ =~= "_si"@.push('p'));
    assert(name + ("_"@ + "sip"@) =~= start);
    assert(reduced_name(name, forward_suffix(rule_loc), i) =~= name + ("_"@ + "sip"@) + nat_text(
        rule_loc as nat,
    ) + "f"@ + nat_text(i as nat));
    assert(reduced_name(name, backward_suffix(rule_loc), i) =~= name + ("_"@ + "sip"@) + nat_text(
        rule_loc as nat,
    ) + "b"@ + nat_text(i as nat));
    assert((start + nat_text(rule_loc as nat)).push('f') =~= start + nat_text(rule_loc as nat)
        + "f"@);
    assert((start + nat_text(rule_loc as nat)).push('b') =~= start + nat_text(rule_loc as nat)
        + "b"@);
}

/// The name of a relation that passes values sideways tells which relation it narrows, for
/// which rule, at which place of the pass, and which way the pass goes; so no two of them
/// have the same name.
pub proof fn law_reduced_names_tell_their_origin(
    a: Seq<char>,
    rule_loc: usize,
    i: int,
    b: Seq<char>,
    other_loc: usize,
    j: int,
)
    requires
        i >= 0,
        j >= 0,
    ensures
        reduced_name(a, forward_suffix(rule_loc), i) == reduced_name(
            b,
            forward_suffix(other_loc),
            j,
        ) ==> a == b && rule_loc == other_loc && i == j,
        reduced_name(a, backward_suffix(rule_loc), i) == reduced_name(
            b,
            backward_suffix(other_loc),
            j,
        ) ==> a == b && rule_loc == other_loc && i == j,
        reduced_name(a, forward_suffix(rule_loc), i) != reduced_name(
            b,
            backward_suffix(other_loc),
            j,
        ),
{
    lemma_name_parts(a, rule_loc, i);
    lemma_name_parts(b, other_loc, j);
    let x = (a + "_si"@).push('p') + nat_text(rule_loc as nat);
    let y = (b + "_si"@).push('p') + nat_text(other_loc as nat);
    if x.push('f') + nat_text(i as nat) == y.push('f') + nat_text(j as nat) {
        lemma_number_behind(x, 'f', i as nat, y, 'f', j as nat);
        lemma_number_behind(a + "_si"@, 'p', rule_loc as nat, b + "_si"@, 'p', other_loc as nat);
        lemma_front(a, b);
    }
    if x.push('b') + nat_text(i as nat) == y.push('b') + nat_text(j as nat) {
        lemma_number_behind(x, 'b', i as nat, y, 'b', j as nat);
        lemma_number_behind(a + "_si"@, 'p', rule_loc as nat, b + "_si"@, 'p', other_loc as nat);
        lemma_front(a, b);
    }
    if x.push('f') + nat_text(i as nat) == y.push('b') + nat_text(j as nat) {
        lemma_number_behind(x, 'f', i as nat, y, 'b', j as nat);
    }
}

proof fn lemma_front(a: Seq<char>, b: Seq<char>)
    requires
        a + "_si"@ == b + "_si"@,
    ensures
        a == b,
{
    assert((a + "_si"@).len() == a.len() + "_si"@.len());
    assert((b + "_si"@).len() == b.len() + "_si"@.len());
    assert(a =~= (a + "_si"@).take(a.len() as int));
    assert(b =~= (b + "_si"@).take(b.len() as int));
}

/// Every relation that passes values sideways is known as such by its name.
pub proof fn law_reduced_names_are_known(name: Seq<char>, rule_loc: usize, i: int)
    requires
        i >= 0,
    ensures
        is_sideways(reduced_name(name, forward_suffix(rule_loc), i)),
        is_sideways(reduced_name(name, backward_suffix(rule_loc), i)),
{
    reveal_strlit("_sip");
    reveal_strlit("_si");
    lemma_name_parts(name, rule_loc, i);
    let n = name.len() as int;
    let forward = reduced_name(name, forward_suffix(rule_loc), i);
    let backward = reduced_name(name, backward_suffix(rule_loc), i);
    assert(forward.subrange(n, n + "_sip"@.len()) =~= "_sip"@);
    assert(backward.subrange(n, n + "_sip"@.len()) =~= "_sip"@);
    assert(stands_at(forward, "_sip"@, n));
    assert(stands_at(backward, "_sip"@, n));
}

/// The text of one pass over a rule.
spec fn pass_suffix(rule_loc: usize, is_forward: bool) -> Seq<char> {
    if is_forward {
        forward_suffix(rule_loc)
    } else {
        backward_suffix(rule_loc)
    }
}

/// Whether a name was made by a pass before a place.
spec fn is_made_before(name: Seq<char>, suffix: Seq<char>, upto: int) -> bool {
    exists|x: Seq<char>, i: int| 0 <= i < upto && name == #[trigger] reduced_name(x, suffix, i)
}

proof fn lemma_pass(
    rule: FLRuleModel,
    rule_loc: usize,
    is_forward: bool,
    order: Seq<usize>,
    upto: nat,
    state: SidewaysModel,
)
    ensures
        ({
            let suffix = pass_suffix(rule_loc, is_forward);
            let n = state.rules.len() as int;
            let made = reduce(rule, suffix, order, upto, state).rules;
            &&& n <= made.len()
            &&& forall|m: int| 0 <= m < n ==> #[trigger] made[m] == state.rules[m]
            &&& forall|m: int|
                n <= m < made.len() ==> is_made_before(
                    (#[trigger] made[m]).head.name,
                    suffix,
                    upto as int,
                )
            &&& forall|j: int, k: int|
                n <= j < k < made.len() ==> (#[trigger] made[j]).head.name != (
                #[trigger] made[k]).head.name
        }),
    decreases upto,
{
    let suffix = pass_suffix(rule_loc, is_forward);
    let n = state.rules.len() as int;
    if upto > 0 {
        let place = upto - 1;
        lemma_pass(rule, rule_loc, is_forward, order, place as nat, state);
        let before = reduce(rule, suffix, order, place as nat, state);
        let made = reduce(rule, suffix, order, upto, state).rules;
        let old_name = before.atoms[order[place] as int].name;
        if made.len() > before.rules.len() {
            let name = reduced_name(old_name, suffix, place);
            assert(made.len() == before.rules.len() + 1);
            assert(made.last().head.name == name);
            assert forall|j: int| n <= j < before.rules.len() implies (
            #[trigger] made[j]).head.name != name by {
                assert(made[j] == before.rules[j]);
                assert(is_made_before(before.rules[j].head.name, suffix, place));
                let (x, i) = choose|x: Seq<char>, i: int|
                    0 <= i < place && before.rules[j].head.name == #[trigger] reduced_name(
                        x,
                        suffix,
                        i,
                    );
                law_reduced_names_tell_their_origin(x, rule_loc, i, old_name, rule_loc, place);
            }
        }
        assert forall|m: int| n <= m < made.len() implies is_made_before(
            (#[trigger] made[m]).head.name,
            suffix,
            upto as int,
        ) by {
            if m < before.rules.len() {
                assert(made[m] == before.rules[m]);
                assert(is_made_before(before.rules[m].head.name, suffix, place));
                let (x, i) = choose|x: Seq<char>, i: int|
                    0 <= i < place && before.rules[m].head.name == #[trigger] reduced_name(
                        x,
                        suffix,
                        i,
                    );
                assert(made[m].head.name == reduced_name(x, suffix, i));
            } else {
                assert(made[m].head.name == reduced_name(old_name, suffix, place));
            }
        }
    }
}

/// The relations that one rule makes to pass values sideways have names of their own: no
/// two of them are the same, and each is known to pass values sideways.
pub proof fn law_made_relations_have_names_of_their_own(
    rule: FLRuleModel,
    rule_loc: usize,
    j: int,
    k: int,
)
    requires
        0 <= j < k < reduced_both(rule, rule_loc).rules.len(),
    ensures
        reduced_both(rule, rule_loc).rules[j].head.name != reduced_both(
            rule,
            rule_loc,
        ).rules[k].head.name,
        is_sideways(reduced_both(rule, rule_loc).rules[j].head.name),
        is_sideways(reduced_both(rule, rule_loc).rules[k].head.name),
{
    let order = core_ids(rule);
    let back = order.reverse();
    let forward = reduced_forward(rule, rule_loc);
    let both = reduced_both(rule, rule_loc);
    let n = forward.rules.len() as int;
    lemma_pass(rule, rule_loc, true, order, order.len(), unreduced(rule));
    lemma_pass(rule, rule_loc, false, back, back.len(), forward);
    lemma_made_name(rule, rule_loc, j);
    lemma_made_name(rule, rule_loc, k);
    if k < n {
        assert(both.rules[j] == forward.rules[j]);
        assert(both.rules[k] == forward.rules[k]);
    } else if j < n {
        assert(both.rules[j] == forward.rules[j]);
        assert(is_made_before(
            forward.rules[j].head.name,
            forward_suffix(rule_loc),
            order.len() as int,
        ));
        assert(is_made_before(
            both.rules[k].head.name,
            backward_suffix(rule_loc),
            back.len() as int,
        ));
        let (x, i) = choose|x: Seq<char>, i: int|
            0 <= i < order.len() && forward.rules[j].head.name == #[trigger] reduced_name(
                x,
                forward_suffix(rule_loc),
                i,
            );
        let (y, m) = choose|y: Seq<char>, m: int|
            0 <= m < back.len() && both.rules[k].head.name == #[trigger] reduced_name(
                y,
                backward_suffix(rule_loc),
                m,
            );
        law_reduced_names_tell_their_origin(x, rule_loc, i, y, rule_loc, m);
    }
}

proof fn lemma_made_name(rule: FLRuleModel, rule_loc: usize, j: int)
    requires
        0 <= j < reduced_both(rule, rule_loc).rules.len(),
    ensures
        is_sideways(reduced_both(rule, rule_loc).rules[j].head.name),
{
    let order = core_ids(rule);
    let back = order.reverse();
    let forward = reduced_forward(rule, rule_loc);
    let both = reduced_both(rule, rule_loc);
    lemma_pass(rule, rule_loc, true, order, order.len(), unreduced(rule));
    lemma_pass(rule, rule_loc, false, back, back.len(), forward);
    if j < forward.rules.len() {
        assert(both.rules[j] == forward.rules[j]);
        assert(is_made_before(
            forward.rules[j].head.name,
            forward_suffix(rule_loc),
            order.len() as int,
        ));
        let (x, i) = choose|x: Seq<char>, i: int|
            0 <= i < order.len() && forward.rules[j].head.name == #[trigger] reduced_name(
                x,
                forward_suffix(rule_loc),
                i,
            );
        law_reduced_names_are_known(x, rule_loc, i);
    } else {
        assert(is_made_before(
            both.rules[j].head.name,
            backward_suffix(rule_loc),
            back.len() as int,
        ));
        let (x, i) = choose|x: Seq<char>, i: int|
            0 <= i < back.len() && both.rules[j].head.name == #[trigger] reduced_name(
                x,
                backward_suffix(rule_loc),
                i,
            );
        law_reduced_names_are_known(x, rule_loc, i);
    }
}

/// What a rule makes of itself keeps what it is: the last of the rules has its head, and
/// all of them are to be planned and to pass values sideways as it is.
pub proof fn law_made_rules_keep_their_marks(rule: FLRuleModel, rule_loc: usize, k: int)
    requires
        0 <= k < sideways_rules(rule, rule_loc).len(),
    ensures
        sideways_rules(rule, rule_loc).last().head == rule.head,
        sideways_rules(rule, rule_loc)[k].is_planning == rule.is_planning,
        sideways_rules(rule, rule_loc)[k].is_sip == rule.is_sip,
{
    let order = core_ids(rule);
    let forward = reduced_forward(rule, rule_loc);
    lemma_marks_kept(rule, forward_suffix(rule_loc), order, order.len(), unreduced(rule));
    lemma_marks_kept(rule, backward_suffix(rule_loc), order.reverse(), order.len(), forward);
}

proof fn lemma_marks_kept(
    rule: FLRuleModel,
    suffix: Seq<char>,
    order: Seq<usize>,
    upto: nat,
    state: SidewaysModel,
)
    ensures
        (forall|k: int|
            0 <= k < state.rules.len() ==> (#[trigger] state.rules[k]).is_planning
                == rule.is_planning && state.rules[k].is_sip == rule.is_sip) ==> forall|k: int|
            0 <= k < reduce(rule, suffix, order, upto, state).rules.len() ==> (#[trigger] reduce(
                rule,
                suffix,
                order,
                upto,
                state,
            ).rules[k]).is_planning == rule.is_planning && reduce(
                rule,
                suffix,
                order,
                upto,
                state,
            ).rules[k].is_sip == rule.is_sip,
    decreases upto,
{
    if upto > 0 {
        lemma_marks_kept(rule, suffix, order, (upto - 1) as nat, state);
        let before = reduce(rule, suffix, order, (upto - 1) as nat, state);
        let after = reduce(rule, suffix, order, upto, state);
        if forall|k: int|
            0 <= k < state.rules.len() ==> (#[trigger] state.rules[k]).is_planning
                == rule.is_planning && state.rules[k].is_sip == rule.is_sip {
            assert forall|k: int| 0 <= k < after.rules.len() implies (
            #[trigger] after.rules[k]).is_planning == rule.is_planning && after.rules[k].is_sip
                == rule.is_sip by {
                if k < before.rules.len() {
                    assert(after.rules[k] == before.rules[k]);
                }
            }
        }
    }
}

} // verus!
