//! What is found in a rule: which atoms and comparisons are asked for, and what is listed
//! of them.
use vstd::prelude::*;
use vstd::string::*;
use crate::catalog::atoms::{AtomArgumentSignature, AtomSignature};
use crate::catalog::body::{
    alias_of, are_positions_small, arg_of, atoms_of, const_of, first_var, is_filtered,
    is_placeholder, is_safe, lemma_first_var, occurs, position, positive_atoms, var_of,
};
use crate::catalog::filters::{item_lines, pair_lines};
use crate::catalog::listing::{
    argument_lines, atom_lines, detail, name_lines, negated_lines, place_texts, presence_lines,
    var_lines,
};
use crate::catalog::open::take_open;
use crate::catalog::query::{
    across_ids, aliases_at, comp_vars, comps_across, comps_within, consts_at, head_vars, is_across,
    sub_atom_ids, sub_negated_ids,
};
use crate::catalog::reducing::lemma_number_behind;
use crate::catalog::rule::{atom_strs, is_core, presence, strs_of, subset, unfiltered};
use crate::catalog::sideways::{has_var, marked_items, narrowed};
use crate::parsing::head::HeadArgModel;
use crate::parsing::rule::{AtomArgModel, AtomModel, ConstModel, FLRuleModel};
use crate::text::{
    int_text, is_digit, join_text, law_int_text_injective, lemma_nat_text_digits, nat_text, Written,
};

verus! {

/// Whether the atoms of a list come in the order of their numbers.
pub open spec fn in_turn(atoms: Seq<AtomSignature>) -> bool {
    forall|i: int, j: int|
        0 <= i < j < atoms.len() ==> (#[trigger] atoms[i]).rhs_id < (#[trigger] atoms[j]).rhs_id
}

/// The atoms that a list of variables covers are the atoms besides the core whose
/// variables all stand in the list, in their order.
pub proof fn law_covered_atoms(
    rule: FLRuleModel,
    strs: Seq<Seq<char>>,
    upto: nat,
    atom: AtomSignature,
)
    requires
        upto <= usize::MAX,
    ensures
        sub_atom_ids(rule, strs, upto).contains(atom) <==> atom.is_positive && atom.rhs_id < upto
            && !is_core(rule, atom.rhs_id as int) && subset(
            atom_strs(rule, true, atom.rhs_id as int),
            strs,
        ),
        in_turn(sub_atom_ids(rule, strs, upto)),
        forall|i: int|
            0 <= i < sub_atom_ids(rule, strs, upto).len() ==> (#[trigger] sub_atom_ids(
                rule,
                strs,
                upto,
            )[i]).rhs_id < upto,
    decreases upto,
{
    if upto > 0 {
        let i = upto - 1;
        law_covered_atoms(rule, strs, i as nat, atom);
        let front = sub_atom_ids(rule, strs, i as nat);
        let next = AtomSignature { is_positive: true, rhs_id: i as usize };
        if !is_core(rule, i) && subset(atom_strs(rule, true, i), strs) {
            lemma_next_contains(front, next, atom);
        }
    }
}

proof fn lemma_next_contains(
    front: Seq<AtomSignature>,
    next: AtomSignature,
    atom: AtomSignature,
)
    ensures
        front.push(next).contains(atom) <==> front.contains(atom) || atom == next,
{
    let all = front.push(next);
    if all.contains(atom) {
        let k = choose|k: int| 0 <= k < all.len() && all[k] == atom;
        if k < front.len() {
            assert(front[k] == atom);
        }
    }
    if front.contains(atom) {
        let k = choose|k: int| 0 <= k < front.len() && front[k] == atom;
        assert(all[k] == atom);
    }
    assert(all[front.len() as int] == next);
}

/// The negated atoms that a list of variables covers are those whose variables all stand
/// in the list, in their order.
pub proof fn law_covered_negated_atoms(
    rule: FLRuleModel,
    strs: Seq<Seq<char>>,
    upto: nat,
    atom: AtomSignature,
)
    requires
        upto <= usize::MAX,
    ensures
        sub_negated_ids(rule, strs, upto).contains(atom) <==> !atom.is_positive && atom.rhs_id
            < upto && subset(atom_strs(rule, false, atom.rhs_id as int), strs),
        in_turn(sub_negated_ids(rule, strs, upto)),
        forall|i: int|
            0 <= i < sub_negated_ids(rule, strs, upto).len() ==> (#[trigger] sub_negated_ids(
                rule,
                strs,
                upto,
            )[i]).rhs_id < upto,
    decreases upto,
{
    if upto > 0 {
        let i = upto - 1;
        law_covered_negated_atoms(rule, strs, i as nat, atom);
        let front = sub_negated_ids(rule, strs, i as nat);
        let next = AtomSignature { is_positive: false, rhs_id: i as usize };
        if subset(atom_strs(rule, false, i), strs) {
            lemma_next_contains(front, next, atom);
        }
    }
}

/// The negated atoms that a join decides are the open ones whose variables stand in both
/// sides together, but in neither side alone, in their order.
pub proof fn law_negated_atoms_across(
    rule: FLRuleModel,
    left: Seq<Seq<char>>,
    right: Seq<Seq<char>>,
    open: Seq<bool>,
    upto: nat,
    atom: AtomSignature,
)
    requires
        upto <= usize::MAX,
    ensures
        across_ids(rule, left, right, open, upto).contains(atom) <==> {
            let strs = atom_strs(rule, false, atom.rhs_id as int);
            &&& !atom.is_positive
            &&& atom.rhs_id < upto
            &&& open[atom.rhs_id as int]
            &&& !subset(strs, left)
            &&& !subset(strs, right)
            &&& subset(strs, left + right)
        },
        in_turn(across_ids(rule, left, right, open, upto)),
        forall|i: int|
            0 <= i < across_ids(rule, left, right, open, upto).len() ==> (#[trigger] across_ids(
                rule,
                left,
                right,
                open,
                upto,
            )[i]).rhs_id < upto,
    decreases upto,
{
    if upto > 0 {
        let i = upto - 1;
        law_negated_atoms_across(rule, left, right, open, i as nat, atom);
        let front = across_ids(rule, left, right, open, i as nat);
        let next = AtomSignature { is_positive: false, rhs_id: i as usize };
        if is_across(rule, left, right, open, i) {
            lemma_next_contains(front, next, atom);
        }
    }
}

/// The comparisons within a side are those whose variables all stand in it, and those
/// across two sides are those that are within neither. Each keeps its place among the
/// others.
pub proof fn law_comparisons_within_and_across(
    rule: FLRuleModel,
    left: Seq<Seq<char>>,
    right: Seq<Seq<char>>,
    ids: Seq<usize>,
    id: usize,
)
    ensures
        ({
            let in_left = subset(comp_vars(rule, id), left);
            let in_right = subset(comp_vars(rule, id), right);
            &&& comps_within(rule, left, ids.push(id)) == if in_left {
                comps_within(rule, left, ids).push(id)
            } else {
                comps_within(rule, left, ids)
            }
            &&& comps_across(rule, left, right, ids.push(id)) == if in_left || in_right {
                comps_across(rule, left, right, ids)
            } else {
                comps_across(rule, left, right, ids).push(id)
            }
        }),
        comps_within(rule, left, Seq::empty()) == Seq::<usize>::empty(),
        comps_across(rule, left, right, Seq::empty()) == Seq::<usize>::empty(),
        comps_across(rule, left, right, ids) == comps_across(rule, right, left, ids),
    decreases ids.len(),
{
    assert(ids.push(id).drop_last() =~= ids);
    if ids.len() > 0 {
        law_comparisons_within_and_across(rule, left, right, ids.drop_last(), id);
    }
}

/// A column that repeats a variable of its atom stands behind the first column with that
/// variable, and is known by it. A column that holds a constant or nothing, or repeats a
/// variable, is filtered out; the others are the first columns of their variables.
pub proof fn law_columns_that_repeat(rule: FLRuleModel, s: AtomArgumentSignature)
    requires
        arg_of(rule, s) is Some,
    ensures
        alias_of(rule, s) matches Some(first) ==> {
            &&& first.atom_signature == s.atom_signature
            &&& first.argument_id < s.argument_id
            &&& var_of(rule, first) == var_of(rule, s)
            &&& var_of(rule, s) is Some
            &&& alias_of(rule, first) is None
        },
        is_filtered(rule, s) <==> !(arg_of(rule, s)->0 is Var) || alias_of(rule, s) is Some,
        const_of(rule, s) matches Some(constant) ==> arg_of(rule, s) == Some(
            AtomArgModel::Const(constant),
        ),
        is_placeholder(rule, s) <==> arg_of(rule, s)->0 is Placeholder,
{
    let atom = atoms_of(rule, s.atom_signature.is_positive)[s.atom_signature.rhs_id as int];
    if let Some(var) = var_of(rule, s) {
        let before = atom.arguments.take(s.argument_id as int);
        lemma_first_var(before, var);
        if let Some(first) = alias_of(rule, s) {
            let k = first.argument_id as int;
            assert(before[k] == atom.arguments[k]);
            let earlier = atom.arguments.take(k);
            lemma_first_var(earlier, var);
            if earlier.contains(AtomArgModel::Var(var)) {
                let j = choose|j: int|
                    0 <= j < earlier.len() && earlier[j] == AtomArgModel::Var(var);
                assert(before[j] == AtomArgModel::Var(var));
            }
        }
    }
}

/// The constants, the repeated variables, the variables and the columns that stay are
/// listed column by column, in their order.
pub proof fn law_columns_are_listed_in_order(
    rule: FLRuleModel,
    columns: Seq<AtomArgumentSignature>,
    s: AtomArgumentSignature,
)
    ensures
        consts_at(rule, columns.push(s)) == match arg_of(rule, s) {
            Some(AtomArgModel::Const(constant)) => consts_at(rule, columns).push((s, constant)),
            _ => consts_at(rule, columns),
        },
        aliases_at(rule, columns.push(s)) == match alias_of(rule, s) {
            Some(first) => aliases_at(rule, columns).push((first, s)),
            None => aliases_at(rule, columns),
        },
        strs_of(rule, columns.push(s)) == match arg_of(rule, s) {
            Some(AtomArgModel::Var(var)) => strs_of(rule, columns).push(var),
            _ => strs_of(rule, columns),
        },
        unfiltered(rule, columns.push(s)) == if is_filtered(rule, s) {
            unfiltered(rule, columns)
        } else {
            unfiltered(rule, columns).push(s)
        },
{
    assert(columns.push(s).drop_last() =~= columns);
}

/// The variables of a head are those of its arguments, in their order.
pub proof fn law_variables_of_heads(a: Seq<HeadArgModel>, b: Seq<HeadArgModel>)
    ensures
        a.len() == 1 ==> head_vars(a) == a[0].vars(),
        head_vars(a + b) == head_vars(a) + head_vars(b),
    decreases b.len(),
{
    if a.len() == 1 {
        assert(head_vars(a.drop_last()) =~= Seq::empty());
        assert(head_vars(a) =~= a[0].vars());
    }
    if b.len() == 0 {
        assert(a + b =~= a);
        assert(head_vars(a) + head_vars(b) =~= head_vars(a));
    } else {
        law_variables_of_heads(a, b.drop_last());
        assert((a + b).drop_last() =~= a + b.drop_last());
        assert(head_vars(a + b) =~= head_vars(a) + head_vars(b));
    }
}

/// Taking the open atoms of a list takes each of them once, and closes what it takes: an
/// atom that was open and stands in the list is taken and closed, and all others stay as
/// they were.
pub proof fn law_open_atoms_are_taken_once(
    atoms: Seq<AtomSignature>,
    open: Seq<bool>,
    id: usize,
)
    requires
        id < open.len(),
        forall|i: int| 0 <= i < atoms.len() ==> (#[trigger] atoms[i]).rhs_id < open.len(),
    ensures
        ({
            let (taken, left) = take_open(atoms, open);
            let stands = exists|i: int| 0 <= i < atoms.len() && (#[trigger] atoms[i]).rhs_id == id;
            &&& left.len() == open.len()
            &&& left[id as int] <==> open[id as int] && !stands
            &&& (exists|i: int| 0 <= i < taken.len() && (#[trigger] taken[i]).rhs_id == id) <==> (
            open[id as int] && stands)
            &&& forall|i: int, j: int|
                0 <= i < j < taken.len() ==> (#[trigger] taken[i]).rhs_id != (
                #[trigger] taken[j]).rhs_id
        }),
    decreases atoms.len(),
{
    if atoms.len() > 0 {
        let front = atoms.drop_last();
        let n = atoms.len() - 1;
        let last = atoms.last();
        assert forall|i: int| 0 <= i < front.len() implies (#[trigger] front[i]).rhs_id
            < open.len() by {
            assert(front[i] == atoms[i]);
        }
        assert(atoms[n] == last);
        law_open_atoms_are_taken_once(front, open, id);
        law_open_atoms_are_taken_once(front, open, last.rhs_id);
        let (before, still) = take_open(front, open);
        let (taken, left) = take_open(atoms, open);
        if exists|i: int| 0 <= i < front.len() && (#[trigger] front[i]).rhs_id == id {
            let i = choose|i: int| 0 <= i < front.len() && (#[trigger] front[i]).rhs_id == id;
            assert(atoms[i].rhs_id == id);
        }
        if exists|i: int| 0 <= i < atoms.len() && (#[trigger] atoms[i]).rhs_id == id {
            let i = choose|i: int| 0 <= i < atoms.len() && (#[trigger] atoms[i]).rhs_id == id;
            if i < n {
                assert(front[i].rhs_id == id);
            }
        }
        if exists|i: int| 0 <= i < before.len() && (#[trigger] before[i]).rhs_id == id {
            let i = choose|i: int| 0 <= i < before.len() && (#[trigger] before[i]).rhs_id == id;
            assert(taken[i].rhs_id == id);
        }
        if exists|i: int| 0 <= i < taken.len() && (#[trigger] taken[i]).rhs_id == id {
            let i = choose|i: int| 0 <= i < taken.len() && (#[trigger] taken[i]).rhs_id == id;
            if i < before.len() {
                assert(before[i].rhs_id == id);
            }
        }
        if still[last.rhs_id as int] {
            assert(taken[before.len() as int] == last);
            assert forall|i: int, j: int| 0 <= i < j < taken.len() implies (
            #[trigger] taken[i]).rhs_id != (#[trigger] taken[j]).rhs_id by {
                assert(before[i] == taken[i]);
                if j < before.len() {
                    assert(before[j] == taken[j]);
                }
            }
        }
    }
}

/// Of some items the marked ones stay, in their order.
pub proof fn law_marked_items_stay<A>(items: Seq<A>, item: A, marks: Seq<bool>)
    requires
        items.len() < marks.len(),
    ensures
        marked_items(items.push(item), marks) == marked_items(items, marks) + (
        if marks[items.len() as int] {
            seq![item]
        } else {
            Seq::empty()
        }),
        marked_items(Seq::<A>::empty(), marks) == Seq::<A>::empty(),
{
    assert(items.push(item).drop_last() =~= items);
    assert(marked_items(items.push(item), marks) =~= marked_items(items, marks) + (
    if marks[items.len() as int] {
        seq![item]
    } else {
        Seq::empty()
    }));
}

/// Narrowing an atom to some variables keeps its relation, its constants and those
/// variables where they are, and leaves the other places open.
pub proof fn law_narrowed_atoms(atom: AtomModel, vars: Seq<Seq<char>>, k: int, var: Seq<char>)
    requires
        0 <= k < atom.arguments.len(),
    ensures
        narrowed(atom, vars).name == atom.name,
        narrowed(atom, vars).arguments.len() == atom.arguments.len(),
        narrowed(atom, vars).arguments[k] == AtomArgModel::Var(var) <==> atom.arguments[k]
            == AtomArgModel::Var(var) && vars.contains(var),
        atom.arguments[k] is Const ==> narrowed(atom, vars).arguments[k] == atom.arguments[k],
        narrowed(atom, vars).arguments[k] is Const ==> atom.arguments[k] is Const,
{
}

/// What is listed of a rule has a line for each item, in the order of the items: for
/// atoms their names and whether they belong to the core, for arguments their places, for
/// variables where they stand.
pub proof fn law_listings_have_a_line_for_each_item(
    names: Seq<Seq<char>>,
    name: Seq<char>,
    is_core: Seq<bool>,
    arguments: Seq<AtomArgumentSignature>,
    argument: AtomArgumentSignature,
    detailed: bool,
    rows: Seq<(Seq<char>, Seq<Option<AtomArgumentSignature>>)>,
    places: Seq<Option<AtomArgumentSignature>>,
    pairs: Seq<(AtomArgumentSignature, Seq<char>)>,
)
    ensures
        name_lines(names.push(name), is_core) == name_lines(names, is_core) + "  - "@ + name + (
        if is_core[names.len() as int] {
            " (Core)\n"@
        } else {
            " (Non-Core)\n"@
        }),
        negated_lines(names.push(name)) == negated_lines(names) + "  - "@ + name + "\n"@,
        argument_lines(arguments.push(argument), detailed) == argument_lines(arguments, detailed)
            + "    Argument Signature: "@ + (if detailed {
            detail(argument)
        } else {
            argument.text()
        }) + "\n"@,
        presence_lines(rows.push((name, places))) == presence_lines(rows) + "  Argument "@ + name
            + ": ["@ + join_text(place_texts(places), ", "@) + "]\n"@,
        var_lines(pairs.push((argument, name))) == var_lines(pairs) + "  "@ + argument.text()
            + " -> "@ + name + "\n"@,
        name_lines(Seq::empty(), is_core) + negated_lines(Seq::empty()) + argument_lines(
            Seq::empty(),
            detailed,
        ) + presence_lines(Seq::empty()) + var_lines(Seq::empty()) == Seq::<char>::empty(),
{
    assert(names.push(name).drop_last() =~= names);
    assert(arguments.push(argument).drop_last() =~= arguments);
    assert(rows.push((name, places)).drop_last() =~= rows);
    assert(pairs.push((argument, name)).drop_last() =~= pairs);
    assert(name_lines(Seq::empty(), is_core) + negated_lines(Seq::empty()) + argument_lines(
        Seq::empty(),
        detailed,
    ) + presence_lines(Seq::empty()) + var_lines(Seq::empty()) =~= Seq::empty());
}

/// A variable that stands in an atom is listed with its place there, and one that does
/// not, with none.
pub proof fn law_places_are_listed(
    places: Seq<Option<AtomArgumentSignature>>,
    argument: AtomArgumentSignature,
    i: int,
)
    requires
        0 <= i < places.len(),
    ensures
        place_texts(places).len() == places.len(),
        places[i] == Some(argument) ==> place_texts(places)[i] == argument.text(),
        places[i] is None ==> place_texts(places)[i] == "None"@,
{
}

/// The atoms of a rule are listed one after the other, each under its title with its
/// arguments.
pub proof fn law_atoms_are_listed(
    atoms: Seq<Seq<AtomArgumentSignature>>,
    arguments: Seq<AtomArgumentSignature>,
    title: Seq<char>,
    detailed: bool,
)
    ensures
        atom_lines(Seq::empty(), title, detailed) == Seq::<char>::empty(),
        atom_lines(atoms.push(arguments), title, detailed) == atom_lines(atoms, title, detailed)
            + title + argument_lines(arguments, detailed),
{
    assert(atoms.push(arguments).drop_last() =~= atoms);
}

/// Filters are listed one to a line, in their order.
pub proof fn law_filters_are_listed(
    aliases: Seq<(AtomArgumentSignature, AtomArgumentSignature)>,
    first: AtomArgumentSignature,
    consts: Seq<(AtomArgumentSignature, ConstModel)>,
    constant: ConstModel,
    places: Seq<AtomArgumentSignature>,
    place: AtomArgumentSignature,
)
    ensures
        pair_lines(aliases.push((place, first))) == pair_lines(aliases) + "  "@ + place.text()
            + " -> "@ + first.text() + "\n"@,
        pair_lines(consts.push((place, constant))) == pair_lines(consts) + "  "@ + place.text()
            + " -> "@ + constant.text() + "\n"@,
        item_lines(places.push(place)) == item_lines(places) + "  "@ + place.text() + "\n"@,
{
    assert(aliases.push((place, first)).drop_last() =~= aliases);
    assert(consts.push((place, constant)).drop_last() =~= consts);
    assert(places.push(place).drop_last() =~= places);
}

/// A rule is safe exactly if each variable of its negated atoms stands in one of its
/// positive atoms too.
pub proof fn law_safe_rules(rule: FLRuleModel)
    requires
        are_positions_small(rule),
    ensures
        is_safe(rule) <==> forall|i: int, var: Seq<char>|
            0 <= i < atoms_of(rule, false).len() && #[trigger] has_var(
                atoms_of(rule, false)[i],
                var,
            ) ==> exists|j: int|
                0 <= j < atoms_of(rule, true).len() && has_var(
                    #[trigger] atoms_of(rule, true)[j],
                    var,
                ),
{
    let negated = atoms_of(rule, false);
    let positive = atoms_of(rule, true);
    if is_safe(rule) {
        assert forall|i: int, var: Seq<char>|
            0 <= i < negated.len() && #[trigger] has_var(negated[i], var) implies exists|j: int|
            0 <= j < positive.len() && has_var(#[trigger] positive[j], var) by {
            let arguments = negated[i].arguments;
            let k = choose|k: int|
                0 <= k < arguments.len() && arguments[k] == AtomArgModel::Var(var);
            let s = position(false, i, k);
            assert(arguments.len() <= usize::MAX);
            assert(var_of(rule, s) == Some(var));
            assert(occurs(positive_atoms(rule.rhs), var));
            let j = choose|j: int|
                0 <= j < positive.len() && (#[trigger] positive[j]).arguments.contains(
                    AtomArgModel::Var(var),
                );
            assert(has_var(positive[j], var));
        }
    }
    if forall|i: int, var: Seq<char>|
        0 <= i < negated.len() && #[trigger] has_var(negated[i], var) ==> exists|j: int|
            0 <= j < positive.len() && has_var(#[trigger] positive[j], var) {
        assert forall|s: AtomArgumentSignature|
            !s.atom_signature.is_positive && (#[trigger] var_of(rule, s)) is Some implies occurs(
            positive_atoms(rule.rhs),
            var_of(rule, s)->0,
        ) by {
            let i = s.atom_signature.rhs_id as int;
            let var = var_of(rule, s)->0;
            assert(negated[i].arguments[s.argument_id as int] == AtomArgModel::Var(var));
            assert(negated[i].arguments.contains(AtomArgModel::Var(var)));
            assert(has_var(negated[i], var));
            let j = choose|j: int|
                0 <= j < positive.len() && has_var(#[trigger] positive[j], var);
            assert(positive[j].arguments.contains(AtomArgModel::Var(var)));
        }
    }
}

/// A variable of a rule is known by where it stands first in each atom, and not at all
/// where it stands in none.
pub proof fn law_presence_of_variables(rule: FLRuleModel, var: Seq<char>, i: int)
    requires
        are_positions_small(rule),
        0 <= i < atoms_of(rule, true).len(),
    ensures
        presence(rule, var) is Some <==> exists|j: int|
            0 <= j < atoms_of(rule, true).len() && has_var(
                #[trigger] atoms_of(rule, true)[j],
                var,
            ),
        presence(rule, var) matches Some(row) ==> {
            &&& row.len() == atoms_of(rule, true).len()
            &&& row[i] is Some <==> has_var(atoms_of(rule, true)[i], var)
            &&& row[i] matches Some(s) ==> {
                &&& s.atom_signature == (AtomSignature { is_positive: true, rhs_id: i as usize })
                &&& var_of(rule, s) == Some(var)
                &&& alias_of(rule, s) is None
            }
        },
{
    let atoms = positive_atoms(rule.rhs);
    let arguments = atoms[i].arguments;
    assert(atoms_of(rule, true) == atoms);
    assert(arguments.len() <= usize::MAX);
    lemma_first_var(arguments, var);
    if occurs(atoms, var) {
        let j = choose|j: int|
            0 <= j < atoms.len() && (#[trigger] atoms[j]).arguments.contains(
                AtomArgModel::Var(var),
            );
        assert(has_var(atoms_of(rule, true)[j], var));
    }
    if let Some(k) = first_var(arguments, var) {
        let before = arguments.take(k as int);
        lemma_first_var(before, var);
        if before.contains(AtomArgModel::Var(var)) {
            let j = choose|j: int| 0 <= j < before.len() && before[j] == AtomArgModel::Var(var);
            assert(arguments[j] == AtomArgModel::Var(var));
        }
    }
}

/// What is written of a place tells the place: which atom, negated or not, and which of
/// its arguments.
pub proof fn law_places_are_written_apart(a: AtomArgumentSignature, b: AtomArgumentSignature)
    requires
        a.text() == b.text(),
    ensures
        a == b,
{
    reveal_strlit(".");
    reveal_strlit("!");
    let x = a.atom_signature.text();
    let y = b.atom_signature.text();
    assert(a.text() =~= x.push('.') + nat_text(a.argument_id as nat));
    assert(b.text() =~= y.push('.') + nat_text(b.argument_id as nat));
    lemma_number_behind(x, '.', a.argument_id as nat, y, '.', b.argument_id as nat);
    let m = nat_text(a.atom_signature.rhs_id as nat);
    let n = nat_text(b.atom_signature.rhs_id as nat);
    lemma_nat_text_digits(a.atom_signature.rhs_id as nat);
    lemma_nat_text_digits(b.atom_signature.rhs_id as nat);
    assert(is_digit(m[0]) && is_digit(n[0]));
    assert(x[0] == if a.atom_signature.is_positive {
        m[0]
    } else {
        '!'
    });
    assert(y[0] == if b.atom_signature.is_positive {
        n[0]
    } else {
        '!'
    });
    if !a.atom_signature.is_positive {
        assert(x.skip(1) =~= m);
        assert(y.skip(1) =~= n);
    }
    assert(m == n);
    assert(int_text(a.atom_signature.rhs_id as int) == m);
    assert(int_text(b.atom_signature.rhs_id as int) == n);
    law_int_text_injective(a.atom_signature.rhs_id as int, b.atom_signature.rhs_id as int);
}

} // verus!
