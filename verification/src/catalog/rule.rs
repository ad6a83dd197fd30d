//! The catalog of a rule: names, positions, filters and comparisons of its body.
use vstd::prelude::*;
use vstd::string::*;
use crate::catalog::atoms::{AtomArgumentSignature, AtomSignature};
use crate::catalog::body::{
    are_positions_small, alias_of, arg_of, atom_positions, atoms_of, comparisons, const_of,
    find_var, first_var, is_filtered, is_placeholder, is_safe, lemma_first_var, negated_atoms,
    occurs, position, positions, positive_atoms, split_body, var_of,
};
use crate::catalog::filters::BaseFilters;
use crate::lists::{contains_same, empty, find, group_take, lemma_lookup_push, lookup, push};
use crate::parsing::arithmetic::{distinct, lemma_distinct};
use crate::parsing::compare::ComparisonExpr;
use crate::parsing::head::HeadArg;
use crate::parsing::rule::{Atom, AtomArg, AtomArgModel, Const, ConstModel, FLRule, FLRuleModel};
use crate::text::{Render, Written};

verus! {

/// Whether every text of `a` is one of `b`.
pub open spec fn subset(a: Seq<Seq<char>>, b: Seq<Seq<char>>) -> bool {
    forall|x: Seq<char>| #[trigger] a.contains(x) ==> b.contains(x)
}

/// The variables at the given positions, in order; other positions are passed over.
pub open spec fn strs_of(rule: FLRuleModel, signatures: Seq<AtomArgumentSignature>) -> Seq<Seq<char>>
    decreases signatures.len(),
{
    if signatures.len() == 0 {
        Seq::empty()
    } else {
        let front = strs_of(rule, signatures.drop_last());
        match var_of(rule, signatures.last()) {
            Some(var) => front.push(var),
            None => front,
        }
    }
}

/// The positions that are not filtered.
pub open spec fn unfiltered(
    rule: FLRuleModel,
    signatures: Seq<AtomArgumentSignature>,
) -> Seq<AtomArgumentSignature>
    decreases signatures.len(),
{
    if signatures.len() == 0 {
        Seq::empty()
    } else {
        let front = unfiltered(rule, signatures.drop_last());
        if is_filtered(rule, signatures.last()) {
            front
        } else {
            front.push(signatures.last())
        }
    }
}

/// The variables of a positive or negated atom, repetitions included.
pub open spec fn atom_strs(rule: FLRuleModel, positive: bool, id: int) -> Seq<Seq<char>> {
    strs_of(rule, atom_positions(rule, positive)[id])
}

/// Whether a positive atom is a core atom: no other positive atom has all of
/// its variables and one more, and no earlier one has the same variables.
pub open spec fn is_core(rule: FLRuleModel, i: int) -> bool {
    !exists|j: int|
        0 <= j < positive_atoms(rule.rhs).len() && j != i && subset(
            atom_strs(rule, true, i),
            #[trigger] atom_strs(rule, true, j),
        ) && (j < i || !subset(atom_strs(rule, true, j), atom_strs(rule, true, i)))
}

/// Where each positive atom holds a variable first.
pub open spec fn presence_row(rule: FLRuleModel, var: Seq<char>) -> Seq<
    Option<AtomArgumentSignature>,
> {
    Seq::new(
        positive_atoms(rule.rhs).len(),
        |i: int|
            match first_var(positive_atoms(rule.rhs)[i].arguments, var) {
                Some(k) => Some(position(true, i, k as int)),
                None => None,
            },
    )
}

/// The row of a variable of the positive atoms.
pub open spec fn presence(rule: FLRuleModel, var: Seq<char>) -> Option<
    Seq<Option<AtomArgumentSignature>>,
> {
    if occurs(positive_atoms(rule.rhs), var) {
        Some(presence_row(rule, var))
    } else {
        None
    }
}

/// The catalog of a rule.
#[derive(Debug)]
pub struct Catalog {
    pub rule: FLRule,
    pub signature_to_argument_str_map: Vec<(AtomArgumentSignature, String)>,
    pub argument_presence_map: Vec<(String, Vec<Option<AtomArgumentSignature>>)>,
    pub atom_names: Vec<String>,
    pub atom_argument_signatures: Vec<Vec<AtomArgumentSignature>>,
    pub is_core_atom_bitmap: Vec<bool>,
    pub negated_atom_names: Vec<String>,
    pub negated_atom_argument_signatures: Vec<Vec<AtomArgumentSignature>>,
    pub base_filters: BaseFilters,
    pub comparison_predicates: Vec<ComparisonExpr>,
    pub comparison_predicates_vars_set: Vec<Vec<String>>,
    pub head_arguments_map: Vec<(String, HeadArg)>,
}

/// The names of the positive or of the negated atoms.
pub open spec fn atom_names_of(rule: FLRuleModel, positive: bool) -> Seq<Seq<char>> {
    Seq::new(atoms_of(rule, positive).len(), |i: int| atoms_of(rule, positive)[i].name)
}

impl Catalog {
    /// Whether the catalog describes its rule.
    pub open spec fn wf(&self) -> bool {
        let rule = self.rule.deep_view();
        &&& is_safe(rule)
        &&& self.atom_names.deep_view() == atom_names_of(rule, true)
        &&& self.negated_atom_names.deep_view() == atom_names_of(rule, false)
        &&& self.atom_argument_signatures.deep_view() == atom_positions(rule, true)
        &&& self.negated_atom_argument_signatures.deep_view() == atom_positions(rule, false)
        &&& forall|s: AtomArgumentSignature| #[trigger]
            lookup(self.signature_to_argument_str_map.deep_view(), s) == var_of(rule, s)
        &&& self.base_filters.describes(rule)
        &&& self.is_core_atom_bitmap@ == Seq::new(
            positive_atoms(rule.rhs).len(),
            |i: int| is_core(rule, i),
        )
        &&& forall|var: Seq<char>| #[trigger]
            lookup(self.argument_presence_map.deep_view(), var) == presence(rule, var)
        &&& self.comparison_predicates.deep_view() == comparisons(rule.rhs)
        &&& self.comparison_predicates_vars_set.deep_view() == Seq::new(
            comparisons(rule.rhs).len(),
            |i: int| distinct(comparisons(rule.rhs)[i].vars()),
        )
        &&& self.head_arguments_map.deep_view() == Seq::new(
            rule.head.head_arguments.len(),
            |i: int| (rule.head.head_arguments[i].text(), rule.head.head_arguments[i]),
        )
    }
}

impl Catalog {
    /// The parts of a catalog, one by one.
    pub proof fn lemma_parts(&self)
        requires
            self.wf(),
        ensures
            self.atom_names@.len() == atoms_of(self.rule.deep_view(), true).len(),
            self.negated_atom_names@.len() == atoms_of(self.rule.deep_view(), false).len(),
            self.is_core_atom_bitmap@.len() == atoms_of(self.rule.deep_view(), true).len(),
            self.atom_argument_signatures@.len() == atoms_of(self.rule.deep_view(), true).len(),
            self.negated_atom_argument_signatures@.len() == atoms_of(
                self.rule.deep_view(),
                false,
            ).len(),
            self.comparison_predicates@.len() == comparisons(self.rule.deep_view().rhs).len(),
            self.comparison_predicates_vars_set@.len() == comparisons(
                self.rule.deep_view().rhs,
            ).len(),
            forall|i: int|
                0 <= i < self.atom_names@.len() ==> (#[trigger] self.atom_names@[i])@ == atoms_of(
                    self.rule.deep_view(),
                    true,
                )[i].name,
            forall|i: int|
                0 <= i < self.negated_atom_names@.len() ==> (#[trigger] self.negated_atom_names@[i])@
                    == atoms_of(self.rule.deep_view(), false)[i].name,
            forall|i: int|
                0 <= i < self.atom_argument_signatures@.len() ==> (
                #[trigger] self.atom_argument_signatures@[i]).deep_view() == atom_positions(
                    self.rule.deep_view(),
                    true,
                )[i],
            forall|i: int|
                0 <= i < self.negated_atom_argument_signatures@.len() ==> (
                #[trigger] self.negated_atom_argument_signatures@[i]).deep_view() == atom_positions(
                    self.rule.deep_view(),
                    false,
                )[i],
            forall|i: int|
                0 <= i < self.comparison_predicates@.len() ==> (
                #[trigger] self.comparison_predicates@[i]).deep_view() == comparisons(
                    self.rule.deep_view().rhs,
                )[i],
            forall|i: int|
                0 <= i < self.comparison_predicates_vars_set@.len() ==> (
                #[trigger] self.comparison_predicates_vars_set@[i]).deep_view() == distinct(
                    comparisons(self.rule.deep_view().rhs)[i].vars(),
                ),
    {
        let rule = self.rule.deep_view();
        assert(self.atom_names.deep_view().len() == atoms_of(rule, true).len());
        assert(self.negated_atom_names.deep_view().len() == atoms_of(rule, false).len());
        assert(self.atom_argument_signatures.deep_view().len() == atoms_of(rule, true).len());
        assert(self.negated_atom_argument_signatures.deep_view().len() == atoms_of(
            rule,
            false,
        ).len());
        assert(self.comparison_predicates.deep_view().len() == comparisons(rule.rhs).len());
        assert(self.comparison_predicates_vars_set.deep_view().len() == comparisons(rule.rhs).len());
        assert forall|i: int| 0 <= i < self.atom_names@.len() implies (
        #[trigger] self.atom_names@[i])@ == atoms_of(rule, true)[i].name by {
            assert(self.atom_names.deep_view()[i] == atom_names_of(rule, true)[i]);
        }
        assert forall|i: int| 0 <= i < self.negated_atom_names@.len() implies (
        #[trigger] self.negated_atom_names@[i])@ == atoms_of(rule, false)[i].name by {
            assert(self.negated_atom_names.deep_view()[i] == atom_names_of(rule, false)[i]);
        }
        assert forall|i: int| 0 <= i < self.atom_argument_signatures@.len() implies (
        #[trigger] self.atom_argument_signatures@[i]).deep_view() == atom_positions(
            rule,
            true,
        )[i] by {
            assert(self.atom_argument_signatures.deep_view()[i] == atom_positions(rule, true)[i]);
        }
        assert forall|i: int| 0 <= i < self.negated_atom_argument_signatures@.len() implies (
        #[trigger] self.negated_atom_argument_signatures@[i]).deep_view() == atom_positions(
            rule,
            false,
        )[i] by {
            assert(self.negated_atom_argument_signatures.deep_view()[i] == atom_positions(
                rule,
                false,
            )[i]);
        }
        assert forall|i: int| 0 <= i < self.comparison_predicates@.len() implies (
        #[trigger] self.comparison_predicates@[i]).deep_view() == comparisons(rule.rhs)[i] by {
            assert(self.comparison_predicates.deep_view()[i] == comparisons(rule.rhs)[i]);
        }
        assert forall|i: int| 0 <= i < self.comparison_predicates_vars_set@.len() implies (
        #[trigger] self.comparison_predicates_vars_set@[i]).deep_view() == distinct(
            comparisons(rule.rhs)[i].vars(),
        ) by {
            assert(self.comparison_predicates_vars_set.deep_view()[i] == distinct(
                comparisons(rule.rhs)[i].vars(),
            ));
        }
    }
}

impl Catalog {
    pub proof fn lemma_positions_small(&self)
        requires
            self.wf(),
        ensures
            are_positions_small(self.rule.deep_view()),
    {
        let rule = self.rule.deep_view();
        self.lemma_parts();
        assert(self.atom_names.len() == self.atom_names@.len());
        assert(self.negated_atom_names.len() == self.negated_atom_names@.len());
        assert forall|i: int| 0 <= i < atoms_of(rule, true).len() implies (#[trigger] atoms_of(
            rule,
            true,
        )[i]).arguments.len() <= usize::MAX by {
            let columns = self.atom_argument_signatures@[i];
            assert(columns.len() == columns.deep_view().len());
        }
        assert forall|i: int| 0 <= i < atoms_of(rule, false).len() implies (#[trigger] atoms_of(
            rule,
            false,
        )[i]).arguments.len() <= usize::MAX by {
            let columns = self.negated_atom_argument_signatures@[i];
            assert(columns.len() == columns.deep_view().len());
        }
    }
}

/// What the arguments of the atoms seen so far ask for.
struct ArgumentMaps {
    strs: Vec<(AtomArgumentSignature, String)>,
    aliases: Vec<(AtomArgumentSignature, AtomArgumentSignature)>,
    consts: Vec<(AtomArgumentSignature, Const)>,
    placeholders: Vec<AtomArgumentSignature>,
}

/// Whether a position comes before argument `j` of atom `i`.
spec fn comes_before(s: AtomArgumentSignature, i: int, j: int) -> bool {
    s.atom_signature.rhs_id < i || s.atom_signature.rhs_id == i && s.argument_id < j
}

impl ArgumentMaps {
    /// What the maps say of a position.
    spec fn says(
        &self,
        s: AtomArgumentSignature,
        var: Option<Seq<char>>,
        alias: Option<AtomArgumentSignature>,
        constant: Option<ConstModel>,
        placeholder: bool,
    ) -> bool {
        &&& lookup(self.strs.deep_view(), s) == var
        &&& lookup(self.aliases.deep_view(), s) == alias
        &&& lookup(self.consts.deep_view(), s) == constant
        &&& self.placeholders.deep_view().contains(s) == placeholder
    }

    spec fn says_nothing(&self, s: AtomArgumentSignature) -> bool {
        self.says(s, None, None, None, false)
    }

    spec fn says_all(&self, rule: FLRuleModel, s: AtomArgumentSignature) -> bool {
        self.says(s, var_of(rule, s), alias_of(rule, s), const_of(rule, s), is_placeholder(rule, s))
    }

    spec fn says_same(&self, other: &Self, s: AtomArgumentSignature) -> bool {
        self.says(
            s,
            lookup(other.strs.deep_view(), s),
            lookup(other.aliases.deep_view(), s),
            lookup(other.consts.deep_view(), s),
            other.placeholders.deep_view().contains(s),
        )
    }

    /// Enters one argument of an atom.
    fn enter(
        &mut self,
        Ghost(rule): Ghost<FLRuleModel>,
        positive: bool,
        id: usize,
        atom: &Atom,
        argument_id: usize,
    )
        requires
            id < atoms_of(rule, positive).len(),
            atoms_of(rule, positive)[id as int] == atom.deep_view(),
            argument_id < atom.arguments.len(),
            old(self).says_nothing(position(positive, id as int, argument_id as int)),
        ensures
            final(self).says_all(rule, position(positive, id as int, argument_id as int)),
            forall|s: AtomArgumentSignature|
                s != position(positive, id as int, argument_id as int)
                    ==> #[trigger] final(self).says_same(old(self), s),
    {
        let s = AtomArgumentSignature::new(AtomSignature::new(positive, id), argument_id);
        let ghost p = position(positive, id as int, argument_id as int);
        let ghost arguments = atom.deep_view().arguments;
        assert(s == p);
        assert(arguments[argument_id as int] == atom.arguments[argument_id as int].deep_view());
        match &atom.arguments[argument_id] {
            AtomArg::Var(var) => {
                proof {
                    lemma_lookup_push(self.strs.deep_view(), s, var@);
                }
                push(&mut self.strs, (s, var.clone()));
                let earlier = find_var(&atom.arguments, argument_id, var);
                match earlier {
                    Some(first) => {
                        let alias = AtomArgumentSignature::new(
                            AtomSignature::new(positive, id),
                            first,
                        );
                        proof {
                            lemma_lookup_push(self.aliases.deep_view(), s, alias);
                        }
                        push(&mut self.aliases, (s, alias));
                    },
                    None => {},
                }
            },
            AtomArg::Const(constant) => {
                proof {
                    lemma_lookup_push(self.consts.deep_view(), s, constant.deep_view());
                }
                push(&mut self.consts, (s, constant.clone()));
            },
            AtomArg::Placeholder => {
                let ghost before = self.placeholders.deep_view();
                push(&mut self.placeholders, s);
                proof {
                    let after = self.placeholders.deep_view();
                    assert(after[before.len() as int] == s);
                    assert forall|x: AtomArgumentSignature| x != s implies (after.contains(x)
                        <==> before.contains(x)) by {
                        if before.contains(x) {
                            let k = choose|k: int| 0 <= k < before.len() && before[k] == x;
                            assert(after[k] == x);
                        }
                    }
                }
            },
        }
    }

    /// Enters all arguments of the positive or of the negated atoms of a rule,
    /// and lists their positions.
    fn enter_all(
        &mut self,
        Ghost(rule): Ghost<FLRuleModel>,
        positive: bool,
        atoms: &Vec<Atom>,
    ) -> (signatures: Vec<Vec<AtomArgumentSignature>>)
        requires
            atoms.deep_view() == atoms_of(rule, positive),
            forall|s: AtomArgumentSignature|
                s.atom_signature.is_positive == positive ==> #[trigger] old(self).says_nothing(s),
        ensures
            signatures.deep_view() == atom_positions(rule, positive),
            forall|s: AtomArgumentSignature|
                s.atom_signature.is_positive == positive ==> #[trigger] final(self).says_all(rule, s),
            forall|s: AtomArgumentSignature|
                s.atom_signature.is_positive != positive
                    ==> #[trigger] final(self).says_same(old(self), s),
    {
        let mut signatures: Vec<Vec<AtomArgumentSignature>> = Vec::new();
        let ghost models = atoms_of(rule, positive);
        let mut i: usize = 0;
        while i < atoms.len()
            invariant
                i <= atoms.len(),
                models == atoms_of(rule, positive),
                atoms.deep_view() == models,
                signatures@.len() == i,
                forall|k: int|
                    0 <= k < i ==> (#[trigger] signatures@[k]).deep_view() == positions(
                        positive,
                        k,
                        models[k].arguments.len(),
                    ),
                forall|s: AtomArgumentSignature|
                    s.atom_signature.is_positive == positive && comes_before(s, i as int, 0)
                        ==> #[trigger] self.says_all(rule, s),
                forall|s: AtomArgumentSignature|
                    s.atom_signature.is_positive == positive && !comes_before(s, i as int, 0)
                        ==> #[trigger] self.says_nothing(s),
                forall|s: AtomArgumentSignature|
                    s.atom_signature.is_positive != positive
                        ==> #[trigger] self.says_same(old(self), s),
            decreases atoms.len() - i,
        {
            let atom = &atoms[i];
            let mut listed: Vec<AtomArgumentSignature> = Vec::new();
            let mut j: usize = 0;
            assert(models[i as int] == atom.deep_view());
            while j < atom.arguments.len()
                invariant
                    j <= atom.arguments.len(),
                    i < atoms.len(),
                    models == atoms_of(rule, positive),
                    atoms.deep_view() == models,
                    models[i as int] == atom.deep_view(),
                    listed@.len() == j,
                    forall|k: int|
                        0 <= k < j ==> #[trigger] listed@[k] == position(positive, i as int, k),
                    forall|s: AtomArgumentSignature|
                        s.atom_signature.is_positive == positive && comes_before(
                            s,
                            i as int,
                            j as int,
                        ) ==> #[trigger] self.says_all(rule, s),
                    forall|s: AtomArgumentSignature|
                        s.atom_signature.is_positive == positive && !comes_before(
                            s,
                            i as int,
                            j as int,
                        ) ==> #[trigger] self.says_nothing(s),
                    forall|s: AtomArgumentSignature|
                        s.atom_signature.is_positive != positive
                            ==> #[trigger] self.says_same(old(self), s),
                decreases atom.arguments.len() - j,
            {
                let ghost before = *self;
                let ghost p = position(positive, i as int, j as int);
                assert(before.says_nothing(p));
                self.enter(Ghost(rule), positive, i, atom, j);
                listed.push(AtomArgumentSignature::new(AtomSignature::new(positive, i), j));
                proof {
                    assert forall|s: AtomArgumentSignature|
                        s.atom_signature.is_positive == positive && comes_before(
                            s,
                            i as int,
                            j + 1,
                        ) implies #[trigger] self.says_all(rule, s) by {
                        if s != p {
                            assert(before.says_all(rule, s));
                            assert(self.says_same(&before, s));
                        }
                    }
                    assert forall|s: AtomArgumentSignature|
                        s.atom_signature.is_positive == positive && !comes_before(
                            s,
                            i as int,
                            j + 1,
                        ) implies #[trigger] self.says_nothing(s) by {
                        assert(before.says_nothing(s));
                        assert(self.says_same(&before, s));
                    }
                    assert forall|s: AtomArgumentSignature|
                        s.atom_signature.is_positive != positive implies #[trigger] self.says_same(
                        old(self),
                        s,
                    ) by {
                        assert(before.says_same(old(self), s));
                        assert(self.says_same(&before, s));
                    }
                }
                j += 1;
            }
            proof {
                assert(listed.deep_view() =~= positions(
                    positive,
                    i as int,
                    models[i as int].arguments.len(),
                ));
                let n = atom.arguments.len() as int;
                assert forall|s: AtomArgumentSignature|
                    s.atom_signature.is_positive == positive && comes_before(
                        s,
                        i + 1,
                        0,
                    ) implies #[trigger] self.says_all(rule, s) by {
                    if !comes_before(s, i as int, n) {
                        assert(self.says_nothing(s));
                        assert(arg_of(rule, s) is None);
                    }
                }
            }
            signatures.push(listed);
            i += 1;
        }
        proof {
            assert(signatures.deep_view() =~= atom_positions(rule, positive));
            assert forall|s: AtomArgumentSignature|
                s.atom_signature.is_positive == positive implies #[trigger] self.says_all(rule, s) by {
                if !comes_before(s, atoms.len() as int, 0) {
                    assert(self.says_nothing(s));
                    assert(arg_of(rule, s) is None);
                }
            }
        }
        signatures
    }
}

/// Whether all texts of `a` are among those of `b`.
pub fn all_in(a: &Vec<String>, b: &Vec<String>) -> (answer: bool)
    ensures
        answer == subset(a.deep_view(), b.deep_view()),
{
    let mut i: usize = 0;
    while i < a.len()
        invariant
            i <= a.len(),
            forall|k: int| 0 <= k < i ==> b.deep_view().contains(#[trigger] a.deep_view()[k]),
        decreases a.len() - i,
    {
        if !contains_same(b, &a[i]) {
            assert(a.deep_view().contains(a.deep_view()[i as int]));
            return false;
        }
        i += 1;
    }
    true
}

/// Drops repeated texts.
pub fn distinct_texts(items: &Vec<String>) -> (out: Vec<String>)
    ensures
        out.deep_view() == distinct(items.deep_view()),
        out.deep_view().no_duplicates(),
{
    broadcast use group_take;

    let mut out: Vec<String> = empty();
    let mut i: usize = 0;
    while i < items.len()
        invariant
            i <= items.len(),
            out.deep_view() == distinct(items.deep_view().take(i as int)),
        decreases items.len() - i,
    {
        assert(items.deep_view().take(i + 1).drop_last() == items.deep_view().take(i as int));
        if !contains_same(&out, &items[i]) {
            push(&mut out, items[i].clone());
        }
        i += 1;
    }
    proof {
        lemma_distinct(items.deep_view());
    }
    out
}

/// Whether a variable is an argument of one of the atoms.
fn occurs_in(atoms: &Vec<Atom>, var: &String) -> (answer: bool)
    ensures
        answer == occurs(atoms.deep_view(), var@),
{
    let mut i: usize = 0;
    while i < atoms.len()
        invariant
            i <= atoms.len(),
            forall|k: int|
                0 <= k < i ==> !(#[trigger] atoms.deep_view()[k]).arguments.contains(
                    AtomArgModel::Var(var@),
                ),
        decreases atoms.len() - i,
    {
        let len: usize = atoms[i].arguments.len();
        let ghost arguments = atoms.deep_view()[i as int].arguments;
        assert(arguments == atoms[i as int].arguments.deep_view());
        assert(arguments.take(len as int) =~= arguments);
        proof {
            lemma_first_var(arguments, var@);
        }
        if find_var(&atoms[i].arguments, len, var).is_some() {
            assert(atoms.deep_view()[i as int].arguments.contains(AtomArgModel::Var(var@)));
            return true;
        }
        i += 1;
    }
    false
}

/// The names of the atoms.
fn names_of(atoms: &Vec<Atom>) -> (names: Vec<String>)
    ensures
        names.deep_view() == Seq::new(
            atoms.deep_view().len(),
            |i: int| atoms.deep_view()[i].name,
        ),
{
    let mut names: Vec<String> = Vec::new();
    let mut i: usize = 0;
    while i < atoms.len()
        invariant
            i <= atoms.len(),
            names.len() == i,
            forall|k: int| 0 <= k < i ==> (#[trigger] names@[k])@ == atoms@[k].name@,
        decreases atoms.len() - i,
    {
        names.push(atoms[i].name.clone());
        i += 1;
    }
    assert(names.deep_view() =~= Seq::new(
        atoms.deep_view().len(),
        |i: int| atoms.deep_view()[i].name,
    ));
    names
}

impl Catalog {
    /// Whether every variable of a negated atom is also one of a positive atom.
    pub fn is_safe(rule: &FLRule) -> (answer: bool)
        ensures
            answer == is_safe(rule.deep_view()),
    {
        let (positive, negated, _) = split_body(&rule.rhs);
        let ghost model = rule.deep_view();
        let mut i: usize = 0;
        while i < negated.len()
            invariant
                i <= negated.len(),
                model == rule.deep_view(),
                positive.deep_view() == positive_atoms(model.rhs),
                negated.deep_view() == negated_atoms(model.rhs),
                forall|s: AtomArgumentSignature|
                    !s.atom_signature.is_positive && comes_before(s, i as int, 0) && (
                    #[trigger] var_of(model, s)) is Some ==> occurs(
                        positive_atoms(model.rhs),
                        var_of(model, s)->0,
                    ),
            decreases negated.len() - i,
        {
            let atom = &negated[i];
            assert(negated.deep_view()[i as int] == atom.deep_view());
            let mut j: usize = 0;
            while j < atom.arguments.len()
                invariant
                    j <= atom.arguments.len(),
                    i < negated.len(),
                    model == rule.deep_view(),
                    positive.deep_view() == positive_atoms(model.rhs),
                    negated.deep_view() == negated_atoms(model.rhs),
                    negated_atoms(model.rhs)[i as int] == atom.deep_view(),
                    forall|s: AtomArgumentSignature|
                        !s.atom_signature.is_positive && comes_before(s, i as int, j as int) && (
                        #[trigger] var_of(model, s)) is Some ==> occurs(
                            positive_atoms(model.rhs),
                            var_of(model, s)->0,
                        ),
                decreases atom.arguments.len() - j,
            {
                let ghost p = position(false, i as int, j as int);
                assert(atom.deep_view().arguments[j as int] == atom.arguments[j as int].deep_view());
                if let AtomArg::Var(var) = &atom.arguments[j] {
                    assert(var_of(model, p) == Some(var@));
                    if !occurs_in(&positive, var) {
                        return false;
                    }
                }
                assert forall|s: AtomArgumentSignature|
                    !s.atom_signature.is_positive && comes_before(s, i as int, j + 1) && (
                    #[trigger] var_of(model, s)) is Some implies occurs(
                    positive_atoms(model.rhs),
                    var_of(model, s)->0,
                ) by {
                    if !comes_before(s, i as int, j as int) {
                        assert(s == p);
                    }
                }
                j += 1;
            }
            assert forall|s: AtomArgumentSignature|
                !s.atom_signature.is_positive && comes_before(s, i + 1, 0) && (
                #[trigger] var_of(model, s)) is Some implies occurs(
                positive_atoms(model.rhs),
                var_of(model, s)->0,
            ) by {
                assert(comes_before(s, i as int, atom.arguments.len() as int));
            }
            i += 1;
        }
        true
    }

    /// The variables at the given positions.
    pub(crate) fn strs(
        map: &Vec<(AtomArgumentSignature, String)>,
        signatures: &Vec<AtomArgumentSignature>,
        Ghost(rule): Ghost<FLRuleModel>,
    ) -> (strs: Vec<String>)
        requires
            forall|s: AtomArgumentSignature| #[trigger]
                lookup(map.deep_view(), s) == var_of(rule, s),
        ensures
            strs.deep_view() == strs_of(rule, signatures.deep_view()),
    {
        broadcast use group_take;

        let mut strs: Vec<String> = empty();
        let ghost model = signatures.deep_view();
        let mut i: usize = 0;
        while i < signatures.len()
            invariant
                i <= signatures.len(),
                model == signatures.deep_view(),
                forall|s: AtomArgumentSignature| #[trigger]
                    lookup(map.deep_view(), s) == var_of(rule, s),
                strs.deep_view() == strs_of(rule, model.take(i as int)),
            decreases signatures.len() - i,
        {
            assert(model.take(i + 1).drop_last() == model.take(i as int));
            assert(model[i as int] == signatures[i as int]);
            match find(map, &signatures[i]) {
                Some(var) => push(&mut strs, var.clone()),
                None => {},
            }
            i += 1;
        }
        strs
    }

    /// Which positive atoms are core atoms.
    fn populate_is_core_atom_bitmap(
        map: &Vec<(AtomArgumentSignature, String)>,
        atom_argument_signatures: &Vec<Vec<AtomArgumentSignature>>,
        Ghost(rule): Ghost<FLRuleModel>,
    ) -> (bitmap: Vec<bool>)
        requires
            forall|s: AtomArgumentSignature| #[trigger]
                lookup(map.deep_view(), s) == var_of(rule, s),
            atom_argument_signatures.deep_view() == atom_positions(rule, true),
        ensures
            bitmap@ == Seq::new(positive_atoms(rule.rhs).len(), |i: int| is_core(rule, i)),
    {
        let ghost n = positive_atoms(rule.rhs).len();
        let mut sets: Vec<Vec<String>> = Vec::new();
        let mut i: usize = 0;
        while i < atom_argument_signatures.len()
            invariant
                i <= atom_argument_signatures.len(),
                forall|s: AtomArgumentSignature| #[trigger]
                    lookup(map.deep_view(), s) == var_of(rule, s),
                atom_argument_signatures.deep_view() == atom_positions(rule, true),
                sets.len() == i,
                forall|k: int|
                    0 <= k < i ==> (#[trigger] sets@[k]).deep_view() == atom_strs(rule, true, k),
            decreases atom_argument_signatures.len() - i,
        {
            let signatures = &atom_argument_signatures[i];
            assert(atom_argument_signatures.deep_view()[i as int] == signatures.deep_view());
            sets.push(Self::strs(map, signatures, Ghost(rule)));
            i += 1;
        }
        assert(atom_argument_signatures.deep_view().len() == n);
        let mut bitmap: Vec<bool> = Vec::new();
        let mut i: usize = 0;
        while i < sets.len()
            invariant
                i <= sets.len(),
                sets.len() == n,
                n == positive_atoms(rule.rhs).len(),
                forall|k: int|
                    0 <= k < n ==> (#[trigger] sets@[k]).deep_view() == atom_strs(rule, true, k),
                bitmap.len() == i,
                forall|k: int| 0 <= k < i ==> #[trigger] bitmap@[k] == is_core(rule, k),
            decreases sets.len() - i,
        {
            let mut core = true;
            let mut j: usize = 0;
            while j < sets.len()
                invariant
                    j <= sets.len(),
                    i < sets.len(),
                    sets.len() == n,
                    n == positive_atoms(rule.rhs).len(),
                    forall|k: int|
                        0 <= k < n ==> (#[trigger] sets@[k]).deep_view() == atom_strs(rule, true, k),
                    core <==> !exists|k: int|
                        0 <= k < j && k != i && subset(
                            atom_strs(rule, true, i as int),
                            #[trigger] atom_strs(rule, true, k),
                        ) && (k < i || !subset(
                            atom_strs(rule, true, k),
                            atom_strs(rule, true, i as int),
                        )),
                decreases sets.len() - j,
            {
                assert(sets@[i as int].deep_view() == atom_strs(rule, true, i as int));
                assert(sets@[j as int].deep_view() == atom_strs(rule, true, j as int));
                if i != j && all_in(&sets[i], &sets[j]) && (j < i || !all_in(&sets[j], &sets[i])) {
                    core = false;
                }
                j += 1;
            }
            bitmap.push(core);
            i += 1;
        }
        assert(bitmap@ =~= Seq::new(n, |i: int| is_core(rule, i)));
        bitmap
    }

    /// Where each positive atom holds each variable first.
    fn populate_argument_presence_map(
        positive: &Vec<Atom>,
        Ghost(rule): Ghost<FLRuleModel>,
    ) -> (map: Vec<(String, Vec<Option<AtomArgumentSignature>>)>)
        requires
            positive.deep_view() == positive_atoms(rule.rhs),
        ensures
            forall|var: Seq<char>| #[trigger] lookup(map.deep_view(), var) == presence(rule, var),
    {
        let ghost models = positive_atoms(rule.rhs);
        let mut map: Vec<(String, Vec<Option<AtomArgumentSignature>>)> = empty();
        let mut i: usize = 0;
        assert forall|var: Seq<char>| !occurs(models.take(0), var) by {}
        while i < positive.len()
            invariant
                i <= positive.len(),
                models == positive_atoms(rule.rhs),
                positive.deep_view() == models,
                forall|var: Seq<char>| #[trigger]
                    lookup(map.deep_view(), var) == if occurs(models.take(i as int), var) {
                        Some(presence_row(rule, var))
                    } else {
                        None
                    },
            decreases positive.len() - i,
        {
            let atom = &positive[i];
            assert(models[i as int] == atom.deep_view());
            let mut j: usize = 0;
            assert forall|var: Seq<char>| !(#[trigger] atom.deep_view().arguments.take(0).contains(AtomArgModel::Var(var))) by {}
            while j < atom.arguments.len()
                invariant
                    j <= atom.arguments.len(),
                    i < positive.len(),
                    models == positive_atoms(rule.rhs),
                    positive.deep_view() == models,
                    models[i as int] == atom.deep_view(),
                    forall|var: Seq<char>| #[trigger]
                        lookup(map.deep_view(), var) == if occurs(models.take(i as int), var)
                            || atom.deep_view().arguments.take(j as int).contains(
                            AtomArgModel::Var(var),
                        ) {
                            Some(presence_row(rule, var))
                        } else {
                            None
                        },
                decreases atom.arguments.len() - j,
            {
                let ghost arguments = atom.deep_view().arguments;
                let ghost before = map.deep_view();
                assert(arguments[j as int] == atom.arguments[j as int].deep_view());
                assert forall|var: Seq<char>|
                    arguments.take(j + 1).contains(AtomArgModel::Var(var)) <==> arguments.take(
                        j as int,
                    ).contains(AtomArgModel::Var(var)) || arguments[j as int] == AtomArgModel::Var(
                        var,
                    ) by {
                    let shorter = arguments.take(j as int);
                    let longer = arguments.take(j + 1);
                    if shorter.contains(AtomArgModel::Var(var)) {
                        let k = choose|k: int|
                            0 <= k < shorter.len() && shorter[k] == AtomArgModel::Var(var);
                        assert(longer[k] == AtomArgModel::Var(var));
                    }
                    if longer.contains(AtomArgModel::Var(var)) {
                        let k = choose|k: int|
                            0 <= k < longer.len() && longer[k] == AtomArgModel::Var(var);
                        if k < j {
                            assert(shorter[k] == AtomArgModel::Var(var));
                        }
                    }
                    assert(longer[j as int] == arguments[j as int]);
                }
                if let AtomArg::Var(var) = &atom.arguments[j] {
                    if find(&map, var).is_none() {
                        let row = Self::row_of(positive, var, Ghost(rule));
                        proof {
                            lemma_lookup_push(before, var@, presence_row(rule, var@));
                        }
                        push(&mut map, (var.clone(), row));
                    }
                    assert(lookup(map.deep_view(), var@) == Some(presence_row(rule, var@)));
                }
                j += 1;
            }
            proof {
                let arguments = atom.deep_view().arguments;
                assert(arguments.take(arguments.len() as int) =~= arguments);
                assert forall|var: Seq<char>| occurs(models.take(i + 1), var) <==> occurs(
                    models.take(i as int),
                    var,
                ) || arguments.contains(AtomArgModel::Var(var)) by {
                    let shorter = models.take(i as int);
                    let longer = models.take(i + 1);
                    if occurs(shorter, var) {
                        let k = choose|k: int|
                            0 <= k < shorter.len() && (#[trigger] shorter[k]).arguments.contains(
                                AtomArgModel::Var(var),
                            );
                        assert(longer[k].arguments.contains(AtomArgModel::Var(var)));
                    }
                    if occurs(longer, var) {
                        let k = choose|k: int|
                            0 <= k < longer.len() && (#[trigger] longer[k]).arguments.contains(
                                AtomArgModel::Var(var),
                            );
                        if k < i {
                            assert(shorter[k].arguments.contains(AtomArgModel::Var(var)));
                        }
                    }
                    assert(longer[i as int] == atom.deep_view());
                }
                assert forall|var: Seq<char>| #[trigger]
                    lookup(map.deep_view(), var) == if occurs(models.take(i + 1), var) {
                        Some(presence_row(rule, var))
                    } else {
                        None
                    } by {
                    assert(occurs(models.take(i + 1), var) <==> occurs(models.take(i as int), var)
                        || arguments.contains(AtomArgModel::Var(var)));
                }
            }
            i += 1;
        }
        assert(models.take(models.len() as int) =~= models);
        map
    }

    /// Where each positive atom holds the given variable first.
    fn row_of(positive: &Vec<Atom>, var: &String, Ghost(rule): Ghost<FLRuleModel>) -> (row: Vec<
        Option<AtomArgumentSignature>,
    >)
        requires
            positive.deep_view() == positive_atoms(rule.rhs),
        ensures
            row.deep_view() == presence_row(rule, var@),
    {
        let mut row: Vec<Option<AtomArgumentSignature>> = Vec::new();
        let mut i: usize = 0;
        while i < positive.len()
            invariant
                i <= positive.len(),
                positive.deep_view() == positive_atoms(rule.rhs),
                row.len() == i,
                forall|k: int|
                    0 <= k < i ==> (#[trigger] row@[k]).deep_view() == presence_row(rule, var@)[k],
            decreases positive.len() - i,
        {
            let arguments = &positive[i].arguments;
            assert(positive.deep_view()[i as int].arguments == arguments.deep_view());
            assert(arguments.deep_view().take(arguments.len() as int) =~= arguments.deep_view());
            match find_var(arguments, arguments.len(), var) {
                Some(k) => row.push(
                    Some(AtomArgumentSignature::new(AtomSignature::new(true, i), k)),
                ),
                None => row.push(None),
            }
            i += 1;
        }
        assert(row.deep_view() =~= presence_row(rule, var@));
        row
    }

    /// The variables of each comparison, each once.
    fn populate_comparison_predicates_vars_set(
        comparison_predicates: &Vec<ComparisonExpr>,
    ) -> (sets: Vec<Vec<String>>)
        ensures
            sets.deep_view() == Seq::new(
                comparison_predicates.deep_view().len(),
                |i: int| distinct(comparison_predicates.deep_view()[i].vars()),
            ),
    {
        let mut sets: Vec<Vec<String>> = Vec::new();
        let mut i: usize = 0;
        while i < comparison_predicates.len()
            invariant
                i <= comparison_predicates.len(),
                sets.len() == i,
                forall|k: int|
                    0 <= k < i ==> (#[trigger] sets@[k]).deep_view() == distinct(
                        comparison_predicates.deep_view()[k].vars(),
                    ),
            decreases comparison_predicates.len() - i,
        {
            let vars = comparison_predicates[i].vars_set();
            assert(comparison_predicates.deep_view()[i as int]
                == comparison_predicates@[i as int].deep_view());
            sets.push(owned(&vars));
            i += 1;
        }
        assert(sets.deep_view() =~= Seq::new(
            comparison_predicates.deep_view().len(),
            |i: int| distinct(comparison_predicates.deep_view()[i].vars()),
        ));
        sets
    }

    /// The catalog of a rule, unless a variable of a negated atom is unsafe.
    pub fn try_from_strata(rule: &FLRule) -> (catalog: Option<Self>)
        ensures
            catalog is Some <==> is_safe(rule.deep_view()),
            catalog is Some ==> catalog->0.wf() && catalog->0.rule.deep_view() == rule.deep_view(),
    {
        if !Self::is_safe(rule) {
            return None;
        }
        let ghost model = rule.deep_view();
        let (positive, negated, comparison_predicates) = split_body(&rule.rhs);
        let mut maps = ArgumentMaps {
            strs: empty(),
            aliases: empty(),
            consts: empty(),
            placeholders: empty(),
        };
        let ghost unused = maps;
        assert forall|s: AtomArgumentSignature| #[trigger] maps.says_nothing(s) by {}
        let atom_argument_signatures = maps.enter_all(Ghost(model), true, &positive);
        let ghost between = maps;
        proof {
            assert forall|s: AtomArgumentSignature|
                s.atom_signature.is_positive == false implies #[trigger] maps.says_nothing(s) by {
                assert(unused.says_nothing(s));
                assert(maps.says_same(&unused, s));
            }
        }
        let negated_atom_argument_signatures = maps.enter_all(Ghost(model), false, &negated);
        proof {
            assert forall|s: AtomArgumentSignature| #[trigger] maps.says_all(model, s) by {
                if s.atom_signature.is_positive {
                    assert(maps.says_same(&between, s));
                    assert(between.says_all(model, s));
                }
            }
        }
        let signature_to_argument_str_map = maps.strs;
        let base_filters = BaseFilters::new(maps.aliases, maps.consts, maps.placeholders);
        proof {
            assert forall|s: AtomArgumentSignature| #[trigger]
                lookup(signature_to_argument_str_map.deep_view(), s) == var_of(model, s) by {
                assert(maps.says_all(model, s));
            }
            assert(base_filters.describes(model)) by {
                assert forall|s: AtomArgumentSignature| #[trigger]
                    lookup(base_filters.var_eq_map.deep_view(), s) == alias_of(model, s) by {
                    assert(maps.says_all(model, s));
                }
                assert forall|s: AtomArgumentSignature| #[trigger]
                    lookup(base_filters.const_map.deep_view(), s) == const_of(model, s) by {
                    assert(maps.says_all(model, s));
                }
                assert forall|s: AtomArgumentSignature| #[trigger]
                    base_filters.placeholder_set.deep_view().contains(s) <==> is_placeholder(
                    model,
                    s,
                ) by {
                    assert(maps.says_all(model, s));
                }
            }
        }
        let is_core_atom_bitmap = Self::populate_is_core_atom_bitmap(
            &signature_to_argument_str_map,
            &atom_argument_signatures,
            Ghost(model),
        );
        let argument_presence_map = Self::populate_argument_presence_map(&positive, Ghost(model));
        let comparison_predicates_vars_set = Self::populate_comparison_predicates_vars_set(
            &comparison_predicates,
        );
        let mut head_arguments_map: Vec<(String, HeadArg)> = Vec::new();
        let arguments = &rule.head.head_arguments;
        let mut i: usize = 0;
        while i < arguments.len()
            invariant
                i <= arguments.len(),
                *arguments == rule.head.head_arguments,
                head_arguments_map.len() == i,
                forall|k: int|
                    0 <= k < i ==> (#[trigger] head_arguments_map@[k]).deep_view() == (
                        arguments@[k].deep_view().text(),
                        arguments@[k].deep_view(),
                    ),
            decreases arguments.len() - i,
        {
            head_arguments_map.push((arguments[i].to_string(), arguments[i].clone()));
            i += 1;
        }
        assert(head_arguments_map.deep_view() =~= Seq::new(
            model.head.head_arguments.len(),
            |i: int| (model.head.head_arguments[i].text(), model.head.head_arguments[i]),
        ));
        let catalog = Catalog {
            rule: rule.clone(),
            signature_to_argument_str_map,
            argument_presence_map,
            atom_names: names_of(&positive),
            atom_argument_signatures,
            is_core_atom_bitmap,
            negated_atom_names: names_of(&negated),
            negated_atom_argument_signatures,
            base_filters,
            comparison_predicates,
            comparison_predicates_vars_set,
            head_arguments_map,
        };
        assert(catalog.atom_names.deep_view() =~= atom_names_of(model, true));
        assert(catalog.negated_atom_names.deep_view() =~= atom_names_of(model, false));
        Some(catalog)
    }

    /// The catalog of a rule whose negated variables are all safe.
    pub fn from_strata(rule: &FLRule) -> (catalog: Self)
        requires
            is_safe(rule.deep_view()),
        ensures
            catalog.wf(),
            catalog.rule.deep_view() == rule.deep_view(),
    {
        Self::try_from_strata(rule).unwrap()
    }
}

/// Copies of the texts referred to.
pub fn owned(items: &Vec<&String>) -> (out: Vec<String>)
    ensures
        out.deep_view() == items.deep_view(),
{
    let mut out: Vec<String> = Vec::new();
    let mut i: usize = 0;
    while i < items.len()
        invariant
            i <= items.len(),
            out.len() == i,
            forall|k: int| 0 <= k < i ==> (#[trigger] out@[k])@ == items@[k]@,
        decreases items.len() - i,
    {
        out.push(items[i].clone());
        i += 1;
    }
    assert(out.deep_view() =~= items.deep_view());
    out
}

} // verus!
