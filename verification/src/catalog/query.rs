//! What a planner asks of the catalog of a rule.
use vstd::prelude::*;
use vstd::string::*;
use crate::catalog::atoms::{AtomArgumentSignature, AtomSignature};
use crate::catalog::body::{
    alias_of, atom_positions, atoms_of, comparisons, const_of, is_filtered, occurs, positive_atoms,
    var_of,
};
use crate::catalog::rule::{
    all_in, atom_names_of, atom_strs, distinct_texts, is_core, owned, presence, presence_row, strs_of,
    subset, unfiltered, Catalog,
};
use crate::lists::{clone_list, empty, extend, find, group_take, lookup, push};
use crate::parsing::arithmetic::{distinct, lemma_distinct};
use crate::parsing::compare::ComparisonExpr;
use crate::parsing::head::{HeadArg, HeadArgModel};
use crate::parsing::rule::{Const, ConstModel, FLRule, FLRuleModel};

verus! {

/// The positive atoms below `upto` that are no core atoms and whose variables
/// are all among `strs`.
pub open spec fn sub_atom_ids(rule: FLRuleModel, strs: Seq<Seq<char>>, upto: nat) -> Seq<
    AtomSignature,
>
    decreases upto,
{
    if upto == 0 {
        Seq::empty()
    } else {
        let i = upto - 1;
        let front = sub_atom_ids(rule, strs, i as nat);
        if !is_core(rule, i) && subset(atom_strs(rule, true, i), strs) {
            front.push(AtomSignature { is_positive: true, rhs_id: i as usize })
        } else {
            front
        }
    }
}

/// The negated atoms below `upto` whose variables are all among `strs`.
pub open spec fn sub_negated_ids(rule: FLRuleModel, strs: Seq<Seq<char>>, upto: nat) -> Seq<
    AtomSignature,
>
    decreases upto,
{
    if upto == 0 {
        Seq::empty()
    } else {
        let i = upto - 1;
        let front = sub_negated_ids(rule, strs, i as nat);
        if subset(atom_strs(rule, false, i), strs) {
            front.push(AtomSignature { is_positive: false, rhs_id: i as usize })
        } else {
            front
        }
    }
}

/// The positions that are constants, with the constants.
pub open spec fn consts_at(rule: FLRuleModel, signatures: Seq<AtomArgumentSignature>) -> Seq<
    (AtomArgumentSignature, ConstModel),
>
    decreases signatures.len(),
{
    if signatures.len() == 0 {
        Seq::empty()
    } else {
        let front = consts_at(rule, signatures.drop_last());
        match const_of(rule, signatures.last()) {
            Some(constant) => front.push((signatures.last(), constant)),
            None => front,
        }
    }
}

/// The positions that repeat a variable, behind the position that they repeat.
pub open spec fn aliases_at(rule: FLRuleModel, signatures: Seq<AtomArgumentSignature>) -> Seq<
    (AtomArgumentSignature, AtomArgumentSignature),
>
    decreases signatures.len(),
{
    if signatures.len() == 0 {
        Seq::empty()
    } else {
        let front = aliases_at(rule, signatures.drop_last());
        match alias_of(rule, signatures.last()) {
            Some(first) => front.push((first, signatures.last())),
            None => front,
        }
    }
}

/// The variables of the given atoms, in order; inside an atom each once.
pub open spec fn vars_of(rule: FLRuleModel, positive: bool, ids: Seq<usize>) -> Seq<Seq<char>>
    decreases ids.len(),
{
    if ids.len() == 0 {
        Seq::empty()
    } else {
        vars_of(rule, positive, ids.drop_last()) + strs_of(
            rule,
            unfiltered(rule, atom_positions(rule, positive)[ids.last() as int]),
        )
    }
}

/// The variables of the head arguments, in order.
pub open spec fn head_vars(arguments: Seq<HeadArgModel>) -> Seq<Seq<char>>
    decreases arguments.len(),
{
    if arguments.len() == 0 {
        Seq::empty()
    } else {
        head_vars(arguments.drop_last()) + arguments.last().vars()
    }
}

/// The variables of a comparison of the rule.
pub open spec fn comp_vars(rule: FLRuleModel, id: usize) -> Seq<Seq<char>> {
    comparisons(rule.rhs)[id as int].vars()
}

/// The variables of the given comparisons, inside a comparison each once.
pub open spec fn comps_vars(rule: FLRuleModel, ids: Seq<usize>) -> Seq<Seq<char>>
    decreases ids.len(),
{
    if ids.len() == 0 {
        Seq::empty()
    } else {
        comps_vars(rule, ids.drop_last()) + distinct(comp_vars(rule, ids.last()))
    }
}

/// The comparisons whose variables are all among `vars`.
pub open spec fn comps_within(rule: FLRuleModel, vars: Seq<Seq<char>>, ids: Seq<usize>) -> Seq<usize>
    decreases ids.len(),
{
    if ids.len() == 0 {
        Seq::empty()
    } else {
        let front = comps_within(rule, vars, ids.drop_last());
        if subset(comp_vars(rule, ids.last()), vars) {
            front.push(ids.last())
        } else {
            front
        }
    }
}

/// The comparisons whose variables are neither all on the left nor all on the right.
pub open spec fn comps_across(
    rule: FLRuleModel,
    left: Seq<Seq<char>>,
    right: Seq<Seq<char>>,
    ids: Seq<usize>,
) -> Seq<usize>
    decreases ids.len(),
{
    if ids.len() == 0 {
        Seq::empty()
    } else {
        let front = comps_across(rule, left, right, ids.drop_last());
        let vars = comp_vars(rule, ids.last());
        if !subset(vars, left) && !subset(vars, right) {
            front.push(ids.last())
        } else {
            front
        }
    }
}

/// Whether the comparisons exist and have no variables but those of both sides.
pub open spec fn comps_covered(
    rule: FLRuleModel,
    left: Seq<Seq<char>>,
    right: Seq<Seq<char>>,
    ids: Seq<usize>,
) -> bool {
    forall|k: int|
        0 <= k < ids.len() ==> (#[trigger] ids[k]) < comparisons(rule.rhs).len() && subset(
            comp_vars(rule, ids[k]),
            left + right,
        )
}

/// Whether an open negated atom has all its variables among those of both sides,
/// but neither all on the left nor all on the right.
pub open spec fn is_across(
    rule: FLRuleModel,
    left: Seq<Seq<char>>,
    right: Seq<Seq<char>>,
    open: Seq<bool>,
    i: int,
) -> bool {
    let strs = atom_strs(rule, false, i);
    open[i] && !subset(strs, left) && !subset(strs, right) && subset(strs, left + right)
}

/// The negated atoms below `upto` that have to wait for the join of both sides.
pub open spec fn across_ids(
    rule: FLRuleModel,
    left: Seq<Seq<char>>,
    right: Seq<Seq<char>>,
    open: Seq<bool>,
    upto: nat,
) -> Seq<AtomSignature>
    decreases upto,
{
    if upto == 0 {
        Seq::empty()
    } else {
        let i = upto - 1;
        let front = across_ids(rule, left, right, open, i as nat);
        if is_across(rule, left, right, open, i) {
            front.push(AtomSignature { is_positive: false, rhs_id: i as usize })
        } else {
            front
        }
    }
}

/// The open negated atoms without those that wait for the join of both sides.
pub open spec fn still_open(
    rule: FLRuleModel,
    left: Seq<Seq<char>>,
    right: Seq<Seq<char>>,
    open: Seq<bool>,
) -> Seq<bool> {
    Seq::new(
        open.len(),
        |i: int|
            open[i] && !(i < atoms_of(rule, false).len() && is_across(rule, left, right, open, i)),
    )
}

/// Where a positive atom holds a variable first.
pub open spec fn presence_at(rule: FLRuleModel, var: Seq<char>, id: usize) -> Option<
    AtomArgumentSignature,
> {
    match presence(rule, var) {
        Some(row) => if id < row.len() {
            row[id as int]
        } else {
            None
        },
        None => None,
    }
}

/// Where the first of the atoms that holds a variable holds it first.
pub open spec fn trace_one(rule: FLRuleModel, var: Seq<char>, atoms: Seq<AtomSignature>) -> Option<
    AtomArgumentSignature,
>
    decreases atoms.len(),
{
    if atoms.len() == 0 {
        None
    } else {
        match trace_one(rule, var, atoms.drop_last()) {
            Some(s) => Some(s),
            None => presence_at(rule, var, atoms.last().rhs_id),
        }
    }
}

/// Each variable traced to the first atom that holds it.
pub open spec fn trace_all(
    rule: FLRuleModel,
    vars: Seq<Seq<char>>,
    atoms: Seq<AtomSignature>,
) -> Option<Seq<AtomArgumentSignature>>
    decreases vars.len(),
{
    if vars.len() == 0 {
        Some(Seq::empty())
    } else {
        match (trace_all(rule, vars.drop_last(), atoms), trace_one(rule, vars.last(), atoms)) {
            (Some(front), Some(s)) => Some(front.push(s)),
            _ => None,
        }
    }
}

/// Each variable traced to the first of the positive atoms that holds it;
/// `None` where an atom is not positive or no atom holds a variable.
pub open spec fn trace(
    rule: FLRuleModel,
    vars: Seq<Seq<char>>,
    atoms: Seq<AtomSignature>,
) -> Option<Seq<AtomArgumentSignature>> {
    if exists|i: int| 0 <= i < atoms.len() && !(#[trigger] atoms[i]).is_positive {
        None
    } else {
        trace_all(rule, vars, atoms)
    }
}

/// The first of the positions that holds a variable, as a sequence of at most
/// one; `None` where a position without a variable comes before it.
pub open spec fn scan(
    rule: FLRuleModel,
    var: Seq<char>,
    signatures: Seq<AtomArgumentSignature>,
) -> Option<Seq<AtomArgumentSignature>>
    decreases signatures.len(),
{
    if signatures.len() == 0 {
        Some(Seq::empty())
    } else {
        match scan(rule, var, signatures.drop_last()) {
            None => None,
            Some(front) => if front.len() > 0 {
                Some(front)
            } else {
                match var_of(rule, signatures.last()) {
                    None => None,
                    Some(name) => if name == var {
                        Some(seq![signatures.last()])
                    } else {
                        Some(Seq::empty())
                    },
                }
            },
        }
    }
}

/// Each variable traced to an argument of a negated atom; variables that it does
/// not hold are passed over.
pub open spec fn scan_all(
    rule: FLRuleModel,
    vars: Seq<Seq<char>>,
    signatures: Seq<AtomArgumentSignature>,
) -> Option<Seq<AtomArgumentSignature>>
    decreases vars.len(),
{
    if vars.len() == 0 {
        Some(Seq::empty())
    } else {
        match (scan_all(rule, vars.drop_last(), signatures), scan(rule, vars.last(), signatures)) {
            (Some(front), Some(found)) => Some(front + found),
            _ => None,
        }
    }
}

/// Each variable traced to an argument of the one negated atom that is given.
pub open spec fn trace_negated(
    rule: FLRuleModel,
    vars: Seq<Seq<char>>,
    atoms: Seq<AtomSignature>,
) -> Option<Seq<AtomArgumentSignature>> {
    if atoms.len() != 1 || atoms[0].is_positive || atoms[0].rhs_id >= atoms_of(rule, false).len() {
        None
    } else {
        scan_all(rule, vars, atom_positions(rule, false)[atoms[0].rhs_id as int])
    }
}

proof fn lemma_trace_all_none(
    rule: FLRuleModel,
    vars: Seq<Seq<char>>,
    atoms: Seq<AtomSignature>,
    n: int,
)
    requires
        0 <= n <= vars.len(),
        trace_all(rule, vars.take(n), atoms) is None,
    ensures
        trace_all(rule, vars, atoms) is None,
    decreases vars.len() - n,
{
    broadcast use group_take;

    if n < vars.len() {
        assert(vars.take(n + 1).drop_last() == vars.take(n));
        lemma_trace_all_none(rule, vars, atoms, n + 1);
    }
}

proof fn lemma_scan_none(
    rule: FLRuleModel,
    var: Seq<char>,
    signatures: Seq<AtomArgumentSignature>,
    n: int,
)
    requires
        0 <= n <= signatures.len(),
    ensures
        scan(rule, var, signatures.take(n)) is None ==> scan(rule, var, signatures) is None,
        scan(rule, var, signatures.take(n)) is Some && scan(rule, var, signatures.take(n))->0.len() > 0
            ==> scan(rule, var, signatures) == scan(rule, var, signatures.take(n)),
    decreases signatures.len() - n,
{
    broadcast use group_take;

    if n < signatures.len() {
        assert(signatures.take(n + 1).drop_last() == signatures.take(n));
        lemma_scan_none(rule, var, signatures, n + 1);
    }
}

proof fn lemma_scan_all_none(
    rule: FLRuleModel,
    vars: Seq<Seq<char>>,
    signatures: Seq<AtomArgumentSignature>,
    n: int,
)
    requires
        0 <= n <= vars.len(),
        scan_all(rule, vars.take(n), signatures) is None,
    ensures
        scan_all(rule, vars, signatures) is None,
    decreases vars.len() - n,
{
    broadcast use group_take;

    if n < vars.len() {
        assert(vars.take(n + 1).drop_last() == vars.take(n));
        lemma_scan_all_none(rule, vars, signatures, n + 1);
    }
}

pub proof fn lemma_subset_distinct(a: Seq<Seq<char>>, b: Seq<Seq<char>>)
    ensures
        subset(distinct(a), b) == subset(a, b),
{
    lemma_distinct(a);
    if subset(distinct(a), b) {
        assert forall|x: Seq<char>| #[trigger] a.contains(x) implies b.contains(x) by {
            assert(distinct(a).contains(x));
        }
    }
    if subset(a, b) {
        assert forall|x: Seq<char>| #[trigger] distinct(a).contains(x) implies b.contains(x) by {
            assert(a.contains(x));
        }
    }
}

impl Catalog {
    pub fn rule(&self) -> (rule: &FLRule)
        ensures
            rule.deep_view() == self.rule.deep_view(),
    {
        &self.rule
    }

    pub fn head_arguments_map(&self) -> (map: &Vec<(String, HeadArg)>)
        ensures
            *map == self.head_arguments_map,
    {
        &self.head_arguments_map
    }

    /// The relations of the body, each once.
    pub fn dependent_atom_names(&self) -> (names: Vec<String>)
        requires
            self.wf(),
        ensures
            names.deep_view() == distinct(
                atom_names_of(self.rule.deep_view(), true) + atom_names_of(
                    self.rule.deep_view(),
                    false,
                ),
            ),
            names.deep_view().no_duplicates(),
    {
        let mut names = clone_list(&self.atom_names);
        extend(&mut names, clone_list(&self.negated_atom_names));
        distinct_texts(&names)
    }

    pub fn signature_to_argument_str_map(&self) -> (map: &Vec<(AtomArgumentSignature, String)>)
        ensures
            *map == self.signature_to_argument_str_map,
    {
        &self.signature_to_argument_str_map
    }

    /// The variables at the given positions; other positions are passed over.
    pub fn signature_to_argument_strs(
        &self,
        argument_signatures: &Vec<AtomArgumentSignature>,
    ) -> (strs: Vec<String>)
        requires
            self.wf(),
        ensures
            strs.deep_view() == strs_of(self.rule.deep_view(), argument_signatures.deep_view()),
    {
        Self::strs(
            &self.signature_to_argument_str_map,
            argument_signatures,
            Ghost(self.rule.deep_view()),
        )
    }

    /// The variables of a positive or negated atom.
    fn strs_of_atom(&self, positive: bool, id: usize) -> (strs: Vec<String>)
        requires
            self.wf(),
            id < atoms_of(self.rule.deep_view(), positive).len(),
        ensures
            strs.deep_view() == atom_strs(self.rule.deep_view(), positive, id as int),
    {
        proof {
            self.lemma_parts();
        }
        if positive {
            self.signature_to_argument_strs(&self.atom_argument_signatures[id])
        } else {
            self.signature_to_argument_strs(&self.negated_atom_argument_signatures[id])
        }
    }

    /// The atoms that are no core atoms and hold no variables but those at the
    /// given positions.
    pub fn sub_atoms(&self, signature_arguments: &Vec<AtomArgumentSignature>) -> (atoms: Vec<
        AtomSignature,
    >)
        requires
            self.wf(),
        ensures
            atoms.deep_view() == sub_atom_ids(
                self.rule.deep_view(),
                strs_of(self.rule.deep_view(), signature_arguments.deep_view()),
                atoms_of(self.rule.deep_view(), true).len(),
            ),
    {
        let strs = self.signature_to_argument_strs(signature_arguments);
        let ghost rule = self.rule.deep_view();
        let mut atoms: Vec<AtomSignature> = empty();
        let mut i: usize = 0;
        assert(self.is_core_atom_bitmap@.len() == atoms_of(rule, true).len());
        while i < self.is_core_atom_bitmap.len()
            invariant
                i <= self.is_core_atom_bitmap.len(),
                self.wf(),
                rule == self.rule.deep_view(),
                self.is_core_atom_bitmap@.len() == atoms_of(rule, true).len(),
                atoms.deep_view() == sub_atom_ids(rule, strs.deep_view(), i as nat),
            decreases self.is_core_atom_bitmap.len() - i,
        {
            if !self.is_core_atom_bitmap[i] {
                let own = self.strs_of_atom(true, i);
                if all_in(&own, &strs) {
                    push(&mut atoms, AtomSignature::new(true, i));
                }
            }
            i += 1;
        }
        atoms
    }

    /// The negated atoms that hold no variables but those at the given positions.
    pub fn sub_negated_atoms(&self, signature_arguments: &Vec<AtomArgumentSignature>) -> (atoms: Vec<
        AtomSignature,
    >)
        requires
            self.wf(),
        ensures
            atoms.deep_view() == sub_negated_ids(
                self.rule.deep_view(),
                strs_of(self.rule.deep_view(), signature_arguments.deep_view()),
                atoms_of(self.rule.deep_view(), false).len(),
            ),
    {
        let strs = self.signature_to_argument_strs(signature_arguments);
        let ghost rule = self.rule.deep_view();
        let mut atoms: Vec<AtomSignature> = empty();
        let mut i: usize = 0;
        proof {
            self.lemma_parts();
        }
        while i < self.negated_atom_argument_signatures.len()
            invariant
                i <= self.negated_atom_argument_signatures.len(),
                self.wf(),
                rule == self.rule.deep_view(),
                self.negated_atom_argument_signatures@.len() == atoms_of(rule, false).len(),
                atoms.deep_view() == sub_negated_ids(rule, strs.deep_view(), i as nat),
            decreases self.negated_atom_argument_signatures.len() - i,
        {
            let own = self.strs_of_atom(false, i);
            if all_in(&own, &strs) {
                push(&mut atoms, AtomSignature::new(false, i));
            }
            i += 1;
        }
        atoms
    }

    /// Where each positive atom holds a variable first.
    pub fn argument_presence_map(&self, argument_str: &String) -> (row: &Vec<
        Option<AtomArgumentSignature>,
    >)
        requires
            self.wf(),
            occurs(positive_atoms(self.rule.deep_view().rhs), argument_str@),
        ensures
            row.deep_view() == presence_row(self.rule.deep_view(), argument_str@),
    {
        find(&self.argument_presence_map, argument_str).unwrap()
    }

    pub fn atom_names(&self) -> (names: &Vec<String>)
        ensures
            *names == self.atom_names,
    {
        &self.atom_names
    }

    pub fn atom_argument_signatures(&self) -> (signatures: &Vec<Vec<AtomArgumentSignature>>)
        ensures
            *signatures == self.atom_argument_signatures,
    {
        &self.atom_argument_signatures
    }

    pub fn is_core_atom_bitmap(&self) -> (bitmap: &Vec<bool>)
        ensures
            *bitmap == self.is_core_atom_bitmap,
    {
        &self.is_core_atom_bitmap
    }

    pub fn negated_atom_names(&self) -> (names: &Vec<String>)
        ensures
            *names == self.negated_atom_names,
    {
        &self.negated_atom_names
    }

    pub fn negated_atom_argument_signatures(&self) -> (signatures: &Vec<Vec<AtomArgumentSignature>>)
        ensures
            *signatures == self.negated_atom_argument_signatures,
    {
        &self.negated_atom_argument_signatures
    }

    pub fn head_name(&self) -> (name: &String)
        ensures
            name@ == self.rule.deep_view().head.name,
    {
        self.rule.head().name()
    }

    pub fn head_arguments(&self) -> (arguments: &Vec<HeadArg>)
        ensures
            arguments.deep_view() == self.rule.deep_view().head.head_arguments,
    {
        self.rule.head().head_arguments()
    }

    /// The variables of the head, in order.
    pub fn head_arguments_strs(&self) -> (strs: Vec<String>)
        ensures
            strs.deep_view() == head_vars(self.rule.deep_view().head.head_arguments),
    {
        broadcast use group_take;

        let arguments = self.head_arguments();
        let ghost model = arguments.deep_view();
        let mut strs: Vec<String> = empty();
        let mut i: usize = 0;
        while i < arguments.len()
            invariant
                i <= arguments.len(),
                model == arguments.deep_view(),
                strs.deep_view() == head_vars(model.take(i as int)),
            decreases arguments.len() - i,
        {
            assert(model.take(i + 1).drop_last() == model.take(i as int));
            assert(model[i as int] == arguments[i as int].deep_view());
            extend(&mut strs, owned(&arguments[i].vars()));
            i += 1;
        }
        strs
    }

    /// Whether a position is a constant, a placeholder or a repeated variable.
    pub fn is_const_or_var_eq_or_placeholder(&self, signature: &AtomArgumentSignature) -> (answer:
        bool)
        requires
            self.wf(),
        ensures
            answer == is_filtered(self.rule.deep_view(), *signature),
    {
        self.base_filters.is_const_or_var_eq_or_placeholder(signature)
    }

    /// The positions that are not filtered.
    pub fn var_signatures(&self, signatures: &Vec<AtomArgumentSignature>) -> (out: Vec<
        AtomArgumentSignature,
    >)
        requires
            self.wf(),
        ensures
            out.deep_view() == unfiltered(self.rule.deep_view(), signatures.deep_view()),
    {
        broadcast use group_take;

        let ghost rule = self.rule.deep_view();
        let ghost model = signatures.deep_view();
        let mut out: Vec<AtomArgumentSignature> = empty();
        let mut i: usize = 0;
        while i < signatures.len()
            invariant
                i <= signatures.len(),
                self.wf(),
                rule == self.rule.deep_view(),
                model == signatures.deep_view(),
                out.deep_view() == unfiltered(rule, model.take(i as int)),
            decreases signatures.len() - i,
        {
            assert(model.take(i + 1).drop_last() == model.take(i as int));
            assert(model[i as int] == signatures[i as int]);
            if !self.is_const_or_var_eq_or_placeholder(&signatures[i]) {
                push(&mut out, signatures[i]);
            }
            i += 1;
        }
        out
    }

    /// The positions that are constants, with the constants.
    pub fn const_signatures(&self, signature_arguments: &Vec<AtomArgumentSignature>) -> (out: Vec<
        (AtomArgumentSignature, Const),
    >)
        requires
            self.wf(),
        ensures
            out.deep_view() == consts_at(self.rule.deep_view(), signature_arguments.deep_view()),
    {
        broadcast use group_take;

        let ghost rule = self.rule.deep_view();
        let ghost model = signature_arguments.deep_view();
        let mut out: Vec<(AtomArgumentSignature, Const)> = empty();
        let mut i: usize = 0;
        while i < signature_arguments.len()
            invariant
                i <= signature_arguments.len(),
                self.wf(),
                rule == self.rule.deep_view(),
                model == signature_arguments.deep_view(),
                out.deep_view() == consts_at(rule, model.take(i as int)),
            decreases signature_arguments.len() - i,
        {
            assert(model.take(i + 1).drop_last() == model.take(i as int));
            assert(model[i as int] == signature_arguments[i as int]);
            let s = signature_arguments[i];
            assert(lookup(self.base_filters.const_map.deep_view(), s) == const_of(rule, s));
            match find(&self.base_filters.const_map, &s) {
                Some(constant) => push(&mut out, (s, constant.clone())),
                None => {},
            }
            i += 1;
        }
        out
    }

    /// The positions that repeat a variable, behind the position that they repeat.
    pub fn var_eq_signatures(&self, signature_arguments: &Vec<AtomArgumentSignature>) -> (out: Vec<
        (AtomArgumentSignature, AtomArgumentSignature),
    >)
        requires
            self.wf(),
        ensures
            out.deep_view() == aliases_at(self.rule.deep_view(), signature_arguments.deep_view()),
    {
        broadcast use group_take;

        let ghost rule = self.rule.deep_view();
        let ghost model = signature_arguments.deep_view();
        let mut out: Vec<(AtomArgumentSignature, AtomArgumentSignature)> = empty();
        let mut i: usize = 0;
        while i < signature_arguments.len()
            invariant
                i <= signature_arguments.len(),
                self.wf(),
                rule == self.rule.deep_view(),
                model == signature_arguments.deep_view(),
                out.deep_view() == aliases_at(rule, model.take(i as int)),
            decreases signature_arguments.len() - i,
        {
            assert(model.take(i + 1).drop_last() == model.take(i as int));
            assert(model[i as int] == signature_arguments[i as int]);
            let s = signature_arguments[i];
            assert(lookup(self.base_filters.var_eq_map.deep_view(), s) == alias_of(rule, s));
            match find(&self.base_filters.var_eq_map, &s) {
                Some(first) => push(&mut out, (*first, s)),
                None => {},
            }
            i += 1;
        }
        out
    }

    /// The variables of the given atoms.
    fn vars(&self, positive: bool, ids: &Vec<usize>) -> (vars: Vec<String>)
        requires
            self.wf(),
            forall|k: int|
                0 <= k < ids@.len() ==> (#[trigger] ids@[k]) < atoms_of(
                    self.rule.deep_view(),
                    positive,
                ).len(),
        ensures
            vars.deep_view() == vars_of(self.rule.deep_view(), positive, ids@),
    {
        broadcast use group_take;

        let ghost rule = self.rule.deep_view();
        let mut vars: Vec<String> = empty();
        let mut i: usize = 0;
        while i < ids.len()
            invariant
                i <= ids.len(),
                self.wf(),
                rule == self.rule.deep_view(),
                forall|k: int|
                    0 <= k < ids@.len() ==> (#[trigger] ids@[k]) < atoms_of(rule, positive).len(),
                vars.deep_view() == vars_of(rule, positive, ids@.take(i as int)),
            decreases ids.len() - i,
        {
            let id: usize = ids[i];
            assert(ids@.take(i + 1).drop_last() == ids@.take(i as int));
            assert(id < atoms_of(rule, positive).len());
            proof {
                self.lemma_parts();
            }
            let own = if positive {
                self.var_signatures(&self.atom_argument_signatures[id])
            } else {
                self.var_signatures(&self.negated_atom_argument_signatures[id])
            };
            extend(&mut vars, self.signature_to_argument_strs(&own));
            i += 1;
        }
        vars
    }

    /// The variables of the given positive atoms, each once.
    pub fn vars_set(&self, rhs_ids: &Vec<usize>) -> (vars: Vec<String>)
        requires
            self.wf(),
            forall|k: int|
                0 <= k < rhs_ids@.len() ==> (#[trigger] rhs_ids@[k]) < atoms_of(
                    self.rule.deep_view(),
                    true,
                ).len(),
        ensures
            vars.deep_view() == distinct(vars_of(self.rule.deep_view(), true, rhs_ids@)),
            vars.deep_view().no_duplicates(),
    {
        distinct_texts(&self.vars(true, rhs_ids))
    }

    /// The variables of the given negated atoms, each once.
    pub fn negated_vars_set(&self, neg_rhs_ids: &Vec<usize>) -> (vars: Vec<String>)
        requires
            self.wf(),
            forall|k: int|
                0 <= k < neg_rhs_ids@.len() ==> (#[trigger] neg_rhs_ids@[k]) < atoms_of(
                    self.rule.deep_view(),
                    false,
                ).len(),
        ensures
            vars.deep_view() == distinct(vars_of(self.rule.deep_view(), false, neg_rhs_ids@)),
            vars.deep_view().no_duplicates(),
    {
        distinct_texts(&self.vars(false, neg_rhs_ids))
    }

    /// The variables of the given negated atoms, inside an atom each once.
    pub fn negated_vars(&self, neg_rhs_ids: &Vec<usize>) -> (vars: Vec<String>)
        requires
            self.wf(),
            forall|k: int|
                0 <= k < neg_rhs_ids@.len() ==> (#[trigger] neg_rhs_ids@[k]) < atoms_of(
                    self.rule.deep_view(),
                    false,
                ).len(),
        ensures
            vars.deep_view() == vars_of(self.rule.deep_view(), false, neg_rhs_ids@),
    {
        self.vars(false, neg_rhs_ids)
    }

    pub fn comparison_predicates(&self) -> (comparisons: &Vec<ComparisonExpr>)
        ensures
            *comparisons == self.comparison_predicates,
    {
        &self.comparison_predicates
    }

    /// The variables of the given comparisons, inside a comparison each once.
    pub fn comparison_predicates_vars_set(&self, comp_ids: &Vec<usize>) -> (vars: Vec<String>)
        requires
            self.wf(),
            forall|k: int|
                0 <= k < comp_ids@.len() ==> (#[trigger] comp_ids@[k]) < comparisons(
                    self.rule.deep_view().rhs,
                ).len(),
        ensures
            vars.deep_view() == comps_vars(self.rule.deep_view(), comp_ids@),
    {
        broadcast use group_take;

        let ghost rule = self.rule.deep_view();
        let mut vars: Vec<String> = empty();
        let mut i: usize = 0;
        while i < comp_ids.len()
            invariant
                i <= comp_ids.len(),
                self.wf(),
                rule == self.rule.deep_view(),
                forall|k: int|
                    0 <= k < comp_ids@.len() ==> (#[trigger] comp_ids@[k]) < comparisons(
                        rule.rhs,
                    ).len(),
                vars.deep_view() == comps_vars(rule, comp_ids@.take(i as int)),
            decreases comp_ids.len() - i,
        {
            let id: usize = comp_ids[i];
            assert(comp_ids@.take(i + 1).drop_last() == comp_ids@.take(i as int));
            assert(id < comparisons(rule.rhs).len());
            proof {
                self.lemma_parts();
            }
            extend(&mut vars, clone_list(&self.comparison_predicates_vars_set[id]));
            i += 1;
        }
        vars
    }

    /// Whether all variables of a comparison are among `vars`.
    fn comp_is_within(&self, id: usize, vars: &Vec<String>) -> (answer: bool)
        requires
            self.wf(),
            id < comparisons(self.rule.deep_view().rhs).len(),
        ensures
            answer == subset(comp_vars(self.rule.deep_view(), id), vars.deep_view()),
    {
        proof {
            lemma_subset_distinct(comp_vars(self.rule.deep_view(), id), vars.deep_view());
            self.lemma_parts();
        }
        all_in(&self.comparison_predicates_vars_set[id], vars)
    }

    /// Whether the comparisons exist and have no variables but those of both sides.
    pub fn comparisons_are_covered(
        &self,
        left_vars_set: &Vec<String>,
        right_vars_set: &Vec<String>,
        active_comparison_predicates: &Vec<usize>,
    ) -> (answer: bool)
        requires
            self.wf(),
        ensures
            answer == comps_covered(
                self.rule.deep_view(),
                left_vars_set.deep_view(),
                right_vars_set.deep_view(),
                active_comparison_predicates@,
            ),
    {
        let ghost rule = self.rule.deep_view();
        let mut both = clone_list(left_vars_set);
        extend(&mut both, clone_list(right_vars_set));
        let mut i: usize = 0;
        while i < active_comparison_predicates.len()
            invariant
                i <= active_comparison_predicates.len(),
                self.wf(),
                rule == self.rule.deep_view(),
                both.deep_view() == left_vars_set.deep_view() + right_vars_set.deep_view(),
                forall|k: int|
                    0 <= k < i ==> (#[trigger] active_comparison_predicates@[k]) < comparisons(
                        rule.rhs,
                    ).len() && subset(
                        comp_vars(rule, active_comparison_predicates@[k]),
                        both.deep_view(),
                    ),
            decreases active_comparison_predicates.len() - i,
        {
            let id: usize = active_comparison_predicates[i];
            proof {
                self.lemma_parts();
            }
            if id >= self.comparison_predicates.len() || !self.comp_is_within(id, &both) {
                assert(active_comparison_predicates@[i as int] == id);
                return false;
            }
            i += 1;
        }
        true
    }

    /// Parts the comparisons into those that need both sides, those that the left
    /// side can check, and those that the right side can check.
    pub fn partition_comparison_predicates(
        &self,
        left_vars_set: &Vec<String>,
        right_vars_set: &Vec<String>,
        active_comparison_predicates: &Vec<usize>,
    ) -> (parts: (Vec<usize>, Vec<usize>, Vec<usize>))
        requires
            self.wf(),
            comps_covered(
                self.rule.deep_view(),
                left_vars_set.deep_view(),
                right_vars_set.deep_view(),
                active_comparison_predicates@,
            ),
        ensures
            parts.0@ == comps_across(
                self.rule.deep_view(),
                left_vars_set.deep_view(),
                right_vars_set.deep_view(),
                active_comparison_predicates@,
            ),
            parts.1@ == comps_within(
                self.rule.deep_view(),
                left_vars_set.deep_view(),
                active_comparison_predicates@,
            ),
            parts.2@ == comps_within(
                self.rule.deep_view(),
                right_vars_set.deep_view(),
                active_comparison_predicates@,
            ),
    {
        broadcast use group_take;

        let ghost rule = self.rule.deep_view();
        let ghost ids = active_comparison_predicates@;
        let ghost left = left_vars_set.deep_view();
        let ghost right = right_vars_set.deep_view();
        let mut join_predicates: Vec<usize> = Vec::new();
        let mut left_predicates: Vec<usize> = Vec::new();
        let mut right_predicates: Vec<usize> = Vec::new();
        let mut i: usize = 0;
        while i < active_comparison_predicates.len()
            invariant
                i <= active_comparison_predicates.len(),
                self.wf(),
                rule == self.rule.deep_view(),
                ids == active_comparison_predicates@,
                left == left_vars_set.deep_view(),
                right == right_vars_set.deep_view(),
                comps_covered(rule, left, right, ids),
                join_predicates@ == comps_across(rule, left, right, ids.take(i as int)),
                left_predicates@ == comps_within(rule, left, ids.take(i as int)),
                right_predicates@ == comps_within(rule, right, ids.take(i as int)),
            decreases active_comparison_predicates.len() - i,
        {
            let id: usize = active_comparison_predicates[i];
            assert(ids.take(i + 1).drop_last() == ids.take(i as int));
            assert(ids[i as int] == id);
            let on_left = self.comp_is_within(id, left_vars_set);
            let on_right = self.comp_is_within(id, right_vars_set);
            if on_left {
                left_predicates.push(id);
            }
            if on_right {
                right_predicates.push(id);
            }
            if !on_left && !on_right {
                join_predicates.push(id);
            }
            i += 1;
        }
        (join_predicates, left_predicates, right_predicates)
    }

    /// Takes out the open negated atoms that have to wait for the join of both sides.
    pub fn attach_negated_atoms_on_joins(
        &self,
        left_vars_set: &Vec<String>,
        right_vars_set: &Vec<String>,
        is_active_negation_bitmap: &mut Vec<bool>,
    ) -> (atoms: Vec<AtomSignature>)
        requires
            self.wf(),
            old(is_active_negation_bitmap)@.len() >= atoms_of(self.rule.deep_view(), false).len(),
        ensures
            atoms.deep_view() == across_ids(
                self.rule.deep_view(),
                left_vars_set.deep_view(),
                right_vars_set.deep_view(),
                old(is_active_negation_bitmap)@,
                atoms_of(self.rule.deep_view(), false).len(),
            ),
            final(is_active_negation_bitmap)@ == still_open(
                self.rule.deep_view(),
                left_vars_set.deep_view(),
                right_vars_set.deep_view(),
                old(is_active_negation_bitmap)@,
            ),
    {
        let ghost rule = self.rule.deep_view();
        let ghost left = left_vars_set.deep_view();
        let ghost right = right_vars_set.deep_view();
        let ghost open = is_active_negation_bitmap@;
        let ghost n = atoms_of(rule, false).len();
        let mut both = clone_list(left_vars_set);
        extend(&mut both, clone_list(right_vars_set));
        let mut atoms: Vec<AtomSignature> = empty();
        let mut i: usize = 0;
        proof {
            self.lemma_parts();
        }
        while i < self.negated_atom_argument_signatures.len()
            invariant
                i <= self.negated_atom_argument_signatures.len(),
                self.negated_atom_argument_signatures@.len() == n,
                self.wf(),
                rule == self.rule.deep_view(),
                n == atoms_of(rule, false).len(),
                left == left_vars_set.deep_view(),
                right == right_vars_set.deep_view(),
                both.deep_view() == left + right,
                open.len() >= n,
                is_active_negation_bitmap@.len() == open.len(),
                atoms.deep_view() == across_ids(rule, left, right, open, i as nat),
                forall|k: int|
                    0 <= k < i ==> #[trigger] is_active_negation_bitmap@[k] == (open[k]
                        && !is_across(rule, left, right, open, k)),
                forall|k: int|
                    i <= k < open.len() ==> #[trigger] is_active_negation_bitmap@[k] == open[k],
            decreases self.negated_atom_argument_signatures.len() - i,
        {
            if is_active_negation_bitmap[i] {
                let strs = self.strs_of_atom(false, i);
                if !all_in(&strs, left_vars_set) && !all_in(&strs, right_vars_set) && all_in(
                    &strs,
                    &both,
                ) {
                    push(&mut atoms, AtomSignature::new(false, i));
                    is_active_negation_bitmap.set(i, false);
                }
            }
            i += 1;
        }
        assert(is_active_negation_bitmap@ =~= still_open(rule, left, right, open));
        atoms
    }

    /// Each variable traced to the first of the positive atoms that holds it;
    /// `None` where an atom is not positive or no atom holds a variable.
    pub fn try_top_down_trace(
        &self,
        trace_argument_strs: &Vec<String>,
        atom_signatures: &Vec<AtomSignature>,
    ) -> (traced: Option<Vec<AtomArgumentSignature>>)
        requires
            self.wf(),
        ensures
            traced.deep_view() == trace(
                self.rule.deep_view(),
                trace_argument_strs.deep_view(),
                atom_signatures@,
            ),
    {
        broadcast use group_take;

        let ghost rule = self.rule.deep_view();
        let ghost vars = trace_argument_strs.deep_view();
        let ghost atoms = atom_signatures@;
        let mut i: usize = 0;
        while i < atom_signatures.len()
            invariant
                i <= atom_signatures.len(),
                atoms == atom_signatures@,
                forall|k: int| 0 <= k < i ==> (#[trigger] atoms[k]).is_positive,
            decreases atom_signatures.len() - i,
        {
            if !atom_signatures[i].is_positive() {
                assert(!atoms[i as int].is_positive);
                return None;
            }
            i += 1;
        }
        let mut result: Vec<AtomArgumentSignature> = empty();
        let mut i: usize = 0;
        while i < trace_argument_strs.len()
            invariant
                i <= trace_argument_strs.len(),
                self.wf(),
                rule == self.rule.deep_view(),
                vars == trace_argument_strs.deep_view(),
                atoms == atom_signatures@,
                forall|k: int| 0 <= k < atoms.len() ==> (#[trigger] atoms[k]).is_positive,
                trace_all(rule, vars.take(i as int), atoms) == Some(result.deep_view()),
            decreases trace_argument_strs.len() - i,
        {
            assert(vars.take(i + 1).drop_last() == vars.take(i as int));
            assert(vars[i as int] == trace_argument_strs[i as int]@);
            match self.trace_var(&trace_argument_strs[i], atom_signatures) {
                Some(s) => push(&mut result, s),
                None => {
                    proof {
                        lemma_trace_all_none(rule, vars, atoms, i + 1);
                    }
                    return None;
                },
            }
            i += 1;
        }
        Some(result)
    }

    fn trace_var(&self, var: &String, atom_signatures: &Vec<AtomSignature>) -> (found: Option<
        AtomArgumentSignature,
    >)
        requires
            self.wf(),
        ensures
            found == trace_one(self.rule.deep_view(), var@, atom_signatures@),
    {
        broadcast use group_take;

        let ghost rule = self.rule.deep_view();
        let ghost atoms = atom_signatures@;
        let row = find(&self.argument_presence_map, var);
        let mut found: Option<AtomArgumentSignature> = None;
        let mut i: usize = 0;
        while i < atom_signatures.len()
            invariant
                i <= atom_signatures.len(),
                self.wf(),
                rule == self.rule.deep_view(),
                atoms == atom_signatures@,
                row.deep_view() == presence(rule, var@),
                found == trace_one(rule, var@, atoms.take(i as int)),
            decreases atom_signatures.len() - i,
        {
            assert(atoms.take(i + 1).drop_last() == atoms.take(i as int));
            if found.is_none() {
                match row {
                    Some(row) => {
                        let id: usize = atom_signatures[i].rhs_id();
                        if id < row.len() {
                            assert(row.deep_view()[id as int] == row@[id as int].deep_view());
                            found = row[id];
                        }
                    },
                    None => {},
                }
            }
            i += 1;
        }
        found
    }

    /// Each variable traced to the first of the positive atoms that holds it.
    pub fn top_down_trace(
        &self,
        trace_argument_strs: &Vec<String>,
        atom_signatures: &Vec<AtomSignature>,
    ) -> (traced: Vec<AtomArgumentSignature>)
        requires
            self.wf(),
            trace(
                self.rule.deep_view(),
                trace_argument_strs.deep_view(),
                atom_signatures@,
            ) is Some,
        ensures
            trace(self.rule.deep_view(), trace_argument_strs.deep_view(), atom_signatures@) == Some(
                traced.deep_view(),
            ),
    {
        self.try_top_down_trace(trace_argument_strs, atom_signatures).unwrap()
    }

    /// Each variable traced to an argument of the one negated atom that is given;
    /// `None` where an argument without a variable stands in the way.
    pub fn try_top_down_trace_negated(
        &self,
        trace_argument_strs: &Vec<String>,
        negated_atom_signatures: &Vec<AtomSignature>,
    ) -> (traced: Option<Vec<AtomArgumentSignature>>)
        requires
            self.wf(),
        ensures
            traced.deep_view() == trace_negated(
                self.rule.deep_view(),
                trace_argument_strs.deep_view(),
                negated_atom_signatures@,
            ),
    {
        broadcast use group_take;

        let ghost rule = self.rule.deep_view();
        let ghost vars = trace_argument_strs.deep_view();
        if negated_atom_signatures.len() != 1 || negated_atom_signatures[0].is_positive() {
            return None;
        }
        let id: usize = negated_atom_signatures[0].rhs_id();
        proof {
            self.lemma_parts();
        }
        if id >= self.negated_atom_argument_signatures.len() {
            return None;
        }
        let signatures = &self.negated_atom_argument_signatures[id];
        let ghost model = signatures.deep_view();
        let mut result: Vec<AtomArgumentSignature> = empty();
        let mut i: usize = 0;
        while i < trace_argument_strs.len()
            invariant
                i <= trace_argument_strs.len(),
                self.wf(),
                rule == self.rule.deep_view(),
                vars == trace_argument_strs.deep_view(),
                model == signatures.deep_view(),
                trace_negated(rule, vars, negated_atom_signatures@) == scan_all(rule, vars, model),
                scan_all(rule, vars.take(i as int), model) == Some(result.deep_view()),
            decreases trace_argument_strs.len() - i,
        {
            assert(vars.take(i + 1).drop_last() == vars.take(i as int));
            assert(vars[i as int] == trace_argument_strs[i as int]@);
            match self.scan_for(&trace_argument_strs[i], signatures) {
                Some(found) => extend(&mut result, found),
                None => {
                    proof {
                        lemma_scan_all_none(rule, vars, model, i + 1);
                    }
                    return None;
                },
            }
            i += 1;
        }
        Some(result)
    }

    fn scan_for(&self, var: &String, signatures: &Vec<AtomArgumentSignature>) -> (found: Option<
        Vec<AtomArgumentSignature>,
    >)
        requires
            self.wf(),
        ensures
            found.deep_view() == scan(self.rule.deep_view(), var@, signatures.deep_view()),
    {
        broadcast use group_take;

        let ghost rule = self.rule.deep_view();
        let ghost model = signatures.deep_view();
        let mut i: usize = 0;
        while i < signatures.len()
            invariant
                i <= signatures.len(),
                self.wf(),
                rule == self.rule.deep_view(),
                model == signatures.deep_view(),
                scan(rule, var@, model.take(i as int)) == Some(Seq::<AtomArgumentSignature>::empty()),
            decreases signatures.len() - i,
        {
            assert(model.take(i + 1).drop_last() == model.take(i as int));
            assert(model[i as int] == signatures[i as int]);
            proof {
                lemma_scan_none(rule, var@, model, i + 1);
            }
            match find(&self.signature_to_argument_str_map, &signatures[i]) {
                Some(name) => {
                    if *name == *var {
                        let mut found: Vec<AtomArgumentSignature> = empty();
                        push(&mut found, signatures[i]);
                        assert(found.deep_view() =~= seq![model[i as int]]);
                        return Some(found);
                    }
                },
                None => {
                    return None;
                },
            }
            i += 1;
        }
        Some(empty())
    }

    /// Each variable traced to an argument of the one negated atom that is given.
    pub fn top_down_trace_negated(
        &self,
        trace_argument_strs: &Vec<String>,
        negated_atom_signatures: &Vec<AtomSignature>,
    ) -> (traced: Vec<AtomArgumentSignature>)
        requires
            self.wf(),
            trace_negated(
                self.rule.deep_view(),
                trace_argument_strs.deep_view(),
                negated_atom_signatures@,
            ) is Some,
        ensures
            trace_negated(
                self.rule.deep_view(),
                trace_argument_strs.deep_view(),
                negated_atom_signatures@,
            ) == Some(traced.deep_view()),
    {
        self.try_top_down_trace_negated(trace_argument_strs, negated_atom_signatures).unwrap()
    }
}

} // verus!
