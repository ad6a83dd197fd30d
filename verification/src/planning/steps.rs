//! The steps that bring one atom of a rule together with the atoms that filter it.
use vstd::prelude::*;
use vstd::string::*;
use crate::catalog::atoms::{AtomArgumentSignature, AtomSignature};
use crate::catalog::body::{atom_positions, atoms_of, comparisons};
use crate::catalog::compare::{place_comparison, PlacedComparison, PlacedComparisonModel};
use crate::catalog::open::{
    are_atoms, ids_of, lemma_sub_atoms, lemma_sub_negated, rhs_ids, take_open, take_open_atoms,
};
use crate::catalog::query::{
    aliases_at, consts_at, sub_atom_ids, sub_negated_ids, trace, trace_negated, vars_of,
};
use crate::catalog::rule::{all_in, distinct_texts, owned, strs_of, subset, unfiltered, Catalog};
use crate::lists::{
    clone_list, contains_same, empty, entries_map, extend, find, group_take, lemma_entries_add,
    lemma_entries_lookup, lemma_push_drop, push,
};
use crate::optimizing::join_tree::{common, common_texts};
use crate::parsing::arithmetic::distinct;
use crate::parsing::compare::ComparisonExprModel;
use crate::parsing::rule::FLRuleModel;
use crate::planning::collections::{
    Collection, CollectionModel, CollectionSignature, CollectionSignatureModel,
};
use crate::planning::transformations::{
    aj_step, jn_step, kv_step, Transformation, TransformationModel,
};

verus! {

/// Each step on two inputs with the steps that bring them about.
#[derive(Debug)]
pub struct TransformationTree {
    pub entries: Vec<(Transformation, (Transformation, Transformation))>,
}

impl DeepView for TransformationTree {
    type V = Map<TransformationModel, (TransformationModel, TransformationModel)>;

    open spec fn deep_view(&self) -> Map<
        TransformationModel,
        (TransformationModel, TransformationModel),
    > {
        entries_map(self.entries.deep_view())
    }
}

impl TransformationTree {
    pub fn new() -> (tree: Self)
        ensures
            tree.deep_view() == Map::<
                TransformationModel,
                (TransformationModel, TransformationModel),
            >::empty(),
    {
        TransformationTree { entries: empty() }
    }

    /// The steps that bring about the inputs of a step.
    pub fn get(&self, step: &Transformation) -> (below: Option<&(Transformation, Transformation)>)
        ensures
            below.deep_view() == if self.deep_view().contains_key(step.deep_view()) {
                Some(self.deep_view()[step.deep_view()])
            } else {
                None
            },
    {
        proof {
            lemma_entries_lookup(self.entries.deep_view(), step.deep_view());
        }
        find(&self.entries, step)
    }

    pub fn insert(&mut self, step: Transformation, below: (Transformation, Transformation))
        ensures
            final(self).deep_view() == old(self).deep_view().insert(
                step.deep_view(),
                below.deep_view(),
            ),
    {
        broadcast use lemma_push_drop;

        push(&mut self.entries, (step, below));
    }

    /// Takes over all entries of another tree.
    pub fn extend(&mut self, other: TransformationTree)
        ensures
            final(self).deep_view() == old(self).deep_view().union_prefer_right(other.deep_view()),
    {
        proof {
            lemma_entries_add(self.entries.deep_view(), other.entries.deep_view());
        }
        extend(&mut self.entries, other.entries);
    }
}

impl Clone for TransformationTree {
    fn clone(&self) -> (copy: Self)
        ensures
            copy.deep_view() == self.deep_view(),
    {
        let mut entries: Vec<(Transformation, (Transformation, Transformation))> = Vec::new();
        let mut i: usize = 0;
        while i < self.entries.len()
            invariant
                i <= self.entries.len(),
                entries.len() == i,
                forall|k: int|
                    0 <= k < i ==> (#[trigger] entries@[k]).deep_view()
                        == self.entries@[k].deep_view(),
            decreases self.entries.len() - i,
        {
            let entry = &self.entries[i];
            entries.push((entry.0.clone(), (entry.1.0.clone(), entry.1.1.clone())));
            i += 1;
        }
        assert(entries.deep_view() =~= self.entries.deep_view());
        TransformationTree { entries }
    }
}

/// A last step and the steps below it.
#[derive(Debug)]
pub struct Steps {
    pub last: Transformation,
    pub tree: TransformationTree,
}

#[verifier::ext_equal]
pub struct StepsModel {
    pub last: TransformationModel,
    pub tree: Map<TransformationModel, (TransformationModel, TransformationModel)>,
}

impl DeepView for Steps {
    type V = StepsModel;

    open spec fn deep_view(&self) -> StepsModel {
        StepsModel { last: self.last.deep_view(), tree: self.tree.deep_view() }
    }
}

/// The items of `a` that are not in `b`.
pub open spec fn without(a: Seq<Seq<char>>, b: Seq<Seq<char>>) -> Seq<Seq<char>>
    decreases a.len(),
{
    if a.len() == 0 {
        Seq::empty()
    } else {
        let front = without(a.drop_last(), b);
        if b.contains(a.last()) {
            front
        } else {
            front.push(a.last())
        }
    }
}

pub fn without_texts(a: &Vec<String>, b: &Vec<String>) -> (out: Vec<String>)
    ensures
        out.deep_view() == without(a.deep_view(), b.deep_view()),
{
    broadcast use group_take;

    let mut out: Vec<String> = empty();
    let ghost model = a.deep_view();
    let mut i: usize = 0;
    while i < a.len()
        invariant
            i <= a.len(),
            model == a.deep_view(),
            out.deep_view() == without(model.take(i as int), b.deep_view()),
        decreases a.len() - i,
    {
        assert(model.take(i + 1).drop_last() == model.take(i as int));
        assert(model[i as int] == a[i as int]@);
        if !contains_same(b, &a[i]) {
            push(&mut out, a[i].clone());
        }
        i += 1;
    }
    out
}

/// Both lists, one after the other.
pub fn together(a: &Vec<String>, b: &Vec<String>) -> (out: Vec<String>)
    ensures
        out.deep_view() == a.deep_view() + b.deep_view(),
{
    let mut out = clone_list(a);
    extend(&mut out, clone_list(b));
    out
}

/// Whether all atoms are positive.
pub open spec fn all_positive(atoms: Seq<AtomSignature>) -> bool {
    forall|i: int| 0 <= i < atoms.len() ==> (#[trigger] atoms[i]).is_positive
}

/// A comparison with its variables traced to the atoms.
pub open spec fn traced_comparison(
    rule: FLRuleModel,
    comparison: ComparisonExprModel,
    atoms: Seq<AtomSignature>,
) -> Option<PlacedComparisonModel<AtomArgumentSignature>> {
    let sides = if all_positive(atoms) {
        (trace(rule, comparison.left.vars(), atoms), trace(rule, comparison.right.vars(), atoms))
    } else {
        (
            trace_negated(rule, comparison.left.vars(), atoms),
            trace_negated(rule, comparison.right.vars(), atoms),
        )
    };
    match sides {
        (Some(left), Some(right)) => if comparison.left.vars().len() <= left.len()
            && comparison.right.vars().len() <= right.len() {
            Some(place_comparison(comparison, left, right))
        } else {
            None
        },
        _ => None,
    }
}

/// The comparisons that have no variables but the given ones, traced to the atoms.
pub open spec fn assembled(
    rule: FLRuleModel,
    ids: Seq<usize>,
    atoms: Seq<AtomSignature>,
    vars: Seq<Seq<char>>,
) -> Option<Seq<PlacedComparisonModel<AtomArgumentSignature>>>
    decreases ids.len(),
{
    if ids.len() == 0 {
        Some(Seq::empty())
    } else {
        match assembled(rule, ids.drop_last(), atoms, vars) {
            None => None,
            Some(front) => if ids.last() >= comparisons(rule.rhs).len() {
                None
            } else {
                let comparison = comparisons(rule.rhs)[ids.last() as int];
                if subset(comparison.vars(), vars) {
                    match traced_comparison(rule, comparison, atoms) {
                        Some(traced) => Some(front.push(traced)),
                        None => None,
                    }
                } else {
                    Some(front)
                }
            },
        }
    }
}

/// The relation of an atom, its columns holding the arguments of the atom.
pub open spec fn base_of(rule: FLRuleModel, atom: AtomSignature) -> CollectionModel {
    CollectionModel {
        signature: CollectionSignatureModel::Atom {
            name: atoms_of(rule, atom.is_positive)[atom.rhs_id as int].name,
        },
        keys: Seq::empty(),
        values: atom_positions(rule, atom.is_positive)[atom.rhs_id as int],
    }
}

/// The columns of an atom that stand for its variables, each once.
pub open spec fn var_columns(rule: FLRuleModel, atom: AtomSignature) -> Seq<AtomArgumentSignature> {
    unfiltered(rule, atom_positions(rule, atom.is_positive)[atom.rhs_id as int])
}

/// The variables of an atom, each once.
pub open spec fn key_vars(rule: FLRuleModel, atom: AtomSignature) -> Seq<Seq<char>> {
    strs_of(rule, var_columns(rule, atom))
}

/// The step from the relation of an atom to its variables as keys.
pub open spec fn key_step(rule: FLRuleModel, atom: AtomSignature, comps: Seq<usize>) -> Option<
    TransformationModel,
> {
    let columns = atom_positions(rule, atom.is_positive)[atom.rhs_id as int];
    match assembled(rule, comps, seq![atom], key_vars(rule, atom)) {
        Some(compares) => kv_step(
            base_of(rule, atom),
            var_columns(rule, atom),
            Seq::empty(),
            consts_at(rule, columns),
            aliases_at(rule, columns),
            compares,
        ),
        None => None,
    }
}

/// The step from the relation of an atom to the wanted keys and values; it meets
/// all the comparisons.
pub open spec fn leaf_step(
    rule: FLRuleModel,
    atom: AtomSignature,
    keys: Seq<Seq<char>>,
    values: Seq<Seq<char>>,
    comps: Seq<usize>,
) -> Option<TransformationModel> {
    let columns = atom_positions(rule, atom.is_positive)[atom.rhs_id as int];
    match (
        assembled(rule, comps, seq![atom], strs_of(rule, columns)),
        trace(rule, keys, seq![atom]),
        trace(rule, values, seq![atom]),
    ) {
        (Some(compares), Some(key_columns), Some(value_columns)) => if comps.len() == compares.len() {
            kv_step(
                base_of(rule, atom),
                key_columns,
                value_columns,
                consts_at(rule, columns),
                aliases_at(rule, columns),
                compares,
            )
        } else {
            None
        },
        _ => None,
    }
}

/// The wanted variables that are no keys of the next filter, each once.
pub open spec fn carried(
    keys: Seq<Seq<char>>,
    values: Seq<Seq<char>>,
    next_keys: Seq<Seq<char>>,
) -> Seq<Seq<char>> {
    distinct(without(keys + values, next_keys))
}

/// The steps that join what some steps put out with what a step puts out.
pub open spec fn joined(
    left: StepsModel,
    right: TransformationModel,
    key_columns: Seq<AtomArgumentSignature>,
    value_columns: Seq<AtomArgumentSignature>,
) -> Option<StepsModel> {
    match jn_step(left.last.output, right.output, key_columns, value_columns, Seq::empty()) {
        Some(last) => Some(StepsModel { last, tree: left.tree.insert(last, (left.last, right)) }),
        None => None,
    }
}

/// The steps that take what a step puts out away from what some steps put out.
pub open spec fn antijoined(
    left: StepsModel,
    right: TransformationModel,
    key_columns: Seq<AtomArgumentSignature>,
    value_columns: Seq<AtomArgumentSignature>,
) -> Option<StepsModel> {
    match aj_step(left.last.output, right.output, key_columns, value_columns) {
        Some(last) => Some(StepsModel { last, tree: left.tree.insert(last, (left.last, right)) }),
        None => None,
    }
}

/// The steps that join an atom with the atoms whose variables it has, the last of
/// them last.
pub open spec fn semijoins(
    rule: FLRuleModel,
    atom: AtomSignature,
    subs: Seq<AtomSignature>,
    keys: Seq<Seq<char>>,
    values: Seq<Seq<char>>,
    comps: Seq<usize>,
) -> Option<StepsModel>
    decreases subs.len(),
{
    if subs.len() == 0 {
        match leaf_step(rule, atom, keys, values, comps) {
            Some(last) => Some(StepsModel { last, tree: Map::empty() }),
            None => None,
        }
    } else {
        let sub_keys = key_vars(rule, subs.last());
        match (
            semijoins(
                rule,
                atom,
                subs.drop_last(),
                sub_keys,
                carried(keys, values, sub_keys),
                comps,
            ),
            key_step(rule, subs.last(), comps),
            trace(rule, keys, seq![atom]),
            trace(rule, values, seq![atom]),
        ) {
            (Some(left), Some(right), Some(key_columns), Some(value_columns)) => joined(
                left,
                right,
                key_columns,
                value_columns,
            ),
            _ => None,
        }
    }
}

/// The steps that take negated atoms away from what a step puts out, the last of
/// them last.
pub open spec fn antijoins(
    rule: FLRuleModel,
    atoms: Seq<AtomSignature>,
    first: TransformationModel,
    negated: Seq<AtomSignature>,
    keys: Seq<Seq<char>>,
    values: Seq<Seq<char>>,
    comps: Seq<usize>,
) -> Option<StepsModel>
    decreases negated.len(),
{
    if negated.len() == 0 {
        Some(StepsModel { last: first, tree: Map::empty() })
    } else {
        let negated_keys = key_vars(rule, negated.last());
        match (
            antijoins(
                rule,
                atoms,
                first,
                negated.drop_last(),
                negated_keys,
                carried(keys, values, negated_keys),
                comps,
            ),
            key_step(rule, negated.last(), comps),
            trace(rule, keys, atoms),
            trace(rule, values, atoms),
        ) {
            (Some(left), Some(right), Some(key_columns), Some(value_columns)) => antijoined(
                left,
                right,
                key_columns,
                value_columns,
            ),
            _ => None,
        }
    }
}

/// What an atom still has to be joined with: the open atoms that have no
/// variables but its own, and which atoms are open after that.
pub open spec fn filters_of(
    rule: FLRuleModel,
    atom: AtomSignature,
    open_negated: Seq<bool>,
    open_subs: Seq<bool>,
) -> ((Seq<AtomSignature>, Seq<bool>), (Seq<AtomSignature>, Seq<bool>)) {
    let vars = key_vars(rule, atom);
    (
        take_open(sub_atom_ids(rule, vars, atoms_of(rule, true).len()), open_subs),
        take_open(sub_negated_ids(rule, vars, atoms_of(rule, false).len()), open_negated),
    )
}

/// The steps for one atom and the atoms that filter it.
pub open spec fn atom_steps(
    rule: FLRuleModel,
    atom: AtomSignature,
    subs: Seq<AtomSignature>,
    negated: Seq<AtomSignature>,
    keys: Seq<Seq<char>>,
    values: Seq<Seq<char>>,
    comps: Seq<usize>,
) -> Option<StepsModel> {
    if negated.len() == 0 {
        semijoins(rule, atom, subs, keys, values, comps)
    } else {
        let first_keys = key_vars(rule, negated[0]);
        let first_values = common(
            without(key_vars(rule, atom), first_keys),
            keys + values + distinct(vars_of(rule, false, ids_of(negated))),
        );
        match semijoins(rule, atom, subs, first_keys, first_values, comps) {
            Some(bottom) => match antijoins(
                rule,
                seq![atom],
                bottom.last,
                negated,
                keys,
                values,
                comps,
            ) {
                Some(top) => Some(
                    StepsModel { last: top.last, tree: top.tree.union_prefer_right(bottom.tree) },
                ),
                None => None,
            },
            None => None,
        }
    }
}

/// Builds the comparisons that have no variables but the given ones.
pub fn assemble_comparisons(
    catalog: &Catalog,
    active_comparison_predicates: &Vec<usize>,
    atom_signatures: &Vec<AtomSignature>,
    atom_vars_set: &Vec<String>,
) -> (out: Option<Vec<PlacedComparison<AtomArgumentSignature>>>)
    requires
        catalog.wf(),
    ensures
        out.deep_view() == assembled(
            catalog.rule.deep_view(),
            active_comparison_predicates@,
            atom_signatures@,
            atom_vars_set.deep_view(),
        ),
{
    broadcast use group_take;

    let ghost rule = catalog.rule.deep_view();
    let ghost ids = active_comparison_predicates@;
    let mut positive = true;
    let mut i: usize = 0;
    while i < atom_signatures.len()
        invariant
            i <= atom_signatures.len(),
            positive == all_positive(atom_signatures@.take(i as int)),
        decreases atom_signatures.len() - i,
    {
        proof {
            let s = atom_signatures@.take(i + 1);
            assert forall|k: int| 0 <= k < i implies s[k] == atom_signatures@.take(i as int)[k] by {}
            if all_positive(s) {
                assert(s[i as int].is_positive);
                assert forall|k: int| 0 <= k < i implies (
                #[trigger] atom_signatures@.take(i as int)[k]).is_positive by {
                    assert(s[k].is_positive);
                }
            }
            if positive && atom_signatures@[i as int].is_positive {
                assert forall|k: int| 0 <= k < s.len() implies (#[trigger] s[k]).is_positive by {
                    if k < i {
                        assert(atom_signatures@.take(i as int)[k].is_positive);
                    }
                }
            }
        }
        if !atom_signatures[i].is_positive() {
            positive = false;
        }
        i += 1;
    }
    let mut out: Vec<PlacedComparison<AtomArgumentSignature>> = empty();
    let mut missing = false;
    let mut i: usize = 0;
    while i < active_comparison_predicates.len()
        invariant
            i <= active_comparison_predicates.len(),
            ids == active_comparison_predicates@,
            catalog.wf(),
            rule == catalog.rule.deep_view(),
            positive == all_positive(atom_signatures@),
            assembled(rule, ids.take(i as int), atom_signatures@, atom_vars_set.deep_view())
                == if missing {
                None
            } else {
                Some(out.deep_view())
            },
        decreases active_comparison_predicates.len() - i,
    {
        proof {
            assert(ids.take(i + 1).drop_last() == ids.take(i as int));
            catalog.lemma_parts();
        }
        let id: usize = active_comparison_predicates[i];
        if id >= catalog.comparison_predicates.len() {
            missing = true;
        } else {
            let comparison = &catalog.comparison_predicates[id];
            assert(comparison.deep_view() == comparisons(rule.rhs)[id as int]);
            let left_vars = owned(&comparison.left_vars());
            let right_vars = owned(&comparison.right_vars());
            let all_vars = together(&left_vars, &right_vars);
            if all_in(&all_vars, atom_vars_set) {
                let sides = if positive {
                    (
                        catalog.try_top_down_trace(&left_vars, atom_signatures),
                        catalog.try_top_down_trace(&right_vars, atom_signatures),
                    )
                } else {
                    (
                        catalog.try_top_down_trace_negated(&left_vars, atom_signatures),
                        catalog.try_top_down_trace_negated(&right_vars, atom_signatures),
                    )
                };
                match sides {
                    (Some(left), Some(right)) => {
                        assert(left.deep_view() =~= left@);
                        assert(right.deep_view() =~= right@);
                        assert(left_vars.len() == left_vars.deep_view().len());
                        assert(right_vars.len() == right_vars.deep_view().len());
                        if left_vars.len() <= left.len() && right_vars.len() <= right.len() {
                            push(
                                &mut out,
                                PlacedComparison::<AtomArgumentSignature>::from_comparison_expr(
                                    comparison,
                                    &left,
                                    &right,
                                ),
                            );
                        } else {
                            missing = true;
                        }
                    },
                    _ => {
                        missing = true;
                    },
                }
            }
        }
        i += 1;
    }
    if missing {
        None
    } else {
        Some(out)
    }
}

/// The columns of an atom.
fn columns_of<'a>(catalog: &'a Catalog, atom: &AtomSignature) -> (columns: &'a Vec<
    AtomArgumentSignature,
>)
    requires
        catalog.wf(),
        atom.rhs_id < atoms_of(catalog.rule.deep_view(), atom.is_positive).len(),
    ensures
        columns.deep_view() == atom_positions(
            catalog.rule.deep_view(),
            atom.is_positive,
        )[atom.rhs_id as int],
{
    proof {
        catalog.lemma_parts();
    }
    if atom.is_positive() {
        &catalog.atom_argument_signatures[atom.rhs_id()]
    } else {
        &catalog.negated_atom_argument_signatures[atom.rhs_id()]
    }
}

/// The relation of an atom.
fn base_collection(catalog: &Catalog, atom: &AtomSignature) -> (collection: Collection)
    requires
        catalog.wf(),
        atom.rhs_id < atoms_of(catalog.rule.deep_view(), atom.is_positive).len(),
    ensures
        collection.deep_view() == base_of(catalog.rule.deep_view(), *atom),
{
    proof {
        catalog.lemma_parts();
    }
    let name = if atom.is_positive() {
        &catalog.atom_names[atom.rhs_id()]
    } else {
        &catalog.negated_atom_names[atom.rhs_id()]
    };
    Collection::new(CollectionSignature::new_atom(name.as_str()), &empty(), columns_of(catalog, atom))
}

/// The variables of an atom, each once.
pub fn key_arguments(catalog: &Catalog, atom: &AtomSignature) -> (vars: Vec<String>)
    requires
        catalog.wf(),
        atom.rhs_id < atoms_of(catalog.rule.deep_view(), atom.is_positive).len(),
    ensures
        vars.deep_view() == key_vars(catalog.rule.deep_view(), *atom),
{
    catalog.signature_to_argument_strs(&catalog.var_signatures(columns_of(catalog, atom)))
}

fn make_key_step(catalog: &Catalog, atom: &AtomSignature, comps: &Vec<usize>) -> (step: Option<
    Transformation,
>)
    requires
        catalog.wf(),
        atom.rhs_id < atoms_of(catalog.rule.deep_view(), atom.is_positive).len(),
    ensures
        step.deep_view() == key_step(catalog.rule.deep_view(), *atom, comps@),
{
    let columns = columns_of(catalog, atom);
    let vars = catalog.var_signatures(columns);
    let atoms = vec![*atom];
    assert(atoms@ =~= seq![*atom]);
    match assemble_comparisons(catalog, comps, &atoms, &key_arguments(catalog, atom)) {
        Some(compares) => Transformation::try_kv_to_kv(
            base_collection(catalog, atom),
            &vars,
            &empty(),
            &catalog.const_signatures(columns),
            &catalog.var_eq_signatures(columns),
            &compares,
        ),
        None => None,
    }
}

fn make_leaf_step(
    catalog: &Catalog,
    atom: &AtomSignature,
    keys: &Vec<String>,
    values: &Vec<String>,
    comps: &Vec<usize>,
) -> (step: Option<Transformation>)
    requires
        catalog.wf(),
        atom.rhs_id < atoms_of(catalog.rule.deep_view(), atom.is_positive).len(),
    ensures
        step.deep_view() == leaf_step(
            catalog.rule.deep_view(),
            *atom,
            keys.deep_view(),
            values.deep_view(),
            comps@,
        ),
{
    let columns = columns_of(catalog, atom);
    let atoms = vec![*atom];
    assert(atoms@ =~= seq![*atom]);
    match (
        assemble_comparisons(
            catalog,
            comps,
            &atoms,
            &catalog.signature_to_argument_strs(columns),
        ),
        catalog.try_top_down_trace(keys, &atoms),
        catalog.try_top_down_trace(values, &atoms),
    ) {
        (Some(compares), Some(key_columns), Some(value_columns)) => {
            assert(compares.len() == compares.deep_view().len());
            if comps.len() == compares.len() {
                Transformation::try_kv_to_kv(
                    base_collection(catalog, atom),
                    &key_columns,
                    &value_columns,
                    &catalog.const_signatures(columns),
                    &catalog.var_eq_signatures(columns),
                    &compares,
                )
            } else {
                None
            }
        },
        _ => None,
    }
}

fn carry(keys: &Vec<String>, values: &Vec<String>, next_keys: &Vec<String>) -> (out: Vec<String>)
    ensures
        out.deep_view() == carried(keys.deep_view(), values.deep_view(), next_keys.deep_view()),
{
    distinct_texts(&without_texts(&together(keys, values), next_keys))
}

fn join_steps(
    left: Steps,
    right: Transformation,
    key_columns: &Vec<AtomArgumentSignature>,
    value_columns: &Vec<AtomArgumentSignature>,
) -> (steps: Option<Steps>)
    ensures
        steps.deep_view() == joined(
            left.deep_view(),
            right.deep_view(),
            key_columns.deep_view(),
            value_columns.deep_view(),
        ),
{
    match Transformation::try_join(
        (left.last.output().clone(), right.output().clone()),
        key_columns,
        value_columns,
        &empty(),
    ) {
        Some(last) => {
            let mut tree = left.tree;
            tree.insert(last.clone(), (left.last, right));
            Some(Steps { last, tree })
        },
        None => None,
    }
}

fn antijoin_steps(
    left: Steps,
    right: Transformation,
    key_columns: &Vec<AtomArgumentSignature>,
    value_columns: &Vec<AtomArgumentSignature>,
) -> (steps: Option<Steps>)
    ensures
        steps.deep_view() == antijoined(
            left.deep_view(),
            right.deep_view(),
            key_columns.deep_view(),
            value_columns.deep_view(),
        ),
{
    match Transformation::try_antijoin(
        (left.last.output().clone(), right.output().clone()),
        key_columns,
        value_columns,
    ) {
        Some(last) => {
            let mut tree = left.tree;
            tree.insert(last.clone(), (left.last, right));
            Some(Steps { last, tree })
        },
        None => None,
    }
}

/// Joins an atom with the first `count` of the atoms whose variables it has.
pub fn recursive_semijoins(
    catalog: &Catalog,
    planning_atom_signature: &AtomSignature,
    subatom_signatures: &Vec<AtomSignature>,
    count: usize,
    head_key_arguments: &Vec<String>,
    head_value_arguments: &Vec<String>,
    active_comparison_predicates: &Vec<usize>,
) -> (steps: Option<Steps>)
    requires
        catalog.wf(),
        planning_atom_signature.rhs_id < atoms_of(
            catalog.rule.deep_view(),
            planning_atom_signature.is_positive,
        ).len(),
        are_atoms(catalog.rule.deep_view(), subatom_signatures@, true),
        count <= subatom_signatures@.len(),
    ensures
        steps.deep_view() == semijoins(
            catalog.rule.deep_view(),
            *planning_atom_signature,
            subatom_signatures@.take(count as int),
            head_key_arguments.deep_view(),
            head_value_arguments.deep_view(),
            active_comparison_predicates@,
        ),
    decreases count,
{
    broadcast use group_take;

    if count == 0 {
        return match make_leaf_step(
            catalog,
            planning_atom_signature,
            head_key_arguments,
            head_value_arguments,
            active_comparison_predicates,
        ) {
            Some(last) => Some(Steps { last, tree: TransformationTree::new() }),
            None => None,
        };
    }
    let sub = &subatom_signatures[count - 1];
    assert(subatom_signatures@.take(count as int).drop_last() =~= subatom_signatures@.take(
        count - 1,
    ));
    assert(subatom_signatures@[count - 1].is_positive);
    let sub_keys = key_arguments(catalog, sub);
    let sub_values = carry(head_key_arguments, head_value_arguments, &sub_keys);
    let atoms = vec![*planning_atom_signature];
    assert(atoms@ =~= seq![*planning_atom_signature]);
    match (
        recursive_semijoins(
            catalog,
            planning_atom_signature,
            subatom_signatures,
            count - 1,
            &sub_keys,
            &sub_values,
            active_comparison_predicates,
        ),
        make_key_step(catalog, sub, active_comparison_predicates),
        catalog.try_top_down_trace(head_key_arguments, &atoms),
        catalog.try_top_down_trace(head_value_arguments, &atoms),
    ) {
        (Some(left), Some(right), Some(key_columns), Some(value_columns)) => join_steps(
            left,
            right,
            &key_columns,
            &value_columns,
        ),
        _ => None,
    }
}

/// Takes the first `count` of the negated atoms away from what a step puts out.
pub fn recursive_antijoins(
    catalog: &Catalog,
    planning_atom_signatures: &Vec<AtomSignature>,
    last_transformation: Transformation,
    negated_atom_signatures: &Vec<AtomSignature>,
    count: usize,
    head_key_arguments: &Vec<String>,
    head_value_arguments: &Vec<String>,
    active_comparison_predicates: &Vec<usize>,
) -> (steps: Option<Steps>)
    requires
        catalog.wf(),
        are_atoms(catalog.rule.deep_view(), negated_atom_signatures@, false),
        count <= negated_atom_signatures@.len(),
    ensures
        steps.deep_view() == antijoins(
            catalog.rule.deep_view(),
            planning_atom_signatures@,
            last_transformation.deep_view(),
            negated_atom_signatures@.take(count as int),
            head_key_arguments.deep_view(),
            head_value_arguments.deep_view(),
            active_comparison_predicates@,
        ),
    decreases count,
{
    broadcast use group_take;

    if count == 0 {
        return Some(Steps { last: last_transformation, tree: TransformationTree::new() });
    }
    let negated = &negated_atom_signatures[count - 1];
    assert(negated_atom_signatures@.take(count as int).drop_last()
        =~= negated_atom_signatures@.take(count - 1));
    assert(!negated_atom_signatures@[count - 1].is_positive);
    let negated_keys = key_arguments(catalog, negated);
    let negated_values = carry(head_key_arguments, head_value_arguments, &negated_keys);
    match (
        recursive_antijoins(
            catalog,
            planning_atom_signatures,
            last_transformation,
            negated_atom_signatures,
            count - 1,
            &negated_keys,
            &negated_values,
            active_comparison_predicates,
        ),
        make_key_step(catalog, negated, active_comparison_predicates),
        catalog.try_top_down_trace(head_key_arguments, planning_atom_signatures),
        catalog.try_top_down_trace(head_value_arguments, planning_atom_signatures),
    ) {
        (Some(left), Some(right), Some(key_columns), Some(value_columns)) => antijoin_steps(
            left,
            right,
            &key_columns,
            &value_columns,
        ),
        _ => None,
    }
}

/// The steps for one atom: what still filters it is joined with it, and no longer
/// open after that.
pub fn per_atom_recursive_semijoins_and_antijoins(
    catalog: &Catalog,
    planning_atom_signature: &AtomSignature,
    head_key_arguments: &Vec<String>,
    head_value_arguments: &Vec<String>,
    is_active_negation_bitmap: &mut Vec<bool>,
    is_active_non_core_atom_bitmap: &mut Vec<bool>,
    active_comparison_predicates: &Vec<usize>,
) -> (steps: Option<Steps>)
    requires
        catalog.wf(),
        planning_atom_signature.is_positive,
        planning_atom_signature.rhs_id < atoms_of(catalog.rule.deep_view(), true).len(),
        old(is_active_negation_bitmap)@.len() == atoms_of(catalog.rule.deep_view(), false).len(),
        old(is_active_non_core_atom_bitmap)@.len() == atoms_of(catalog.rule.deep_view(), true).len(),
    ensures
        final(is_active_negation_bitmap)@.len() == old(is_active_negation_bitmap)@.len(),
        final(is_active_non_core_atom_bitmap)@.len() == old(is_active_non_core_atom_bitmap)@.len(),
        ({
            let filters = filters_of(
                catalog.rule.deep_view(),
                *planning_atom_signature,
                old(is_active_negation_bitmap)@,
                old(is_active_non_core_atom_bitmap)@,
            );
            &&& final(is_active_non_core_atom_bitmap)@ == filters.0.1
            &&& final(is_active_negation_bitmap)@ == filters.1.1
            &&& steps.deep_view() == atom_steps(
                catalog.rule.deep_view(),
                *planning_atom_signature,
                filters.0.0,
                filters.1.0,
                head_key_arguments.deep_view(),
                head_value_arguments.deep_view(),
                active_comparison_predicates@,
            )
        }),
{
    broadcast use group_take;

    let ghost rule = catalog.rule.deep_view();
    let columns = columns_of(catalog, planning_atom_signature);
    let vars = catalog.var_signatures(columns);
    let sub_atoms = catalog.sub_atoms(&vars);
    let sub_negated = catalog.sub_negated_atoms(&vars);
    let ghost strs = key_vars(rule, *planning_atom_signature);
    proof {
        catalog.lemma_parts();
        assert(catalog.atom_names.len() == catalog.atom_names@.len());
        assert(catalog.negated_atom_names.len() == catalog.negated_atom_names@.len());
        assert(sub_atoms.deep_view() =~= sub_atoms@);
        assert(sub_negated.deep_view() =~= sub_negated@);
        lemma_sub_atoms(rule, strs, atoms_of(rule, true).len());
        lemma_sub_negated(rule, strs, atoms_of(rule, false).len());
    }
    let subs = take_open_atoms(&sub_atoms, is_active_non_core_atom_bitmap);
    let negated = take_open_atoms(&sub_negated, is_active_negation_bitmap);
    proof {
        assert forall|i: int| 0 <= i < subs@.len() implies (#[trigger] subs@[i]).is_positive
            && subs@[i].rhs_id < atoms_of(rule, true).len() by {
            let k = choose|k: int| 0 <= k < sub_atoms@.len() && sub_atoms@[k] == subs@[i];
            assert(sub_atoms@.contains(subs@[i]));
        }
        assert forall|i: int| 0 <= i < negated@.len() implies !(#[trigger] negated@[i]).is_positive
            && negated@[i].rhs_id < atoms_of(rule, false).len() by {
            let k = choose|k: int| 0 <= k < sub_negated@.len() && sub_negated@[k] == negated@[i];
            assert(sub_negated@.contains(negated@[i]));
        }
    }
    if negated.len() == 0 {
        return recursive_semijoins(
            catalog,
            planning_atom_signature,
            &subs,
            subs.len(),
            head_key_arguments,
            head_value_arguments,
            active_comparison_predicates,
        );
    }
    assert(!negated@[0].is_positive);
    let ids = rhs_ids(&negated);
    let first_keys = key_arguments(catalog, &negated[0]);
    let mut wanted = together(head_key_arguments, head_value_arguments);
    extend(&mut wanted, catalog.negated_vars_set(&ids));
    let first_values = common_texts(
        &without_texts(&key_arguments(catalog, planning_atom_signature), &first_keys),
        &wanted,
    );
    let atoms = vec![*planning_atom_signature];
    assert(atoms@ =~= seq![*planning_atom_signature]);
    match recursive_semijoins(
        catalog,
        planning_atom_signature,
        &subs,
        subs.len(),
        &first_keys,
        &first_values,
        active_comparison_predicates,
    ) {
        Some(bottom) => match recursive_antijoins(
            catalog,
            &atoms,
            bottom.last,
            &negated,
            negated.len(),
            head_key_arguments,
            head_value_arguments,
            active_comparison_predicates,
        ) {
            Some(top) => {
                let mut tree = top.tree;
                tree.extend(bottom.tree);
                Some(Steps { last: top.last, tree })
            },
            None => None,
        },
        None => None,
    }
}

} // verus!
