//! The stages of a dataflow, one for each group of a plan.
use vstd::prelude::*;
use vstd::string::*;
use crate::catalog::head::{HeadIDB, HeadIDBModel};
use crate::executing::dataflow::{
    is_sideways, is_sideways_name, make_step_actions, no_tables, part_heads, plain_heads,
    step_actions, Action, ActionModel, Scope, ScopeModel, Table, Tables, TablesModel,
};
use crate::executing::order::{by_title, sort_by_title};
use crate::lists::{
    clone_list, contains_same, empty, entries_map, find, group_take, lemma_entries_lookup, lookup,
    push,
};
use crate::parsing::aggregation::AggregationOperator;
use crate::parsing::decl::{RelDecl, RelDeclModel};
use crate::parsing::head::{Head, HeadModel};
use crate::parsing::rule::{FLRule, FLRuleModel};
use crate::planning::collections::{CollectionSignature, CollectionSignatureModel};
use crate::planning::program::ProgramQueryPlan;
use crate::planning::sharing::{are_runnable, enter, enter_all, set_of};
use crate::planning::strata::{flat, head_arities, GroupStrataQueryPlan};
use crate::planning::transformations::TransformationModel;
use crate::text::same_text;

verus! {

/// What is done with the rows of a relation once they are put together.
#[derive(Debug, Clone, Copy, PartialEq, Eq, Structural)]
pub enum Gather {
    /// nothing
    Plain,
    /// the least value is kept as the rows come in
    Least { is_group_by: bool },
    /// the values of each group are aggregated
    Reduce { operator: AggregationOperator, is_group_by: bool },
}

/// Putting together what the rules for a relation put out.
#[derive(Debug)]
pub struct Collect {
    pub head: CollectionSignature,
    pub parts: Vec<CollectionSignature>,
    /// what the heads of the rules make of the values in the parts, one for each part
    pub heads: Vec<Head>,
    /// the relation has rows from before
    pub with_head: bool,
    pub gather: Gather,
}

#[verifier::ext_equal]
pub struct CollectModel {
    pub head: CollectionSignatureModel,
    pub parts: Seq<CollectionSignatureModel>,
    pub heads: Seq<HeadModel>,
    pub with_head: bool,
    pub gather: Gather,
}

impl DeepView for Collect {
    type V = CollectModel;

    open spec fn deep_view(&self) -> CollectModel {
        CollectModel {
            head: self.head.deep_view(),
            parts: self.parts.deep_view(),
            heads: self.heads.deep_view(),
            with_head: self.with_head,
            gather: self.gather,
        }
    }
}

/// What becomes of a collection that is brought into a recursive group.
#[derive(Debug, Clone, Copy, PartialEq, Eq, Structural)]
pub enum EnterAs {
    /// rows that a relation of the group starts with
    Start,
    /// a collection, kept as outside
    Kept(Table),
}

/// A collection that is brought into a recursive group.
#[derive(Debug)]
pub struct Enter {
    pub signature: CollectionSignature,
    pub enter_as: EnterAs,
}

#[verifier::ext_equal]
pub struct EnterModel {
    pub signature: CollectionSignatureModel,
    pub enter_as: EnterAs,
}

impl DeepView for Enter {
    type V = EnterModel;

    open spec fn deep_view(&self) -> EnterModel {
        EnterModel { signature: self.signature.deep_view(), enter_as: self.enter_as }
    }
}

/// What a group of a plan comes to.
#[derive(Debug)]
pub enum Stage {
    Flat { actions: Vec<Action>, collects: Vec<Collect> },
    Loop {
        /// the relations that grow in the loop, with their arities
        variables: Vec<(CollectionSignature, usize)>,
        enters: Vec<Enter>,
        actions: Vec<Action>,
        collects: Vec<Collect>,
    },
}

#[verifier::ext_equal]
pub enum StageModel {
    Flat { actions: Seq<ActionModel>, collects: Seq<CollectModel> },
    Loop {
        variables: Seq<(CollectionSignatureModel, usize)>,
        enters: Seq<EnterModel>,
        actions: Seq<ActionModel>,
        collects: Seq<CollectModel>,
    },
}

impl DeepView for Stage {
    type V = StageModel;

    open spec fn deep_view(&self) -> StageModel {
        match self {
            Stage::Flat { actions, collects } => StageModel::Flat {
                actions: actions.deep_view(),
                collects: collects.deep_view(),
            },
            Stage::Loop { variables, enters, actions, collects } => StageModel::Loop {
                variables: variables.deep_view(),
                enters: enters.deep_view(),
                actions: actions.deep_view(),
                collects: collects.deep_view(),
            },
        }
    }
}

/// What is done with the rows of a relation, by what the rules say of it.
pub open spec fn gather_for(
    idbs: Seq<(Seq<char>, HeadIDBModel)>,
    head: CollectionSignatureModel,
) -> Gather {
    match lookup(idbs, head.name()) {
        Some(idb) => match idb.aggregation_argument {
            Some(aggregation) => if aggregation.operator is Min {
                Gather::Least { is_group_by: idb.is_group_by }
            } else {
                Gather::Reduce { operator: aggregation.operator, is_group_by: idb.is_group_by }
            },
            None => Gather::Plain,
        },
        None => Gather::Plain,
    }
}

/// The heads of the rules for a relation, in order.
pub open spec fn heads_for(rules: Seq<FLRuleModel>, name: Seq<char>) -> Seq<HeadModel>
    decreases rules.len(),
{
    if rules.len() == 0 {
        Seq::empty()
    } else {
        let front = heads_for(rules.drop_last(), name);
        if rules.last().head.name == name {
            front.push(rules.last().head)
        } else {
            front
        }
    }
}

/// The first of some collections that is not known.
pub open spec fn first_absent(
    parts: Seq<CollectionSignatureModel>,
    known: Set<CollectionSignatureModel>,
) -> Option<CollectionSignatureModel>
    decreases parts.len(),
{
    if parts.len() == 0 {
        None
    } else {
        match first_absent(parts.drop_last(), known) {
            Some(absent) => Some(absent),
            None => if known.contains(parts.last()) {
                None
            } else {
                Some(parts.last())
            },
        }
    }
}

/// Putting together the relations of a group, one after the other. Outside of
/// recursion (`start` is none) what is put together joins the known rows; inside,
/// it joins the relations that have rows to start with, and relations made by
/// rewriting are left out.
pub open spec fn collects_of(
    rows: Set<CollectionSignatureModel>,
    start: Option<Set<CollectionSignatureModel>>,
    rules: Seq<FLRuleModel>,
    idbs: Seq<(Seq<char>, HeadIDBModel)>,
    entries: Seq<(CollectionSignatureModel, Seq<CollectionSignatureModel>)>,
) -> Result<(Seq<CollectModel>, Set<CollectionSignatureModel>), CollectionSignatureModel>
    decreases entries.len(),
{
    if entries.len() == 0 {
        Ok(
            (
                Seq::empty(),
                match start {
                    Some(start) => start,
                    None => rows,
                },
            ),
        )
    } else {
        match collects_of(rows, start, rules, idbs, entries.drop_last()) {
            Err(absent) => Err(absent),
            Ok((front, known)) => {
                let (head, parts) = entries.last();
                let parts_in = if start is Some {
                    rows
                } else {
                    known
                };
                if start is Some && is_sideways(head.name()) {
                    Ok((front, known))
                } else {
                    match first_absent(parts, parts_in) {
                        Some(absent) => Err(absent),
                        None => Ok(
                            (
                                front.push(
                                    CollectModel {
                                        head,
                                        parts,
                                        heads: heads_for(rules, head.name()),
                                        with_head: known.contains(head),
                                        gather: gather_for(idbs, head),
                                    },
                                ),
                                known.insert(head),
                            ),
                        ),
                    }
                }
            },
        }
    }
}

/// Bringing collections into a recursive group, one after the other: what is
/// brought in, what is known inside after that, and which relations have rows to
/// start with; or a collection that is neither known nor a variable of the group.
pub open spec fn enters_of(
    outside: TablesModel,
    heads: Set<CollectionSignatureModel>,
    variables: Set<CollectionSignatureModel>,
    scope: Seq<CollectionSignatureModel>,
) -> Result<
    (Seq<EnterModel>, TablesModel, Set<CollectionSignatureModel>),
    CollectionSignatureModel,
>
    decreases scope.len(),
{
    if scope.len() == 0 {
        Ok((Seq::empty(), no_tables(), Set::empty()))
    } else {
        match enters_of(outside, heads, variables, scope.drop_last()) {
            Err(absent) => Err(absent),
            Ok((front, inside, start)) => {
                let signature = scope.last();
                if is_sideways(signature.name()) {
                    Ok((front, inside, start))
                } else if outside.rows.contains(signature) {
                    if heads.contains(signature) {
                        Ok(
                            (
                                front.push(EnterModel { signature, enter_as: EnterAs::Start }),
                                inside,
                                start.insert(signature),
                            ),
                        )
                    } else {
                        Ok(
                            (
                                front.push(
                                    EnterModel { signature, enter_as: EnterAs::Kept(Table::Row) },
                                ),
                                inside.with(Table::Row, signature),
                                start,
                            ),
                        )
                    }
                } else if outside.key_values.contains(signature) {
                    Ok(
                        (
                            front.push(
                                EnterModel { signature, enter_as: EnterAs::Kept(Table::KeyValue) },
                            ),
                            inside.with(Table::KeyValue, signature),
                            start,
                        ),
                    )
                } else if outside.keys.contains(signature) {
                    Ok(
                        (
                            front.push(
                                EnterModel { signature, enter_as: EnterAs::Kept(Table::Key) },
                            ),
                            inside.with(Table::Key, signature),
                            start,
                        ),
                    )
                } else if variables.contains(signature) {
                    Ok((front, inside, start))
                } else {
                    Err(signature)
                }
            },
        }
    }
}

/// The heads of some entries.
pub open spec fn entry_heads(
    entries: Seq<(CollectionSignatureModel, Seq<CollectionSignatureModel>)>,
) -> Seq<CollectionSignatureModel> {
    Seq::new(entries.len(), |i: int| entries[i].0)
}

/// Relations with their arities.
pub open spec fn with_arities(
    heads: Seq<CollectionSignatureModel>,
    rules: Seq<FLRuleModel>,
) -> Seq<(CollectionSignatureModel, usize)> {
    Seq::new(
        heads.len(),
        |i: int|
            (
                heads[i],
                if head_arities(rules).contains_key(heads[i].name()) {
                    head_arities(rules)[heads[i].name()]
                } else {
                    0
                },
            ),
    )
}

/// A group as lists, in the order in which it holds things.
#[verifier::ext_equal]
pub struct GroupListing {
    pub is_recursive: bool,
    pub rules: Seq<FLRuleModel>,
    pub steps: Seq<TransformationModel>,
    pub scope: Seq<CollectionSignatureModel>,
    pub last_signatures: Seq<(CollectionSignatureModel, Seq<CollectionSignatureModel>)>,
}

pub open spec fn listing(group: GroupStrataQueryPlan) -> GroupListing {
    GroupListing {
        is_recursive: group.is_recursive,
        rules: group.rules.deep_view(),
        steps: flat(group.strata_plan.deep_view()),
        scope: group.enter_scope.deep_view(),
        last_signatures: group.last_signatures_map.deep_view(),
    }
}

/// The relations of a group that grow in its loop, in the order of their names.
pub open spec fn loop_heads(group: GroupListing) -> Seq<CollectionSignatureModel> {
    plain_heads(entry_heads(by_title(group.last_signatures)))
}

/// The stage of a group without recursion, and what is known after it.
pub open spec fn flat_stage(
    tables: TablesModel,
    idbs: Seq<(Seq<char>, HeadIDBModel)>,
    group: GroupListing,
) -> Result<(StageModel, TablesModel), CollectionSignatureModel> {
    let scope = ScopeModel {
        is_recursive: false,
        variables: Set::empty(),
        last_signatures: group.last_signatures,
    };
    match step_actions(tables, scope, group.steps) {
        Err(absent) => Err(absent),
        Ok((actions, known)) => match collects_of(
            known.rows,
            None,
            group.rules,
            idbs,
            by_title(group.last_signatures),
        ) {
            Err(absent) => Err(absent),
            Ok((collects, rows)) => Ok(
                (StageModel::Flat { actions, collects }, TablesModel { rows, ..known }),
            ),
        },
    }
}

/// The stage of a recursive group, and what is known after it. What was computed
/// inside is not known outside, but for the relations of the group.
pub open spec fn loop_stage(
    tables: TablesModel,
    idbs: Seq<(Seq<char>, HeadIDBModel)>,
    group: GroupListing,
) -> Result<(StageModel, TablesModel), CollectionSignatureModel> {
    let heads = loop_heads(group);
    let variables = heads.to_set();
    let scope = ScopeModel {
        is_recursive: true,
        variables,
        last_signatures: group.last_signatures,
    };
    match enters_of(
        tables,
        entry_heads(group.last_signatures).to_set(),
        variables,
        by_title(group.scope),
    ) {
        Err(absent) => Err(absent),
        Ok((enters, inside, start)) => match step_actions(inside, scope, group.steps) {
            Err(absent) => Err(absent),
            Ok((actions, known)) => match collects_of(
                known.rows,
                Some(start),
                group.rules,
                idbs,
                by_title(group.last_signatures),
            ) {
                Err(absent) => Err(absent),
                Ok((collects, _)) => Ok(
                    (
                        StageModel::Loop {
                            variables: with_arities(heads, group.rules),
                            enters,
                            actions,
                            collects,
                        },
                        TablesModel { rows: tables.rows.union(variables), ..tables },
                    ),
                ),
            },
        },
    }
}

/// The stages of groups, one after the other, and what is known after them; or a
/// collection that is not there where it is needed.
pub open spec fn stages_of(
    tables: TablesModel,
    idbs: Seq<(Seq<char>, HeadIDBModel)>,
    groups: Seq<GroupListing>,
) -> Result<(Seq<StageModel>, TablesModel), CollectionSignatureModel>
    decreases groups.len(),
{
    if groups.len() == 0 {
        Ok((Seq::empty(), tables))
    } else {
        match stages_of(tables, idbs, groups.drop_last()) {
            Err(absent) => Err(absent),
            Ok((front, known)) => {
                let group = groups.last();
                let stage = if group.is_recursive {
                    loop_stage(known, idbs, group)
                } else {
                    flat_stage(known, idbs, group)
                };
                match stage {
                    Err(absent) => Err(absent),
                    Ok((stage, after)) => Ok((front.push(stage), after)),
                }
            },
        }
    }
}

pub open spec fn listings(groups: Seq<GroupStrataQueryPlan>) -> Seq<GroupListing> {
    Seq::new(groups.len(), |i: int| listing(groups[i]))
}

/// The relations that are declared as input.
pub open spec fn input_tables(edbs: Seq<RelDeclModel>) -> TablesModel {
    TablesModel {
        rows: Seq::new(
            edbs.len(),
            |i: int| CollectionSignatureModel::Atom { name: edbs[i].name },
        ).to_set(),
        keys: Set::empty(),
        key_values: Set::empty(),
    }
}

fn make_gather(idbs: &Vec<(String, HeadIDB)>, head: &CollectionSignature) -> (gather: Gather)
    ensures
        gather == gather_for(idbs.deep_view(), head.deep_view()),
{
    match find(idbs, &head.name().to_owned()) {
        Some(idb) => match &idb.aggregation_argument {
            Some(aggregation) => {
                let operator = *aggregation.operator();
                if operator == AggregationOperator::Min {
                    Gather::Least { is_group_by: idb.is_group_by }
                } else {
                    Gather::Reduce { operator, is_group_by: idb.is_group_by }
                }
            },
            None => Gather::Plain,
        },
        None => Gather::Plain,
    }
}

fn find_absent(parts: &Vec<CollectionSignature>, known: &Vec<CollectionSignature>) -> (absent: Option<
    CollectionSignature,
>)
    ensures
        absent.deep_view() == first_absent(parts.deep_view(), set_of(*known)),
{
    broadcast use group_take;

    let ghost model = parts.deep_view();
    let mut absent: Option<CollectionSignature> = None;
    let mut i: usize = 0;
    while i < parts.len()
        invariant
            i <= parts.len(),
            model == parts.deep_view(),
            absent.deep_view() == first_absent(model.take(i as int), set_of(*known)),
        decreases parts.len() - i,
    {
        assert(model.take(i + 1).drop_last() == model.take(i as int));
        assert(model[i as int] == parts@[i as int].deep_view());
        if absent.is_none() && !contains_same(known, &parts[i]) {
            absent = Some(parts[i].clone());
        }
        i += 1;
    }
    absent
}

fn find_heads(rules: &Vec<FLRule>, name: &str) -> (heads: Vec<Head>)
    ensures
        heads.deep_view() == heads_for(rules.deep_view(), name@),
{
    broadcast use group_take;

    let ghost model = rules.deep_view();
    let mut heads: Vec<Head> = empty();
    let mut i: usize = 0;
    while i < rules.len()
        invariant
            i <= rules.len(),
            model == rules.deep_view(),
            heads.deep_view() == heads_for(model.take(i as int), name@),
        decreases rules.len() - i,
    {
        assert(model.take(i + 1).drop_last() == model.take(i as int));
        assert(model[i as int] == rules@[i as int].deep_view());
        let head = &rules[i].head;
        if same_text(head.name.as_str(), name) {
            push(&mut heads, head.clone());
        }
        i += 1;
    }
    heads
}

fn copy_entries(entries: &Vec<(CollectionSignature, Vec<CollectionSignature>)>) -> (copy: Vec<
    (CollectionSignature, Vec<CollectionSignature>),
>)
    ensures
        copy.deep_view() == entries.deep_view(),
{
    let mut copy: Vec<(CollectionSignature, Vec<CollectionSignature>)> = Vec::new();
    let mut i: usize = 0;
    while i < entries.len()
        invariant
            i <= entries.len(),
            copy.len() == i,
            forall|k: int|
                0 <= k < i ==> (#[trigger] copy@[k]).deep_view() == entries@[k].deep_view(),
        decreases entries.len() - i,
    {
        copy.push((entries[i].0.clone(), clone_list(&entries[i].1)));
        i += 1;
    }
    assert(copy.deep_view() =~= entries.deep_view());
    copy
}

proof fn lemma_collects_stay_absent(
    rows: Set<CollectionSignatureModel>,
    start: Option<Set<CollectionSignatureModel>>,
    rules: Seq<FLRuleModel>,
    idbs: Seq<(Seq<char>, HeadIDBModel)>,
    entries: Seq<(CollectionSignatureModel, Seq<CollectionSignatureModel>)>,
    n: int,
)
    requires
        0 <= n <= entries.len(),
        collects_of(rows, start, rules, idbs, entries.take(n)) is Err,
    ensures
        collects_of(rows, start, rules, idbs, entries) == collects_of(
            rows,
            start,
            rules,
            idbs,
            entries.take(n),
        ),
    decreases entries.len() - n,
{
    broadcast use group_take;

    if n < entries.len() {
        assert(entries.take(n + 1).drop_last() == entries.take(n));
        lemma_collects_stay_absent(rows, start, rules, idbs, entries, n + 1);
    }
}

/// Puts together the relations of a group. `known` holds the rows outside of
/// recursion, or the relations with rows to start with inside of it.
fn make_collects(
    inside: Option<&Vec<CollectionSignature>>,
    known: &mut Vec<CollectionSignature>,
    rules: &Vec<FLRule>,
    idbs: &Vec<(String, HeadIDB)>,
    entries: &Vec<(CollectionSignature, Vec<CollectionSignature>)>,
) -> (out: Result<Vec<Collect>, CollectionSignature>)
    ensures
        ({
            let wanted = match inside {
                Some(rows) => collects_of(
                    set_of(*rows),
                    Some(set_of(*old(known))),
                    rules.deep_view(),
                    idbs.deep_view(),
                    entries.deep_view(),
                ),
                None => collects_of(
                    set_of(*old(known)),
                    None,
                    rules.deep_view(),
                    idbs.deep_view(),
                    entries.deep_view(),
                ),
            };
            match out {
                Ok(collects) => wanted == Ok::<
                    (Seq<CollectModel>, Set<CollectionSignatureModel>),
                    CollectionSignatureModel,
                >((collects.deep_view(), set_of(*final(known)))),
                Err(absent) => wanted == Err::<
                    (Seq<CollectModel>, Set<CollectionSignatureModel>),
                    CollectionSignatureModel,
                >(absent.deep_view()),
            }
        }),
{
    broadcast use group_take;

    let ghost model = entries.deep_view();
    let ghost before = set_of(*known);
    let ghost rows = match inside {
        Some(rows) => set_of(*rows),
        None => before,
    };
    let ghost start = match inside {
        Some(rows) => Some(before),
        None => None,
    };
    let mut collects: Vec<Collect> = empty();
    let mut i: usize = 0;
    while i < entries.len()
        invariant
            i <= entries.len(),
            model == entries.deep_view(),
            before == set_of(*old(known)),
            rows == (match inside {
                Some(rows) => set_of(*rows),
                None => before,
            }),
            start == (match inside {
                Some(rows) => Some(before),
                None => None,
            }),
            collects_of(rows, start, rules.deep_view(), idbs.deep_view(), model.take(i as int)) == Ok::<
                (Seq<CollectModel>, Set<CollectionSignatureModel>),
                CollectionSignatureModel,
            >((collects.deep_view(), set_of(*known))),
        decreases entries.len() - i,
    {
        proof {
            assert(model.take(i + 1).drop_last() == model.take(i as int));
            assert(model[i as int] == entries@[i as int].deep_view());
        }
        let head = &entries[i].0;
        let parts = &entries[i].1;
        if !(inside.is_some() && is_sideways_name(head.name())) {
            let absent = match inside {
                Some(rows) => find_absent(parts, rows),
                None => find_absent(parts, known),
            };
            if let Some(absent) = absent {
                proof {
                    lemma_collects_stay_absent(
                        rows,
                        start,
                        rules.deep_view(),
                        idbs.deep_view(),
                        model,
                        i + 1,
                    );
                }
                return Err(absent);
            }
            let with_head = contains_same(known, head);
            assert(with_head == set_of(*known).contains(head.deep_view()));
            push(
                &mut collects,
                Collect {
                    head: head.clone(),
                    parts: clone_list(parts),
                    heads: find_heads(rules, head.name()),
                    with_head,
                    gather: make_gather(idbs, head),
                },
            );
            enter(known, head.clone());
        }
        i += 1;
    }
    Ok(collects)
}

proof fn lemma_enters_stay_absent(
    outside: TablesModel,
    heads: Set<CollectionSignatureModel>,
    variables: Set<CollectionSignatureModel>,
    scope: Seq<CollectionSignatureModel>,
    n: int,
)
    requires
        0 <= n <= scope.len(),
        enters_of(outside, heads, variables, scope.take(n)) is Err,
    ensures
        enters_of(outside, heads, variables, scope) == enters_of(
            outside,
            heads,
            variables,
            scope.take(n),
        ),
    decreases scope.len() - n,
{
    broadcast use group_take;

    if n < scope.len() {
        assert(scope.take(n + 1).drop_last() == scope.take(n));
        lemma_enters_stay_absent(outside, heads, variables, scope, n + 1);
    }
}

/// Brings collections into a recursive group.
fn make_enters(
    outside: &Tables,
    heads: &Vec<CollectionSignature>,
    variables: &Vec<CollectionSignature>,
    scope: &Vec<CollectionSignature>,
) -> (out: Result<(Vec<Enter>, Tables, Vec<CollectionSignature>), CollectionSignature>)
    ensures
        match out {
            Ok((enters, inside, start)) => enters_of(
                outside.deep_view(),
                set_of(*heads),
                set_of(*variables),
                scope.deep_view(),
            ) == Ok::<
                (Seq<EnterModel>, TablesModel, Set<CollectionSignatureModel>),
                CollectionSignatureModel,
            >((enters.deep_view(), inside.deep_view(), set_of(start))),
            Err(absent) => enters_of(
                outside.deep_view(),
                set_of(*heads),
                set_of(*variables),
                scope.deep_view(),
            ) == Err::<
                (Seq<EnterModel>, TablesModel, Set<CollectionSignatureModel>),
                CollectionSignatureModel,
            >(absent.deep_view()),
        },
{
    broadcast use group_take;

    let ghost model = scope.deep_view();
    let ghost hs = set_of(*heads);
    let ghost vs = set_of(*variables);
    let mut enters: Vec<Enter> = empty();
    let mut inside = Tables::new();
    let mut start: Vec<CollectionSignature> = empty();
    assert(set_of(start) =~= Set::empty());
    let mut i: usize = 0;
    while i < scope.len()
        invariant
            i <= scope.len(),
            model == scope.deep_view(),
            hs == set_of(*heads),
            vs == set_of(*variables),
            enters_of(outside.deep_view(), hs, vs, model.take(i as int)) == Ok::<
                (Seq<EnterModel>, TablesModel, Set<CollectionSignatureModel>),
                CollectionSignatureModel,
            >((enters.deep_view(), inside.deep_view(), set_of(start))),
        decreases scope.len() - i,
    {
        proof {
            assert(model.take(i + 1).drop_last() == model.take(i as int));
            assert(model[i as int] == scope@[i as int].deep_view());
        }
        let signature = &scope[i];
        let is_head = contains_same(heads, signature);
        let is_variable = contains_same(variables, signature);
        assert(is_head == hs.contains(signature.deep_view()));
        assert(is_variable == vs.contains(signature.deep_view()));
        if !is_sideways_name(signature.name()) {
            if outside.has(Table::Row, signature) {
                if is_head {
                    push(
                        &mut enters,
                        Enter { signature: signature.clone(), enter_as: EnterAs::Start },
                    );
                    enter(&mut start, signature.clone());
                } else {
                    push(
                        &mut enters,
                        Enter { signature: signature.clone(), enter_as: EnterAs::Kept(Table::Row) },
                    );
                    inside.note(Table::Row, signature.clone());
                }
            } else if outside.has(Table::KeyValue, signature) {
                push(
                    &mut enters,
                    Enter {
                        signature: signature.clone(),
                        enter_as: EnterAs::Kept(Table::KeyValue),
                    },
                );
                inside.note(Table::KeyValue, signature.clone());
            } else if outside.has(Table::Key, signature) {
                push(
                    &mut enters,
                    Enter { signature: signature.clone(), enter_as: EnterAs::Kept(Table::Key) },
                );
                inside.note(Table::Key, signature.clone());
            } else if !is_variable {
                proof {
                    lemma_enters_stay_absent(outside.deep_view(), hs, vs, model, i + 1);
                }
                return Err(signature.clone());
            }
        }
        i += 1;
    }
    Ok((enters, inside, start))
}

fn heads_in(entries: &Vec<(CollectionSignature, Vec<CollectionSignature>)>) -> (heads: Vec<
    CollectionSignature,
>)
    ensures
        heads.deep_view() == entry_heads(entries.deep_view()),
{
    let mut heads: Vec<CollectionSignature> = Vec::new();
    let mut i: usize = 0;
    while i < entries.len()
        invariant
            i <= entries.len(),
            heads.len() == i,
            forall|k: int| 0 <= k < i ==> (#[trigger] heads@[k]).deep_view() == entries@[k].0.deep_view(),
        decreases entries.len() - i,
    {
        heads.push(entries[i].0.clone());
        i += 1;
    }
    assert(heads.deep_view() =~= entry_heads(entries.deep_view()));
    heads
}

fn add_arities(heads: &Vec<CollectionSignature>, group: &GroupStrataQueryPlan) -> (out: Vec<
    (CollectionSignature, usize),
>)
    ensures
        out.deep_view() == with_arities(heads.deep_view(), group.rules.deep_view()),
{
    let arities = group.heads();
    let ghost rules = group.rules.deep_view();
    let ghost model = heads.deep_view();
    let mut out: Vec<(CollectionSignature, usize)> = Vec::new();
    let mut i: usize = 0;
    while i < heads.len()
        invariant
            i <= heads.len(),
            model == heads.deep_view(),
            entries_map(arities.deep_view()) == head_arities(rules),
            out.len() == i,
            forall|k: int|
                0 <= k < i ==> (#[trigger] out@[k]).deep_view() == with_arities(model, rules)[k],
        decreases heads.len() - i,
    {
        assert(model[i as int] == heads@[i as int].deep_view());
        proof {
            lemma_entries_lookup(arities.deep_view(), model[i as int].name());
        }
        let arity: usize = match find(&arities, &heads[i].name().to_owned()) {
            Some(arity) => *arity,
            None => 0,
        };
        out.push((heads[i].clone(), arity));
        i += 1;
    }
    assert(out.deep_view() =~= with_arities(model, rules));
    out
}

/// Builds the stage of a group without recursion; notes what it puts out.
fn make_flat_stage(
    tables: &mut Tables,
    idbs: &Vec<(String, HeadIDB)>,
    group: &GroupStrataQueryPlan,
) -> (out: Result<Stage, CollectionSignature>)
    requires
        are_runnable(flat(group.deep_view().strata_plan)),
    ensures
        match out {
            Ok(stage) => flat_stage(old(tables).deep_view(), idbs.deep_view(), listing(*group))
                == Ok::<(StageModel, TablesModel), CollectionSignatureModel>(
                (stage.deep_view(), final(tables).deep_view()),
            ),
            Err(absent) => flat_stage(old(tables).deep_view(), idbs.deep_view(), listing(*group))
                == Err::<(StageModel, TablesModel), CollectionSignatureModel>(absent.deep_view()),
        },
{
    let variables: Vec<CollectionSignature> = empty();
    assert(set_of(variables) =~= Set::empty());
    let scope = Scope {
        is_recursive: false,
        variables: &variables,
        last_signatures: &group.last_signatures_map,
    };
    let steps = group.strata_plan();
    let actions = match make_step_actions(tables, &scope, &steps) {
        Ok(actions) => actions,
        Err(absent) => {
            return Err(absent);
        },
    };
    let entries = sort_by_title(copy_entries(&group.last_signatures_map));
    match make_collects(None, &mut tables.rows, &group.rules, idbs, &entries) {
        Ok(collects) => Ok(Stage::Flat { actions, collects }),
        Err(absent) => Err(absent),
    }
}

/// Builds the stage of a recursive group; notes the relations of the group.
fn make_loop_stage(
    tables: &mut Tables,
    idbs: &Vec<(String, HeadIDB)>,
    group: &GroupStrataQueryPlan,
) -> (out: Result<Stage, CollectionSignature>)
    requires
        are_runnable(flat(group.deep_view().strata_plan)),
    ensures
        match out {
            Ok(stage) => loop_stage(old(tables).deep_view(), idbs.deep_view(), listing(*group))
                == Ok::<(StageModel, TablesModel), CollectionSignatureModel>(
                (stage.deep_view(), final(tables).deep_view()),
            ),
            Err(absent) => loop_stage(old(tables).deep_view(), idbs.deep_view(), listing(*group))
                == Err::<(StageModel, TablesModel), CollectionSignatureModel>(absent.deep_view()),
        },
{
    let all_heads = heads_in(&group.last_signatures_map);
    let entries = sort_by_title(copy_entries(&group.last_signatures_map));
    let (_, heads) = part_heads(&heads_in(&entries));
    let scope = Scope {
        is_recursive: true,
        variables: &heads,
        last_signatures: &group.last_signatures_map,
    };
    let sorted_scope = sort_by_title(clone_list(&group.enter_scope));
    let (enters, mut inside, mut start) = match make_enters(
        tables,
        &all_heads,
        &heads,
        &sorted_scope,
    ) {
        Ok(parts) => parts,
        Err(absent) => {
            return Err(absent);
        },
    };
    let steps = group.strata_plan();
    let actions = match make_step_actions(&mut inside, &scope, &steps) {
        Ok(actions) => actions,
        Err(absent) => {
            return Err(absent);
        },
    };
    match make_collects(Some(&inside.rows), &mut start, &group.rules, idbs, &entries) {
        Ok(collects) => {
            let variables = add_arities(&heads, group);
            enter_all(&mut tables.rows, heads);
            Ok(Stage::Loop { variables, enters, actions, collects })
        },
        Err(absent) => Err(absent),
    }
}

proof fn lemma_stages_stay_absent(
    tables: TablesModel,
    idbs: Seq<(Seq<char>, HeadIDBModel)>,
    groups: Seq<GroupListing>,
    n: int,
)
    requires
        0 <= n <= groups.len(),
        stages_of(tables, idbs, groups.take(n)) is Err,
    ensures
        stages_of(tables, idbs, groups) == stages_of(tables, idbs, groups.take(n)),
    decreases groups.len() - n,
{
    broadcast use group_take;

    if n < groups.len() {
        assert(groups.take(n + 1).drop_last() == groups.take(n));
        lemma_stages_stay_absent(tables, idbs, groups, n + 1);
    }
}

/// Puts the plan of a program together as the stages of a dataflow over its input
/// relations; or gives a collection that is not there where it is needed.
pub fn assemble(
    edbs: &Vec<RelDecl>,
    idbs: &Vec<(String, HeadIDB)>,
    plan: &ProgramQueryPlan,
) -> (out: Result<Vec<Stage>, CollectionSignature>)
    requires
        plan.wf(),
    ensures
        match out {
            Ok(stages) => stages_of(
                input_tables(edbs.deep_view()),
                idbs.deep_view(),
                listings(plan.program_plan@),
            ) matches Ok((wanted, _)) && stages.deep_view() == wanted,
            Err(absent) => stages_of(
                input_tables(edbs.deep_view()),
                idbs.deep_view(),
                listings(plan.program_plan@),
            ) == Err::<(Seq<StageModel>, TablesModel), CollectionSignatureModel>(
                absent.deep_view(),
            ),
        },
{
    broadcast use group_take;

    let mut tables = Tables::new();
    let ghost names = Seq::new(
        edbs.deep_view().len(),
        |i: int| CollectionSignatureModel::Atom { name: edbs.deep_view()[i].name },
    );
    let mut inputs: Vec<CollectionSignature> = Vec::new();
    let mut i: usize = 0;
    while i < edbs.len()
        invariant
            i <= edbs.len(),
            names == Seq::new(
                edbs.deep_view().len(),
                |i: int| CollectionSignatureModel::Atom { name: edbs.deep_view()[i].name },
            ),
            inputs.len() == i,
            forall|k: int| 0 <= k < i ==> (#[trigger] inputs@[k]).deep_view() == names[k],
        decreases edbs.len() - i,
    {
        assert(edbs.deep_view()[i as int] == edbs@[i as int].deep_view());
        inputs.push(CollectionSignature::new_atom(edbs[i].name()));
        i += 1;
    }
    assert(inputs.deep_view() =~= names);
    enter_all(&mut tables.rows, inputs);
    assert(tables.deep_view() =~= input_tables(edbs.deep_view()));
    let ghost start = tables.deep_view();
    let ghost groups = listings(plan.program_plan@);
    let mut stages: Vec<Stage> = empty();
    let mut i: usize = 0;
    while i < plan.program_plan.len()
        invariant
            i <= plan.program_plan.len(),
            plan.wf(),
            groups == listings(plan.program_plan@),
            start == input_tables(edbs.deep_view()),
            stages_of(start, idbs.deep_view(), groups.take(i as int)) == Ok::<
                (Seq<StageModel>, TablesModel),
                CollectionSignatureModel,
            >((stages.deep_view(), tables.deep_view())),
        decreases plan.program_plan.len() - i,
    {
        proof {
            assert(groups.take(i + 1).drop_last() == groups.take(i as int));
            assert(groups[i as int] == listing(plan.program_plan@[i as int]));
            assert(are_runnable(flat(plan.program_plan@[i as int].deep_view().strata_plan)));
        }
        let group = &plan.program_plan[i];
        let stage = if group.is_recursive() {
            make_loop_stage(&mut tables, idbs, group)
        } else {
            make_flat_stage(&mut tables, idbs, group)
        };
        match stage {
            Ok(stage) => {
                push(&mut stages, stage);
            },
            Err(absent) => {
                proof {
                    lemma_stages_stay_absent(start, idbs.deep_view(), groups, i + 1);
                }
                return Err(absent);
            },
        }
        i += 1;
    }
    Ok(stages)
}

} // verus!
