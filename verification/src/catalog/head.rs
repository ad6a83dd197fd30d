//! What a rule head says of the relation that it defines.
use vstd::prelude::*;
use crate::lists::{empty, find, group_take, lemma_lookup_push, lookup, push};
use crate::parsing::aggregation::{Aggregation, AggregationModel};
use crate::parsing::head::{Head, HeadArg, HeadArgModel, HeadModel};
use crate::parsing::parser::Program;
use crate::parsing::rule::FLRuleModel;

verus! {

/// A relation as a rule head describes it.
#[derive(Debug)]
pub struct HeadIDB {
    pub name: String,
    /// the aggregation that stands last, if one does
    pub aggregation_argument: Option<Aggregation>,
    /// whether the aggregation is done for each value of other arguments
    pub is_group_by: bool,
    pub arity: usize,
}

#[verifier::ext_equal]
pub struct HeadIDBModel {
    pub name: Seq<char>,
    pub aggregation_argument: Option<AggregationModel>,
    pub is_group_by: bool,
    pub arity: nat,
}

impl DeepView for HeadIDB {
    type V = HeadIDBModel;

    open spec fn deep_view(&self) -> HeadIDBModel {
        HeadIDBModel {
            name: self.name@,
            aggregation_argument: self.aggregation_argument.deep_view(),
            is_group_by: self.is_group_by,
            arity: self.arity as nat,
        }
    }
}

/// The aggregation that stands last among the arguments, if one does.
pub open spec fn last_aggregation(arguments: Seq<HeadArgModel>) -> Option<AggregationModel> {
    if arguments.len() == 0 {
        None
    } else {
        match arguments.last() {
            HeadArgModel::Aggregation(aggregation) => Some(aggregation),
            _ => None,
        }
    }
}

/// What a head says of its relation.
pub open spec fn head_idb(head: HeadModel) -> HeadIDBModel {
    HeadIDBModel {
        name: head.name,
        aggregation_argument: last_aggregation(head.head_arguments),
        is_group_by: last_aggregation(head.head_arguments) is Some && head.head_arguments.len() > 1,
        arity: head.head_arguments.len(),
    }
}

/// For each relation what the first rule for it says.
pub open spec fn first_heads(rules: Seq<FLRuleModel>) -> Seq<(Seq<char>, HeadIDBModel)>
    decreases rules.len(),
{
    if rules.len() == 0 {
        Seq::empty()
    } else {
        let front = first_heads(rules.drop_last());
        let head = rules.last().head;
        if lookup(front, head.name) is None {
            front.push((head.name, head_idb(head)))
        } else {
            front
        }
    }
}

impl HeadIDB {
    pub fn from_rule(head: &Head) -> (idb: Self)
        ensures
            idb.deep_view() == head_idb(head.deep_view()),
    {
        let arguments = head.head_arguments();
        assert(arguments.len() == arguments.deep_view().len());
        let aggregation_argument = if arguments.len() == 0 {
            None
        } else {
            assert(arguments.deep_view().last() == arguments@[arguments.len() - 1].deep_view());
            match &arguments[arguments.len() - 1] {
                HeadArg::Aggregation(aggregation) => Some(aggregation.clone()),
                _ => None,
            }
        };
        let is_group_by = aggregation_argument.is_some() && arguments.len() > 1;
        HeadIDB {
            name: head.name().clone(),
            aggregation_argument,
            is_group_by,
            arity: arguments.len(),
        }
    }

    pub fn is_aggregation(&self) -> (answer: bool)
        ensures
            answer == (self.deep_view().aggregation_argument is Some),
    {
        self.aggregation_argument.is_some()
    }

    pub fn aggregation(&self) -> (aggregation: Aggregation)
        requires
            self.deep_view().aggregation_argument is Some,
        ensures
            Some(aggregation.deep_view()) == self.deep_view().aggregation_argument,
    {
        match &self.aggregation_argument {
            Some(aggregation) => aggregation.clone(),
            None => vstd::pervasive::unreached(),
        }
    }

    pub fn is_group_by(&self) -> (answer: bool)
        ensures
            answer == self.deep_view().is_group_by,
    {
        self.is_group_by
    }

    pub fn name(&self) -> (name: &str)
        ensures
            name@ == self.deep_view().name,
    {
        self.name.as_str()
    }

    pub fn arity(&self) -> (arity: usize)
        ensures
            arity == self.deep_view().arity,
    {
        self.arity
    }
}

/// For each relation that rules define what the first rule for it says.
pub fn idb_catalog_from_program(program: &Program) -> (idbs: Vec<(String, HeadIDB)>)
    ensures
        idbs.deep_view() == first_heads(program.deep_view().rules),
{
    broadcast use group_take;

    let rules = program.rules();
    let ghost models = rules.deep_view();
    let mut idbs: Vec<(String, HeadIDB)> = empty();
    let mut i: usize = 0;
    while i < rules.len()
        invariant
            i <= rules.len(),
            models == rules.deep_view(),
            idbs.deep_view() == first_heads(models.take(i as int)),
        decreases rules.len() - i,
    {
        assert(models.take(i + 1).drop_last() == models.take(i as int));
        assert(models[i as int] == rules@[i as int].deep_view());
        let head = rules[i].head();
        if find(&idbs, head.name()).is_none() {
            push(&mut idbs, (head.name().clone(), HeadIDB::from_rule(head)));
        }
        i += 1;
    }
    idbs
}

/// Every relation that a rule defines is listed once, with what the first rule for
/// it says.
pub proof fn law_first_rule_wins(rules: Seq<FLRuleModel>, i: int)
    requires
        0 <= i < rules.len(),
        forall|j: int| 0 <= j < i ==> (#[trigger] rules[j]).head.name != rules[i].head.name,
    ensures
        lookup(first_heads(rules), rules[i].head.name) == Some(head_idb(rules[i].head)),
    decreases rules.len(),
{
    let front = rules.drop_last();
    let head = rules.last().head;
    lemma_lookup_push(first_heads(front), head.name, head_idb(head));
    if i < rules.len() - 1 {
        assert forall|j: int| 0 <= j < i implies (#[trigger] front[j]).head.name
            != front[i].head.name by {
            assert(front[j] == rules[j]);
        }
        law_first_rule_wins(front, i);
    } else {
        assert forall|j: int| 0 <= j < front.len() implies (#[trigger] front[j]).head.name
            != head.name by {
            assert(front[j] == rules[j]);
        }
        lemma_absent(front, head.name);
    }
}

proof fn lemma_absent(rules: Seq<FLRuleModel>, name: Seq<char>)
    requires
        forall|j: int| 0 <= j < rules.len() ==> (#[trigger] rules[j]).head.name != name,
    ensures
        lookup(first_heads(rules), name) is None,
    decreases rules.len(),
{
    if rules.len() > 0 {
        let front = rules.drop_last();
        let head = rules[rules.len() - 1].head;
        assert(head.name != name);
        assert forall|j: int| 0 <= j < front.len() implies (#[trigger] front[j]).head.name
            != name by {
            assert(front[j] == rules[j]);
        }
        lemma_absent(front, name);
        lemma_lookup_push(first_heads(front), head.name, head_idb(head));
    }
}

} // verus!
