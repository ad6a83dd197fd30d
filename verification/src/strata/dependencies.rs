//! Which rule needs the results of which other rule.
use std::collections::{HashMap, HashSet};
use vstd::prelude::*;
use vstd::string::*;
use crate::lists::{empty, group_take, push};
use crate::parsing::parser::Program;
use crate::parsing::rule::{FLRule, FLRuleModel, Predicate, PredicateModel};
use crate::sorted::{
    ascending, in_order, lemma_in_order, numbers_text, render_numbers, sorted_items, sorted_keys,
};
use crate::strata::graph::Graph;
use crate::text::{nat_text, same_text, usize_to_text};

verus! {

broadcast use vstd::std_specs::hash::group_hash_axioms;

/// Whether the body of a rule mentions a relation, negated or not.
pub open spec fn mentions(rule: FLRuleModel, name: Seq<char>) -> bool {
    exists|i: int|
        0 <= i < rule.rhs.len() && (#[trigger] rule.rhs[i]).atom() is Some
            && rule.rhs[i].atom()->0.name == name
}

/// Whether the body of a rule mentions a relation under a negation.
pub open spec fn negates(rule: FLRuleModel, name: Seq<char>) -> bool {
    exists|i: int|
        0 <= i < rule.rhs.len() && (#[trigger] rule.rhs[i]) is NegatedAtomPredicate
            && rule.rhs[i].atom()->0.name == name
}

/// Each rule with the rules that derive a relation of its body.
pub open spec fn dependencies(rules: Seq<FLRuleModel>) -> Graph {
    Map::new(
        |r: usize| r < rules.len(),
        |r: usize|
            Set::new(
                |d: usize| d < rules.len() && mentions(rules[r as int], rules[d as int].head.name),
            ),
    )
}

/// Each rule with the rules that derive a negated relation of its body.
pub open spec fn negated_dependencies(rules: Seq<FLRuleModel>) -> Graph {
    Map::new(
        |r: usize| r < rules.len(),
        |r: usize|
            Set::new(
                |d: usize| d < rules.len() && negates(rules[r as int], rules[d as int].head.name),
            ),
    )
}

/// The graph that a map of sets stands for.
pub open spec fn graph_of(map: HashMap<usize, HashSet<usize>>) -> Graph {
    Map::new(|k: usize| map@.contains_key(k), |k: usize| map@[k]@)
}

/// The dependencies among the rules of a program.
#[derive(Debug)]
pub struct DependencyGraph {
    pub rule_idb_names: Vec<String>,
    pub rule_dependency_map: HashMap<usize, HashSet<usize>>,
    pub negation_dependency_map: HashMap<usize, HashSet<usize>>,
}

impl DependencyGraph {
    /// Whether this is the dependency graph of the given rules.
    pub open spec fn describes(&self, rules: Seq<FLRuleModel>) -> bool {
        &&& self.rule_idb_names.deep_view() == Seq::new(rules.len(), |i: int| rules[i].head.name)
        &&& graph_of(self.rule_dependency_map) == dependencies(rules)
        &&& graph_of(self.negation_dependency_map) == negated_dependencies(rules)
    }

    pub fn rule_idb_names(&self) -> (names: &Vec<String>)
        ensures
            *names == self.rule_idb_names,
    {
        &self.rule_idb_names
    }

    pub fn rule_dependency_map(&self) -> (map: &HashMap<usize, HashSet<usize>>)
        ensures
            *map == self.rule_dependency_map,
    {
        &self.rule_dependency_map
    }

    pub fn negation_dependency_map(&self) -> (map: &HashMap<usize, HashSet<usize>>)
        ensures
            *map == self.negation_dependency_map,
    {
        &self.negation_dependency_map
    }

    /// The dependency graph of a program: a rule depends on every rule whose
    /// head is a relation of its body.
    pub fn from_parser(program: &Program) -> (graph: Self)
        ensures
            graph.describes(program.deep_view().rules),
    {
        let rules = program.rules();
        let ghost models = program.deep_view().rules;
        let mut rule_idb_names: Vec<String> = Vec::new();
        let mut i: usize = 0;
        while i < rules.len()
            invariant
                i <= rules.len(),
                rules.deep_view() == models,
                rule_idb_names.len() == i,
                forall|k: int|
                    0 <= k < i ==> (#[trigger] rule_idb_names[k])@ == models[k].head.name,
            decreases rules.len() - i,
        {
            assert(models[i as int] == rules[i as int].deep_view());
            rule_idb_names.push(rules[i].head().name().clone());
            i += 1;
        }
        assert(rule_idb_names.deep_view() =~= Seq::new(models.len(), |i: int| models[i].head.name));
        let mut rule_dependency_map: HashMap<usize, HashSet<usize>> = HashMap::new();
        let mut negation_dependency_map: HashMap<usize, HashSet<usize>> = HashMap::new();
        let mut rule_id: usize = 0;
        while rule_id < rules.len()
            invariant
                rule_id <= rules.len(),
                rules.deep_view() == models,
                rule_idb_names.deep_view() == Seq::new(models.len(), |i: int| models[i].head.name),
                forall|r: usize| rule_dependency_map@.contains_key(r) <==> r < rule_id,
                forall|r: usize| negation_dependency_map@.contains_key(r) <==> r < rule_id,
                forall|r: usize|
                    r < rule_id ==> (#[trigger] rule_dependency_map@[r])@ == dependencies(models)[r],
                forall|r: usize|
                    r < rule_id ==> (#[trigger] negation_dependency_map@[r])@
                        == negated_dependencies(models)[r],
            decreases rules.len() - rule_id,
        {
            let (positive, negative) = Self::of_rule(&rules[rule_id], &rule_idb_names);
            proof {
                assert(models[rule_id as int] == rules[rule_id as int].deep_view());
                let named = rule_idb_names.deep_view();
                assert(named.len() == models.len());
                assert forall|d: usize|
                    d < models.len() implies #[trigger] named[d as int] == models[d as int].head.name by {}
                assert forall|d: usize| positive@.contains(d) <==> dependencies(models)[rule_id].contains(d) by {
                    if d < models.len() {
                        assert(named[d as int] == models[d as int].head.name);
                    }
                }
                assert forall|d: usize| negative@.contains(d) <==> negated_dependencies(models)[rule_id].contains(d) by {
                    if d < models.len() {
                        assert(named[d as int] == models[d as int].head.name);
                    }
                }
                assert(positive@ =~= dependencies(models)[rule_id]);
                assert(negative@ =~= negated_dependencies(models)[rule_id]);
            }
            rule_dependency_map.insert(rule_id, positive);
            negation_dependency_map.insert(rule_id, negative);
            rule_id += 1;
        }
        proof {
            assert(graph_of(rule_dependency_map) =~= dependencies(models));
            assert(graph_of(negation_dependency_map) =~= negated_dependencies(models));
        }
        DependencyGraph { rule_idb_names, rule_dependency_map, negation_dependency_map }
    }

    /// The positions in `names` of the relations that the rule mentions, and of
    /// those that it negates.
    fn of_rule(rule: &FLRule, names: &Vec<String>) -> (found: (HashSet<usize>, HashSet<usize>))
        ensures
            forall|d: usize|
                #[trigger] found.0@.contains(d) <==> d < names.len() && mentions(
                    rule.deep_view(),
                    names.deep_view()[d as int],
                ),
            forall|d: usize|
                #[trigger] found.1@.contains(d) <==> d < names.len() && negates(
                    rule.deep_view(),
                    names.deep_view()[d as int],
                ),
    {
        let mut all: HashSet<usize> = HashSet::new();
        let mut negative: HashSet<usize> = HashSet::new();
        let ghost model = rule.deep_view();
        let mut d: usize = 0;
        while d < names.len()
            invariant
                d <= names.len(),
                model == rule.deep_view(),
                forall|x: usize|
                    #[trigger] all@.contains(x) <==> x < d && mentions(
                        model,
                        names.deep_view()[x as int],
                    ),
                forall|x: usize|
                    #[trigger] negative@.contains(x) <==> x < d && negates(
                        model,
                        names.deep_view()[x as int],
                    ),
            decreases names.len() - d,
        {
            let ghost name = names.deep_view()[d as int];
            let mut mentioned = false;
            let mut negated = false;
            let mut i: usize = 0;
            while i < rule.rhs.len()
                invariant
                    i <= rule.rhs.len(),
                    d < names.len(),
                    model == rule.deep_view(),
                    name == names.deep_view()[d as int],
                    mentioned <==> exists|k: int|
                        0 <= k < i && (#[trigger] model.rhs[k]).atom() is Some
                            && model.rhs[k].atom()->0.name == name,
                    negated <==> exists|k: int|
                        0 <= k < i && (#[trigger] model.rhs[k]) is NegatedAtomPredicate
                            && model.rhs[k].atom()->0.name == name,
                decreases rule.rhs.len() - i,
            {
                let predicate = &rule.rhs[i];
                assert(model.rhs[i as int] == predicate.deep_view());
                match predicate {
                    Predicate::AtomPredicate(atom) => {
                        if same_text(atom.name(), names[d].as_str()) {
                            assert(model.rhs[i as int].atom()->0.name == name);
                            mentioned = true;
                        }
                    },
                    Predicate::NegatedAtomPredicate(atom) => {
                        if same_text(atom.name(), names[d].as_str()) {
                            assert(model.rhs[i as int].atom()->0.name == name);
                            mentioned = true;
                            negated = true;
                        }
                    },
                    Predicate::ComparePredicate(_) => {},
                }
                i += 1;
            }
            assert(mentioned == mentions(model, name));
            assert(negated == negates(model, name));
            if mentioned {
                all.insert(d);
            }
            if negated {
                negative.insert(d);
            }
            d += 1;
        }
        (all, negative)
    }
}

/// A rule depends on every rule that it depends on through a negation.
pub proof fn law_negation_is_dependency(rules: Seq<FLRuleModel>, r: usize, d: usize)
    requires
        r < rules.len(),
        negated_dependencies(rules)[r].contains(d),
    ensures
        dependencies(rules)[r].contains(d),
{
    let rule = rules[r as int];
    let name = rules[d as int].head.name;
    assert(negates(rule, name));
    let i = choose|i: int|
        0 <= i < rule.rhs.len() && (#[trigger] rule.rhs[i]) is NegatedAtomPredicate
            && rule.rhs[i].atom()->0.name == name;
    assert(rule.rhs[i].atom() is Some);
}

/// The lines of the listing of a dependency graph: every rule with the rules
/// that it depends on; rules without any are left out where `skip` is set.
pub open spec fn dependency_lines(g: Graph, keys: Seq<usize>, skip: bool) -> Seq<char>
    decreases keys.len(),
{
    if keys.len() == 0 {
        Seq::empty()
    } else {
        let front = dependency_lines(g, keys.drop_last(), skip);
        let key = keys.last();
        let targets = in_order(g[key]);
        if targets.len() > 0 {
            front + nat_text(key as nat) + ": ["@ + numbers_text(targets) + "]\n"@
        } else if skip {
            front
        } else {
            front + nat_text(key as nat) + ": \n"@
        }
    }
}

/// The listing of a dependency graph and of its negated part.
pub open spec fn dependency_text(all: Graph, negated: Graph) -> Seq<char> {
    ".dependency graph (rule_id: dependent rule_ids): \n"@ + dependency_lines(
        all,
        in_order(all.dom()),
        false,
    ) + "\n.negation dependency graph (rule_id: dependent negation rule_ids): \n"@
        + dependency_lines(negated, in_order(negated.dom()), true)
}

fn render_lines(map: &HashMap<usize, HashSet<usize>>, skip: bool) -> (out: String)
    ensures
        out@ == dependency_lines(graph_of(*map), in_order(graph_of(*map).dom()), skip),
{
    broadcast use group_take;

    let ghost g = graph_of(*map);
    let keys = sorted_keys(map);
    proof {
        assert(g.dom() =~= map@.dom());
        lemma_in_order(keys@, g.dom());
    }
    let mut out = String::new();
    let mut i: usize = 0;
    while i < keys.len()
        invariant
            i <= keys.len(),
            g == graph_of(*map),
            keys@.to_set() == map@.dom(),
            out@ == dependency_lines(g, keys@.take(i as int), skip),
        decreases keys.len() - i,
    {
        let key: usize = keys[i];
        proof {
            assert(keys@.take(i + 1).drop_last() == keys@.take(i as int));
            assert(keys@.contains(key));
            assert(map@.dom().contains(key));
        }
        if let Some(set) = map.get(&key) {
            let targets = sorted_items(set);
            proof {
                assert(g[key] == set@);
                lemma_in_order(targets@, set@);
            }
            if targets.len() > 0 {
                out.append(usize_to_text(key).as_str());
                out.append(": [");
                out.append(render_numbers(&targets).as_str());
                out.append("]\n");
            } else if !skip {
                out.append(usize_to_text(key).as_str());
                out.append(": \n");
            }
        }
        i += 1;
    }
    out
}

impl DependencyGraph {
    /// The listing of the graph.
    pub fn to_string(&self) -> (out: String)
        ensures
            out@ == dependency_text(
                graph_of(self.rule_dependency_map),
                graph_of(self.negation_dependency_map),
            ),
    {
        let mut out = ".dependency graph (rule_id: dependent rule_ids): \n".to_owned();
        out.append(render_lines(&self.rule_dependency_map, false).as_str());
        out.append("\n.negation dependency graph (rule_id: dependent negation rule_ids): \n");
        out.append(render_lines(&self.negation_dependency_map, true).as_str());
        out
    }
}

/// A rule depends on the rules for each relation that stands in its body, as an atom or
/// as a negated atom, and on no others; through a negation, on those for the relations of
/// its negated atoms.
pub proof fn law_rules_depend_on_their_bodies(rules: Seq<FLRuleModel>, r: usize, d: usize)
    requires
        r < rules.len(),
        d < rules.len(),
    ensures
        dependencies(rules)[r].contains(d) <==> exists|i: int|
            0 <= i < rules[r as int].rhs.len() && match #[trigger] rules[r as int].rhs[i] {
                PredicateModel::AtomPredicate(atom) => atom.name == rules[d as int].head.name,
                PredicateModel::NegatedAtomPredicate(atom) => atom.name
                    == rules[d as int].head.name,
                PredicateModel::ComparePredicate(_) => false,
            },
        negated_dependencies(rules)[r].contains(d) <==> exists|i: int|
            0 <= i < rules[r as int].rhs.len() && match #[trigger] rules[r as int].rhs[i] {
                PredicateModel::NegatedAtomPredicate(atom) => atom.name
                    == rules[d as int].head.name,
                _ => false,
            },
{
    let rule = rules[r as int];
    let name = rules[d as int].head.name;
    assert(mentions(rule, name) <==> exists|i: int|
        0 <= i < rule.rhs.len() && match #[trigger] rule.rhs[i] {
            PredicateModel::AtomPredicate(atom) => atom.name == name,
            PredicateModel::NegatedAtomPredicate(atom) => atom.name == name,
            PredicateModel::ComparePredicate(_) => false,
        });
    assert(negates(rule, name) <==> exists|i: int|
        0 <= i < rule.rhs.len() && match #[trigger] rule.rhs[i] {
            PredicateModel::NegatedAtomPredicate(atom) => atom.name == name,
            _ => false,
        });
}

/// The listing of a dependency graph has a line for each rule with the rules that it
/// depends on, in the order of the rules; a rule without any has an empty line, or none
/// where such rules are left out.
pub proof fn law_dependencies_are_listed(g: Graph, keys: Seq<usize>, key: usize, skip: bool)
    ensures
        dependency_lines(g, Seq::empty(), skip) == Seq::<char>::empty(),
        dependency_lines(g, keys.push(key), skip) == dependency_lines(g, keys, skip)
            + dependency_lines(g, seq![key], skip),
        in_order(g[key]).len() > 0 ==> dependency_lines(g, seq![key], skip) == nat_text(
            key as nat,
        ) + ": ["@ + numbers_text(in_order(g[key])) + "]\n"@,
        in_order(g[key]).len() == 0 ==> dependency_lines(g, seq![key], skip) == if skip {
            Seq::empty()
        } else {
            nat_text(key as nat) + ": \n"@
        },
{
    assert(keys.push(key).drop_last() =~= keys);
    assert(seq![key].drop_last() =~= Seq::empty());
    let none = dependency_lines(g, Seq::empty(), skip);
    assert(none =~= Seq::empty());
    let line = dependency_lines(g, seq![key], skip);
    if in_order(g[key]).len() > 0 {
        assert(line =~= nat_text(key as nat) + ": ["@ + numbers_text(in_order(g[key])) + "]\n"@);
    } else if !skip {
        assert(line =~= nat_text(key as nat) + ": \n"@);
    }
    assert(dependency_lines(g, keys.push(key), skip) =~= dependency_lines(g, keys, skip) + line);
}

/// The dependencies of a program are listed before those through negations, each under
/// its title and in the order of the rules; only the latter leave rules without any out.
pub proof fn law_negations_are_listed_last(all: Graph, negated: Graph)
    ensures
        dependency_text(all, Map::empty()) == ".dependency graph (rule_id: dependent rule_ids): \n"@
            + dependency_lines(all, in_order(all.dom()), false)
            + "\n.negation dependency graph (rule_id: dependent negation rule_ids): \n"@,
        dependency_text(all, negated) == dependency_text(all, Map::empty()) + dependency_lines(
            negated,
            in_order(negated.dom()),
            true,
        ),
{
    let none = Map::<usize, Set<usize>>::empty();
    let keys = in_order(none.dom());
    assert(keys.len() == 0) by {
        assert(ascending(Seq::<usize>::empty()));
        assert(Seq::<usize>::empty().to_set() =~= none.dom());
        if keys.len() > 0 {
            assert(keys.to_set().contains(keys[0]));
        }
    }
    assert(dependency_lines(none, keys, true) =~= Seq::empty());
    let title = ".dependency graph (rule_id: dependent rule_ids): \n"@ + dependency_lines(
        all,
        in_order(all.dom()),
        false,
    ) + "\n.negation dependency graph (rule_id: dependent negation rule_ids): \n"@;
    assert(dependency_text(all, none) =~= title);
    assert(dependency_text(all, negated) =~= title + dependency_lines(
        negated,
        in_order(negated.dom()),
        true,
    ));
}

} // verus!
