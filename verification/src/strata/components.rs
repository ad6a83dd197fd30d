//! Depth first searches over the rules, and the components that they find.
use std::collections::{HashMap, HashSet};
use vstd::prelude::*;
use crate::sorted::{ascending, sorted_items, sorted_keys};
use crate::strata::dependencies::graph_of;
use crate::strata::graph::{
    bounded, connects, edge, ends_later, is_component, is_post_order, is_transpose,
    lemma_closed_set, lemma_first_edge, lemma_mutual_self, lemma_mutual_trans, lemma_path_parts,
    lemma_post_order_append, lemma_post_order_empty, lemma_post_order_root, lemma_reaches_edge,
    lemma_reaches_less_blocked, lemma_reaches_self, lemma_reaches_some, lemma_reaches_trans,
    lemma_search_finds, lemma_transpose_reaches, mutual, reaches, reaches_avoiding, Graph,
};
use crate::strata::stratification::Strata;

verus! {

broadcast use vstd::std_specs::hash::group_hash_axioms;

/// The positions that are set.
pub open spec fn marked(flags: Seq<bool>) -> Set<usize> {
    Set::new(|x: usize| x < flags.len() && flags[x as int])
}

/// How many positions are not set.
pub open spec fn open_count(flags: Seq<bool>) -> nat
    decreases flags.len(),
{
    if flags.len() == 0 {
        0
    } else {
        open_count(flags.drop_last()) + if flags.last() {
            0nat
        } else {
            1nat
        }
    }
}

pub proof fn lemma_open_count_monotone(a: Seq<bool>, b: Seq<bool>)
    requires
        a.len() == b.len(),
        forall|i: int| 0 <= i < a.len() && #[trigger] a[i] ==> b[i],
    ensures
        open_count(b) <= open_count(a),
        (exists|i: int| 0 <= i < a.len() && !a[i] && #[trigger] b[i]) ==> open_count(b)
            < open_count(a),
    decreases a.len(),
{
    if a.len() > 0 {
        let fa = a.drop_last();
        let fb = b.drop_last();
        assert forall|i: int| 0 <= i < fa.len() && #[trigger] fa[i] implies fb[i] by {
            assert(a[i]);
        }
        lemma_open_count_monotone(fa, fb);
        if exists|i: int| 0 <= i < a.len() && !a[i] && #[trigger] b[i] {
            let i = choose|i: int| 0 <= i < a.len() && !a[i] && #[trigger] b[i];
            if i < fa.len() {
                assert(!fa[i] && fb[i]);
            }
        }
        assert(a[a.len() - 1] ==> b[a.len() - 1]);
    }
}

/// The vertices that a search has found, each once, and that its edges do not leave.
pub open spec fn is_search(
    g: Graph,
    before: Set<usize>,
    after: Set<usize>,
    found: Seq<usize>,
) -> bool {
    &&& found.no_duplicates()
    &&& forall|x: usize| #[trigger] before.contains(x) ==> after.contains(x)
    &&& forall|x: usize|
        #[trigger] found.contains(x) <==> after.contains(x) && !before.contains(x)
    &&& forall|x: usize, y: usize|
        found.contains(x) && #[trigger] edge(g, x, y) ==> after.contains(y)
}

proof fn lemma_search_append(
    g: Graph,
    before: Set<usize>,
    between: Set<usize>,
    after: Set<usize>,
    first: Seq<usize>,
    second: Seq<usize>,
)
    requires
        first.no_duplicates(),
        forall|x: usize| #[trigger] before.contains(x) ==> between.contains(x),
        forall|x: usize|
            #[trigger] first.contains(x) <==> between.contains(x) && !before.contains(x),
        is_search(g, between, after, second),
    ensures
        (first + second).no_duplicates(),
        forall|x: usize|
            #[trigger] (first + second).contains(x) <==> after.contains(x) && !before.contains(x),
        forall|x: usize| #[trigger] before.contains(x) ==> after.contains(x),
{
    let order = first + second;
    assert forall|x: usize| #[trigger] order.contains(x) <==> after.contains(x)
        && !before.contains(x) by {
        if order.contains(x) {
            let i = choose|i: int| 0 <= i < order.len() && order[i] == x;
            if i < first.len() {
                assert(first[i] == x);
                assert(first.contains(x));
            } else {
                assert(second[i - first.len()] == x);
                assert(second.contains(x));
            }
        }
        if after.contains(x) && !before.contains(x) {
            if between.contains(x) {
                assert(first.contains(x));
                let i = choose|i: int| 0 <= i < first.len() && first[i] == x;
                assert(order[i] == x);
            } else {
                assert(second.contains(x));
                let i = choose|i: int| 0 <= i < second.len() && second[i] == x;
                assert(order[first.len() + i] == x);
            }
        }
    }
    assert forall|i: int, j: int| 0 <= i < j < order.len() implies order[i] != order[j] by {
        if i < first.len() && j >= first.len() {
            assert(first.contains(first[i]));
            assert(second.contains(second[j - first.len()]));
        } else if i < first.len() {
            assert(first[i] != first[j]);
        } else {
            assert(second[i - first.len()] != second[j - first.len()]);
        }
    }
}

/// The list under a key, empty where the key is missing.
pub open spec fn group(groups: Map<usize, Vec<usize>>, key: usize) -> Seq<usize> {
    if groups.contains_key(key) {
        groups[key]@
    } else {
        Seq::empty()
    }
}

/// The contents of a list of lists.
pub open spec fn lists(lists: Seq<Vec<usize>>) -> Seq<Seq<usize>> {
    Seq::new(lists.len(), |i: int| lists[i]@)
}

/// Whether one of the lists holds `x`.
pub open spec fn in_some(lists: Seq<Seq<usize>>, x: usize) -> bool {
    exists|a: int| 0 <= a < lists.len() && #[trigger] lists[a].contains(x)
}

/// Whether `comps` are the components of the vertices below `n`, each once, so
/// that a component comes after all the others that it reaches.
pub open spec fn are_components(g: Graph, n: nat, comps: Seq<Seq<usize>>) -> bool {
    &&& forall|a: int| 0 <= a < comps.len() ==> is_component(g, #[trigger] comps[a])
    &&& forall|a: int, x: usize|
        0 <= a < comps.len() && #[trigger] comps[a].contains(x) ==> x < n
    &&& forall|x: usize| x < n ==> #[trigger] in_some(comps, x)
    &&& forall|a: int, b: int|
        #![trigger comps[a], comps[b]]
        0 <= a < comps.len() && 0 <= b < comps.len() && reaches(g, comps[a][0], comps[b][0]) ==> b
            <= a
}

impl Strata {
    /// The graph with every edge turned round.
    pub fn transpose_graph_from(
        rule_dependency_map: &HashMap<usize, HashSet<usize>>,
    ) -> (transpose: HashMap<usize, HashSet<usize>>)
        ensures
            is_transpose(graph_of(*rule_dependency_map), graph_of(transpose)),
            forall|b: usize|
                transpose@.contains_key(b) ==> exists|a: usize|
                    #[trigger] edge(graph_of(*rule_dependency_map), a, b),
    {
        let ghost g = graph_of(*rule_dependency_map);
        let keys = sorted_keys(rule_dependency_map);
        let mut transpose: HashMap<usize, HashSet<usize>> = HashMap::new();
        let mut i: usize = 0;
        while i < keys.len()
            invariant
                i <= keys.len(),
                g == graph_of(*rule_dependency_map),
                ascending(keys@),
                keys@.to_set() == rule_dependency_map@.dom(),
                forall|a: usize, b: usize|
                    #[trigger] edge(graph_of(transpose), b, a) <==> edge(g, a, b)
                        && keys@.take(i as int).contains(a),
                forall|b: usize|
                    transpose@.contains_key(b) ==> exists|a: usize| #[trigger] edge(g, a, b),
            decreases keys.len() - i,
        {
            let rule_id: usize = keys[i];
            let ghost done = keys@.take(i as int);
            proof {
                assert(keys@.contains(rule_id));
                assert(keys@.to_set().contains(rule_id));
            }
            let targets = match rule_dependency_map.get(&rule_id) {
                Some(set) => sorted_items(set),
                None => Vec::new(),
            };
            assert(forall|b: usize| targets@.contains(b) <==> edge(g, rule_id, b)) by {
                assert forall|b: usize| targets@.contains(b) <==> edge(g, rule_id, b) by {
                    assert(targets@.contains(b) <==> targets@.to_set().contains(b));
                }
            }
            let mut j: usize = 0;
            while j < targets.len()
                invariant
                    j <= targets.len(),
                    i < keys.len(),
                    rule_id == keys@[i as int],
                    done == keys@.take(i as int),
                    forall|b: usize| targets@.contains(b) <==> edge(g, rule_id, b),
                    forall|a: usize, b: usize|
                        #[trigger] edge(graph_of(transpose), b, a) <==> edge(g, a, b) && (
                        done.contains(a) || a == rule_id && targets@.take(j as int).contains(b)),
                    forall|b: usize|
                        transpose@.contains_key(b) ==> exists|a: usize| #[trigger] edge(g, a, b),
                decreases targets.len() - j,
            {
                let target: usize = targets[j];
                let ghost before = graph_of(transpose);
                let mut sources = match transpose.remove(&target) {
                    Some(sources) => sources,
                    None => HashSet::new(),
                };
                let ghost old_sources = sources@;
                sources.insert(rule_id);
                let ghost new_sources = sources@;
                transpose.insert(target, sources);
                proof {
                    let now = graph_of(transpose);
                    assert(targets@.contains(target));
                    assert(edge(g, rule_id, target));
                    assert forall|a: usize, b: usize| #[trigger]
                        edge(now, b, a) <==> edge(g, a, b) && (done.contains(a) || a == rule_id
                        && targets@.take(j + 1).contains(b)) by {
                        assert(edge(before, b, a) <==> edge(g, a, b) && (done.contains(a) || a
                            == rule_id && targets@.take(j as int).contains(b)));
                        assert(targets@.take(j + 1) =~= targets@.take(j as int).push(target));
                        assert(targets@.take(j + 1).contains(b) <==> targets@.take(j as int).contains(b) || b == target) by {
                            if targets@.take(j as int).contains(b) {
                                let k = choose|k: int| 0 <= k < j && targets@.take(j as int)[k] == b;
                                assert(targets@.take(j + 1)[k] == b);
                            }
                            assert(targets@.take(j + 1)[j as int] == target);
                        }
                        if b == target {
                            assert(now[b] == new_sources);
                            assert(edge(before, b, a) <==> old_sources.contains(a));
                        }
                    }
                }
                j += 1;
            }
            proof {
                assert(targets@.take(targets@.len() as int) =~= targets@);
                assert(keys@.take(i + 1) =~= done.push(rule_id));
                assert forall|a: usize, b: usize| #[trigger]
                    edge(graph_of(transpose), b, a) <==> edge(g, a, b) && keys@.take(i + 1).contains(a) by {
                    assert(keys@.take(i + 1).contains(a) <==> done.contains(a) || a == rule_id) by {
                        if done.contains(a) {
                            let k = choose|k: int| 0 <= k < i && done[k] == a;
                            assert(keys@.take(i + 1)[k] == a);
                        }
                        assert(keys@.take(i + 1)[i as int] == rule_id);
                    }
                }
            }
            i += 1;
        }
        proof {
            assert(keys@.take(keys@.len() as int) =~= keys@);
            assert forall|a: usize, b: usize| #[trigger] edge(graph_of(transpose), b, a) <==> edge(
                g,
                a,
                b,
            ) by {
                if edge(g, a, b) {
                    assert(keys@.to_set().contains(a));
                }
            }
        }
        transpose
    }

    /// Visits the rules that `rule_id` depends on, directly or not, and appends
    /// each newly visited rule to `order` after the ones visited below it.
    pub fn processing_order_dfs(
        order: &mut Vec<usize>,
        visited: &mut Vec<bool>,
        rule_dependency_map: &HashMap<usize, HashSet<usize>>,
        rule_id: usize,
    )
        requires
            rule_id < old(visited).len(),
            bounded(graph_of(*rule_dependency_map), old(visited)@.len()),
        ensures
            final(visited)@.len() == old(visited)@.len(),
            old(order)@.len() <= final(order)@.len(),
            final(order)@.take(old(order)@.len() as int) == old(order)@,
            is_post_order(
                graph_of(*rule_dependency_map),
                marked(old(visited)@),
                marked(final(visited)@),
                final(order)@.skip(old(order)@.len() as int),
            ),
            marked(final(visited)@).contains(rule_id),
            forall|x: usize|
                final(order)@.skip(old(order)@.len() as int).contains(x)
                    <==> #[trigger] reaches_avoiding(
                    graph_of(*rule_dependency_map),
                    marked(old(visited)@),
                    rule_id,
                    x,
                ),
        decreases open_count(old(visited)@),
    {
        let ghost g = graph_of(*rule_dependency_map);
        let ghost before = marked(visited@);
        let ghost base = order@;
        if visited[rule_id] {
            proof {
                lemma_post_order_empty(g, before);
                assert(order@.skip(base.len() as int) =~= Seq::empty());
                assert(order@.take(base.len() as int) =~= base);
                assert forall|x: usize| !reaches_avoiding(g, before, rule_id, x) by {
                    if reaches_avoiding(g, before, rule_id, x) {
                        lemma_reaches_some(g, before, rule_id, x);
                    }
                }
            }
            return ;
        }
        visited.set(rule_id, true);
        let ghost entered = marked(visited@);
        proof {
            assert(entered =~= before.insert(rule_id));
            lemma_open_count_monotone(old(visited)@, visited@);
            assert(!old(visited)@[rule_id as int] && visited@[rule_id as int]);
        }
        let targets = match rule_dependency_map.get(&rule_id) {
            Some(set) => sorted_items(set),
            None => Vec::new(),
        };
        proof {
            assert forall|b: usize| targets@.contains(b) <==> edge(g, rule_id, b) by {
                assert(targets@.contains(b) <==> targets@.to_set().contains(b));
            }
            lemma_post_order_empty(g, entered);
            assert(order@.skip(base.len() as int) =~= Seq::empty());
            assert(order@.take(base.len() as int) =~= base);
        }
        let mut i: usize = 0;
        while i < targets.len()
            invariant
                i <= targets.len(),
                g == graph_of(*rule_dependency_map),
                bounded(g, visited@.len()),
                visited@.len() == old(visited)@.len(),
                before == marked(old(visited)@),
                entered == before.insert(rule_id),
                !before.contains(rule_id),
                rule_id < visited@.len(),
                base.len() <= order@.len(),
                order@.take(base.len() as int) == base,
                forall|b: usize| targets@.contains(b) <==> edge(g, rule_id, b),
                is_post_order(g, entered, marked(visited@), order@.skip(base.len() as int)),
                forall|x: usize|
                    #[trigger] order@.skip(base.len() as int).contains(x) ==> reaches_avoiding(
                        g,
                        before,
                        rule_id,
                        x,
                    ),
                forall|k: int| 0 <= k < i ==> marked(visited@).contains(#[trigger] targets@[k]),
                open_count(visited@) < open_count(old(visited)@),
            decreases targets.len() - i,
        {
            let target: usize = targets[i];
            let ghost between = marked(visited@);
            let ghost first = order@.skip(base.len() as int);
            let ghost flags = visited@;
            let ghost listed = order@;
            proof {
                assert(targets@.contains(target));
                assert(edge(g, rule_id, target));
            }
            Self::processing_order_dfs(order, visited, rule_dependency_map, target);
            proof {
                let second = order@.skip(listed.len() as int);
                let after = marked(visited@);
                lemma_post_order_append(g, entered, between, after, first, second);
                assert(order@ =~= listed + second);
                assert(order@.skip(base.len() as int) =~= first + second);
                assert(order@.take(base.len() as int) =~= base) by {
                    assert(order@.take(base.len() as int) =~= listed.take(base.len() as int));
                }
                assert(visited.len() == flags.len());
                assert forall|k: int| 0 <= k < flags.len() && #[trigger] flags[k] implies visited@[k] by {
                    assert(between.contains(k as usize));
                    assert(after.contains(k as usize));
                }
                lemma_open_count_monotone(flags, visited@);
                assert forall|x: usize| #[trigger] order@.skip(base.len() as int).contains(x) implies reaches_avoiding(g, before, rule_id, x) by {
                    if first.contains(x) {
                    } else {
                        assert(after.contains(x) && !entered.contains(x));
                        assert(second.contains(x)) by {
                            if between.contains(x) {
                                assert(first.contains(x));
                            }
                        }
                        assert(reaches_avoiding(g, between, target, x));
                        assert forall|y: usize| before.contains(y) implies between.contains(y) by {
                            assert(entered.contains(y));
                        }
                        lemma_reaches_less_blocked(g, between, before, target, x);
                        lemma_reaches_some(g, before, target, x);
                        lemma_reaches_edge(g, before, rule_id, target);
                        lemma_reaches_trans(g, before, rule_id, target, x);
                    }
                }
                assert forall|k: int| 0 <= k < i + 1 implies marked(visited@).contains(#[trigger] targets@[k]) by {
                    if k < i {
                        assert(between.contains(targets@[k]));
                    }
                }
            }
            i += 1;
        }
        let ghost below = order@.skip(base.len() as int);
        let ghost listed = order@;
        order.push(rule_id);
        proof {
            let after = marked(visited@);
            assert forall|y: usize| #[trigger] edge(g, rule_id, y) implies after.contains(y) by {
                assert(targets@.contains(y));
                let k = choose|k: int| 0 <= k < targets@.len() && targets@[k] == y;
                assert(after.contains(targets@[k]));
            }
            assert forall|x: usize| #[trigger] below.contains(x) implies reaches(g, rule_id, x) by {
                lemma_reaches_some(g, before, rule_id, x);
            }
            lemma_post_order_root(g, before, after, below, rule_id);
            let seg = order@.skip(base.len() as int);
            assert(seg =~= below.push(rule_id));
            assert(order@.take(base.len() as int) =~= listed.take(base.len() as int));
            assert(entered.contains(rule_id));
            assert(after.contains(rule_id));
            assert(seg.contains(rule_id)) by {
                assert(seg[below.len() as int] == rule_id);
            }
            assert forall|x: usize| seg.contains(x) <==> #[trigger] reaches_avoiding(
                g,
                before,
                rule_id,
                x,
            ) by {
                if reaches_avoiding(g, before, rule_id, x) {
                    lemma_search_finds(g, before, after, seg, rule_id, x);
                }
                if seg.contains(x) {
                    if x == rule_id {
                        lemma_reaches_self(g, before, rule_id);
                    } else {
                        let k = choose|k: int| 0 <= k < seg.len() && seg[k] == x;
                        assert(below[k] == x);
                        assert(below.contains(x));
                    }
                }
            }
        }
    }

    /// Visits the rules that lead to `rule_id` along the turned edges and
    /// appends each newly visited rule to the component `scc_id`, which is
    /// opened, and entered into `sccs_order`, where it does not exist yet.
    pub fn assigning_scc_dfs(
        transpose_dependency_graph: &HashMap<usize, HashSet<usize>>,
        rule_sccs: &mut HashMap<usize, Vec<usize>>,
        sccs_order: &mut Vec<usize>,
        rule_assigned: &mut Vec<bool>,
        rule_id: usize,
        scc_id: usize,
    )
        requires
            rule_id < old(rule_assigned).len(),
            bounded(graph_of(*transpose_dependency_graph), old(rule_assigned)@.len()),
        ensures
            final(rule_assigned)@.len() == old(rule_assigned)@.len(),
            old(rule_assigned)@[rule_id as int] ==> final(rule_assigned)@ == old(rule_assigned)@
                && final(rule_sccs)@ == old(rule_sccs)@ && final(sccs_order)@ == old(sccs_order)@,
            !old(rule_assigned)@[rule_id as int] ==> {
                &&& final(rule_sccs)@.dom() == old(rule_sccs)@.dom().insert(scc_id)
                &&& final(sccs_order)@ == if old(rule_sccs)@.contains_key(scc_id) {
                    old(sccs_order)@
                } else {
                    old(sccs_order)@.push(scc_id)
                }
            },
            forall|key: usize|
                key != scc_id && old(rule_sccs)@.contains_key(key)
                    ==> #[trigger] final(rule_sccs)@[key] == old(rule_sccs)@[key],
            group(old(rule_sccs)@, scc_id).len() <= group(final(rule_sccs)@, scc_id).len(),
            group(final(rule_sccs)@, scc_id).take(group(old(rule_sccs)@, scc_id).len() as int)
                == group(old(rule_sccs)@, scc_id),
            is_search(
                graph_of(*transpose_dependency_graph),
                marked(old(rule_assigned)@),
                marked(final(rule_assigned)@),
                group(final(rule_sccs)@, scc_id).skip(group(old(rule_sccs)@, scc_id).len() as int),
            ),
            marked(final(rule_assigned)@).contains(rule_id),
            !old(rule_assigned)@[rule_id as int] ==> group(old(rule_sccs)@, scc_id).len() < group(
                final(rule_sccs)@, scc_id).len() && group(final(rule_sccs)@, scc_id)[group(old(rule_sccs)@, scc_id).len() as int] == rule_id,
            forall|x: usize|
                group(final(rule_sccs)@, scc_id).skip(
                    group(old(rule_sccs)@, scc_id).len() as int,
                ).contains(x) <==> #[trigger] reaches_avoiding(
                    graph_of(*transpose_dependency_graph),
                    marked(old(rule_assigned)@),
                    rule_id,
                    x,
                ),
        decreases open_count(old(rule_assigned)@),
    {
        let ghost g = graph_of(*transpose_dependency_graph);
        let ghost before = marked(rule_assigned@);
        let ghost base = group(rule_sccs@, scc_id);
        let ghost groups = rule_sccs@;
        if rule_assigned[rule_id] {
            proof {
                assert(base.skip(base.len() as int) =~= Seq::empty());
                assert(base.take(base.len() as int) =~= base);
                assert forall|x: usize| !reaches_avoiding(g, before, rule_id, x) by {
                    if reaches_avoiding(g, before, rule_id, x) {
                        lemma_reaches_some(g, before, rule_id, x);
                    }
                }
            }
            return ;
        }
        rule_assigned.set(rule_id, true);
        let ghost entered = marked(rule_assigned@);
        proof {
            assert(entered =~= before.insert(rule_id));
            lemma_open_count_monotone(old(rule_assigned)@, rule_assigned@);
            assert(!old(rule_assigned)@[rule_id as int] && rule_assigned@[rule_id as int]);
        }
        let mut scc = match rule_sccs.remove(&scc_id) {
            Some(scc) => scc,
            None => {
                sccs_order.push(scc_id);
                Vec::new()
            },
        };
        assert(scc@ == base);
        scc.push(rule_id);
        rule_sccs.insert(scc_id, scc);
        let ghost opened = sccs_order@;
        proof {
            assert(group(rule_sccs@, scc_id) == base.push(rule_id));
            assert(rule_sccs@.dom() =~= groups.dom().insert(scc_id));
            assert(base.push(rule_id).skip(base.len() as int) =~= seq![rule_id]);
            assert(base.push(rule_id).take(base.len() as int) =~= base);
            assert forall|x: usize| #[trigger] seq![rule_id].contains(x) implies x == rule_id by {}
            assert(seq![rule_id][0] == rule_id);
            lemma_reaches_self(g, before, rule_id);
        }
        let targets = match transpose_dependency_graph.get(&rule_id) {
            Some(set) => sorted_items(set),
            None => Vec::new(),
        };
        proof {
            assert forall|b: usize| targets@.contains(b) <==> edge(g, rule_id, b) by {
                assert(targets@.contains(b) <==> targets@.to_set().contains(b));
            }
        }
        let mut i: usize = 0;
        while i < targets.len()
            invariant
                i <= targets.len(),
                g == graph_of(*transpose_dependency_graph),
                bounded(g, rule_assigned@.len()),
                rule_assigned@.len() == old(rule_assigned)@.len(),
                before == marked(old(rule_assigned)@),
                entered == before.insert(rule_id),
                !before.contains(rule_id),
                rule_id < rule_assigned@.len(),
                groups == old(rule_sccs)@,
                base == group(groups, scc_id),
                sccs_order@ == opened,
                rule_sccs@.dom() == groups.dom().insert(scc_id),
                forall|key: usize|
                    key != scc_id && groups.contains_key(key) ==> #[trigger] rule_sccs@[key]
                        == groups[key],
                base.len() < group(rule_sccs@, scc_id).len(),
                group(rule_sccs@, scc_id)[base.len() as int] == rule_id,
                group(rule_sccs@, scc_id).take(base.len() as int) == base,
                ({
                    let found = group(rule_sccs@, scc_id).skip(base.len() as int);
                    &&& found.no_duplicates()
                    &&& forall|x: usize|
                        #[trigger] found.contains(x) <==> marked(rule_assigned@).contains(x)
                            && !before.contains(x)
                    &&& forall|x: usize| #[trigger]
                        found.contains(x) ==> reaches_avoiding(g, before, rule_id, x)
                    &&& forall|x: usize, y: usize|
                        found.contains(x) && x != rule_id && #[trigger] edge(g, x, y) ==> marked(
                            rule_assigned@,
                        ).contains(y)
                }),
                forall|x: usize| #[trigger] before.contains(x) ==> marked(rule_assigned@).contains(x),
                marked(rule_assigned@).contains(rule_id),
                forall|b: usize| targets@.contains(b) <==> edge(g, rule_id, b),
                forall|k: int|
                    0 <= k < i ==> marked(rule_assigned@).contains(#[trigger] targets@[k]),
                open_count(rule_assigned@) < open_count(old(rule_assigned)@),
            decreases targets.len() - i,
        {
            let target: usize = targets[i];
            let ghost between = marked(rule_assigned@);
            let ghost listed = group(rule_sccs@, scc_id);
            let ghost first = listed.skip(base.len() as int);
            let ghost flags = rule_assigned@;
            proof {
                assert(targets@.contains(target));
                assert(edge(g, rule_id, target));
            }
            Self::assigning_scc_dfs(
                transpose_dependency_graph,
                rule_sccs,
                sccs_order,
                rule_assigned,
                target,
                scc_id,
            );
            proof {
                let now = group(rule_sccs@, scc_id);
                let second = now.skip(listed.len() as int);
                let after = marked(rule_assigned@);
                lemma_search_append(g, before, between, after, first, second);
                assert(now =~= listed + second);
                assert(now.skip(base.len() as int) =~= first + second);
                assert(now.take(base.len() as int) =~= listed.take(base.len() as int));
                assert(now[base.len() as int] == listed[base.len() as int]);
                assert(rule_sccs@.dom() =~= groups.dom().insert(scc_id));
                assert(rule_assigned.len() == flags.len());
                assert forall|k: int| 0 <= k < flags.len() && #[trigger] flags[k] implies rule_assigned@[k] by {
                    assert(between.contains(k as usize));
                    assert(after.contains(k as usize));
                }
                lemma_open_count_monotone(flags, rule_assigned@);
                let found = first + second;
                assert forall|x: usize| #[trigger] found.contains(x) implies reaches_avoiding(g, before, rule_id, x) by {
                    if first.contains(x) {
                    } else {
                        assert(second.contains(x)) by {
                            if between.contains(x) {
                                assert(first.contains(x));
                            }
                        }
                        assert(reaches_avoiding(g, between, target, x));
                        lemma_reaches_less_blocked(g, between, before, target, x);
                        lemma_reaches_some(g, before, target, x);
                        lemma_reaches_edge(g, before, rule_id, target);
                        lemma_reaches_trans(g, before, rule_id, target, x);
                    }
                }
                assert forall|x: usize, y: usize| found.contains(x) && x != rule_id && #[trigger] edge(g, x, y) implies after.contains(y) by {
                    if first.contains(x) {
                        assert(between.contains(y));
                    } else {
                        assert(second.contains(x)) by {
                            if between.contains(x) {
                                assert(first.contains(x));
                            }
                        }
                    }
                }
                assert forall|k: int| 0 <= k < i + 1 implies after.contains(#[trigger] targets@[k]) by {
                    if k < i {
                        assert(between.contains(targets@[k]));
                    }
                }
            }
            i += 1;
        }
        proof {
            let after = marked(rule_assigned@);
            let found = group(rule_sccs@, scc_id).skip(base.len() as int);
            assert forall|x: usize, y: usize| found.contains(x) && #[trigger] edge(g, x, y) implies after.contains(y) by {
                if x == rule_id {
                    assert(targets@.contains(y));
                    let k = choose|k: int| 0 <= k < targets@.len() && targets@[k] == y;
                    assert(after.contains(targets@[k]));
                }
            }
            let seen = Set::new(|y: usize| found.contains(y));
            assert forall|x: usize| found.contains(x) <==> #[trigger] reaches_avoiding(
                g,
                before,
                rule_id,
                x,
            ) by {
                if reaches_avoiding(g, before, rule_id, x) {
                    assert forall|a: usize, b: usize| seen.contains(a) && #[trigger] edge(g, a, b) implies seen.contains(b) || before.contains(b) by {
                        assert(after.contains(b));
                        if !before.contains(b) {
                            assert(found.contains(b));
                        }
                    }
                    assert(found.contains(rule_id));
                    lemma_closed_set(g, before, seen, rule_id, x);
                }
            }
        }
    }

    /// The components of the graph, those that others depend on first.
    pub(crate) fn components(map: &HashMap<usize, HashSet<usize>>, n: usize) -> (comps: Vec<Vec<usize>>)
        requires
            bounded(graph_of(*map), n as nat),
        ensures
            are_components(graph_of(*map), n as nat, lists(comps@)),
    {
        let ghost g = graph_of(*map);
        // post-order of a search over all rules
        let mut visited: Vec<bool> = Vec::new();
        let mut i: usize = 0;
        while i < n
            invariant
                i <= n,
                visited@.len() == i,
                forall|k: int| 0 <= k < i ==> !#[trigger] visited@[k],
            decreases n - i,
        {
            visited.push(false);
            i += 1;
        }
        let mut order: Vec<usize> = Vec::new();
        proof {
            assert(marked(visited@) =~= Set::empty());
            lemma_post_order_empty(g, Set::empty());
        }
        let mut rule_id: usize = 0;
        while rule_id < n
            invariant
                rule_id <= n,
                g == graph_of(*map),
                bounded(g, n as nat),
                visited@.len() == n,
                is_post_order(g, Set::empty(), marked(visited@), order@),
                forall|x: usize| x < rule_id ==> marked(visited@).contains(x),
            decreases n - rule_id,
        {
            let ghost listed = order@;
            let ghost between = marked(visited@);
            Self::processing_order_dfs(&mut order, &mut visited, map, rule_id);
            proof {
                let second = order@.skip(listed.len() as int);
                lemma_post_order_append(
                    g,
                    Set::empty(),
                    between,
                    marked(visited@),
                    listed,
                    second,
                );
                assert(order@ =~= listed + second);
                assert forall|x: usize| x < rule_id + 1 implies marked(visited@).contains(x) by {
                    if x < rule_id {
                        assert(between.contains(x));
                    }
                }
            }
            rule_id += 1;
        }
        assert(forall|x: usize| order@.contains(x) <==> x < n) by {
            assert forall|x: usize| order@.contains(x) <==> x < n by {
                assert(order@.contains(x) <==> marked(visited@).contains(x));
            }
        }
        // search along the turned edges, the last rule of the post-order first
        let transpose = Self::transpose_graph_from(map);
        let ghost t = graph_of(transpose);
        assert(bounded(t, n as nat)) by {
            assert forall|a: usize, b: usize| #[trigger] edge(t, a, b) implies a < n && b < n by {
                assert(edge(g, b, a));
            }
        }
        let mut rule_sccs: HashMap<usize, Vec<usize>> = HashMap::new();
        let mut sccs_order: Vec<usize> = Vec::new();
        let mut assigned: Vec<bool> = Vec::new();
        let mut i: usize = 0;
        while i < n
            invariant
                i <= n,
                assigned@.len() == i,
                forall|k: int| 0 <= k < i ==> !#[trigger] assigned@[k],
            decreases n - i,
        {
            assigned.push(false);
            i += 1;
        }
        assert(marked(assigned@) =~= Set::empty());
        assert(rule_sccs@.dom() =~= sccs_order@.to_set());
        let mut left: usize = order.len();
        while left > 0
            invariant
                left <= order.len(),
                g == graph_of(*map),
                t == graph_of(transpose),
                is_transpose(g, t),
                bounded(t, n as nat),
                is_post_order(g, Set::empty(), marked(visited@), order@),
                forall|x: usize| order@.contains(x) <==> x < n,
                assigned@.len() == n,
                // the assigned rules are the components of the rules from `left` on
                forall|x: usize|
                    #[trigger] marked(assigned@).contains(x) <==> in_tail(g, order@, left as int, x),
                Self::found_so_far(g, order@, left as int, rule_sccs@, sccs_order@),
            decreases left,
        {
            left -= 1;
            let v: usize = order[left];
            let ghost before = marked(assigned@);
            let ghost groups = rule_sccs@;
            let ghost opened = sccs_order@;
            let ghost flags = assigned@;
            proof {
                assert(order@.contains(v));
                assert(!before.contains(v) ==> !groups.contains_key(v)) by {
                    if groups.contains_key(v) {
                        assert(opened.to_set().contains(v));
                        let a = choose|a: int| 0 <= a < opened.len() && opened[a] == v;
                        assert(stands_in_tail(order@, left + 1, opened[a]));
                        let k = choose|k: int|
                            left + 1 <= k < order@.len() && #[trigger] order@[k] == opened[a];
                        lemma_mutual_self(g, v);
                        assert(mutual(g, order@[k], v));
                        assert(in_tail(g, order@, left + 1, v));
                    }
                }
            }
            Self::assigning_scc_dfs(
                &transpose,
                &mut rule_sccs,
                &mut sccs_order,
                &mut assigned,
                v,
                v,
            );
            proof {
                let after = marked(assigned@);
                lemma_mutual_self(g, v);
                assert forall|x: usize| in_tail(g, order@, left as int, x) <==> in_tail(
                    g,
                    order@,
                    left + 1,
                    x,
                ) || mutual(g, v, x) by {
                    if in_tail(g, order@, left as int, x) {
                        let k = choose|k: int|
                            left <= k < order@.len() && mutual(g, #[trigger] order@[k], x);
                        if k > left {
                            assert(mutual(g, order@[k], x));
                        }
                    }
                    if in_tail(g, order@, left + 1, x) {
                        let k = choose|k: int|
                            left + 1 <= k < order@.len() && mutual(g, #[trigger] order@[k], x);
                        assert(mutual(g, order@[k], x));
                    }
                    if mutual(g, v, x) {
                        assert(mutual(g, order@[left as int], x));
                    }
                }
                if flags[v as int] {
                    assert(before.contains(v));
                    assert(in_tail(g, order@, left + 1, v));
                    let m = choose|k: int|
                        left + 1 <= k < order@.len() && mutual(g, #[trigger] order@[k], v);
                    assert forall|x: usize| #[trigger] after.contains(x) <==> in_tail(
                        g,
                        order@,
                        left as int,
                        x,
                    ) by {
                        if mutual(g, v, x) {
                            lemma_mutual_trans(g, order@[m], v, x);
                            assert(in_tail(g, order@, left + 1, x));
                        }
                    }
                    Self::lemma_found_less(g, order@, left as int, groups, opened);
                } else {
                    assert(!before.contains(v));
                    let scc = group(rule_sccs@, v);
                    assert(group(groups, v) =~= Seq::empty());
                    assert(scc.skip(0) =~= scc);
                    assert forall|x: usize| scc.contains(x) implies order@.contains(x) by {
                        assert(after.contains(x));
                    }
                    assert forall|x: usize| scc.contains(x) <==> mutual(g, v, x) by {
                        assert(scc.contains(x) <==> reaches_avoiding(t, before, v, x));
                        Self::lemma_scc_member(
                            g,
                            t,
                            marked(visited@),
                            order@,
                            left as int,
                            before,
                            scc,
                            x,
                        );
                    }
                    assert(scc[0] == v);
                    assert(is_component(g, scc));
                    assert forall|x: usize| #[trigger] after.contains(x) <==> in_tail(
                        g,
                        order@,
                        left as int,
                        x,
                    ) by {
                        assert(after.contains(x) <==> before.contains(x) || scc.contains(x));
                    }
                    Self::lemma_found_more(
                        g,
                        marked(visited@),
                        order@,
                        left as int,
                        groups,
                        opened,
                        rule_sccs@,
                    );
                }
            }
        }
        // the components that others depend on first
        let mut comps: Vec<Vec<usize>> = Vec::new();
        let ghost found = rule_sccs@;
        let mut left: usize = sccs_order.len();
        while left > 0
            invariant
                left <= sccs_order.len(),
                Self::found_so_far(g, order@, 0, found, sccs_order@),
                comps@.len() == sccs_order.len() - left,
                forall|a: int|
                    0 <= a < left ==> rule_sccs@.contains_key(#[trigger] sccs_order@[a])
                        && rule_sccs@[sccs_order@[a]] == found[sccs_order@[a]],
                forall|a: int|
                    0 <= a < comps@.len() ==> (#[trigger] comps@[a])@ == group(
                        found,
                        sccs_order@[sccs_order.len() - 1 - a],
                    ),
            decreases left,
        {
            left -= 1;
            let ghost kept = rule_sccs@;
            let id: usize = sccs_order[left];
            assert(rule_sccs@.contains_key(sccs_order@[left as int]));
            assert(found.contains_key(id)) by {
                assert(sccs_order@.contains(id));
                assert(sccs_order@.to_set().contains(id));
            }
            let scc = rule_sccs.remove(&id);
            assert forall|a: int| 0 <= a < left implies rule_sccs@.contains_key(#[trigger] sccs_order@[a])
                && rule_sccs@[sccs_order@[a]] == found[sccs_order@[a]] by {
                assert(sccs_order@[a] != id);
                assert(kept.contains_key(sccs_order@[a]));
            }
            match scc {
                Some(scc) => comps.push(scc),
                None => comps.push(Vec::new()),
            }
        }
        proof {
            Self::lemma_components_complete(g, n as nat, order@, found, sccs_order@, lists(comps@));
        }
        comps
    }

    /// What is known of the components after the rules from position `left` of
    /// the post-order on have been searched from.
    spec fn found_so_far(
        g: Graph,
        order: Seq<usize>,
        left: int,
        groups: Map<usize, Vec<usize>>,
        opened: Seq<usize>,
    ) -> bool {
        &&& groups.dom() == opened.to_set()
        &&& opened.no_duplicates()
        &&& forall|a: int|
            0 <= a < opened.len() ==> is_component(g, group(groups, #[trigger] opened[a])) && group(
                groups,
                opened[a],
            )[0] == opened[a]
        &&& forall|a: int|
            0 <= a < opened.len() ==> #[trigger] stands_in_tail(order, left, opened[a])
        &&& forall|k: int|
            left <= k < order.len() ==> #[trigger] in_tail(g, opened, 0, order[k])
        &&& forall|a: int, b: int|
            #![trigger opened[a], opened[b]]
            0 <= a < b < opened.len() ==> !reaches(g, opened[b], opened[a])
    }

    proof fn lemma_found_less(
        g: Graph,
        order: Seq<usize>,
        left: int,
        groups: Map<usize, Vec<usize>>,
        opened: Seq<usize>,
    )
        requires
            0 <= left < order.len(),
            Self::found_so_far(g, order, left + 1, groups, opened),
            in_tail(g, order, left + 1, order[left]),
        ensures
            Self::found_so_far(g, order, left, groups, opened),
    {
        assert forall|a: int| 0 <= a < opened.len() implies #[trigger] stands_in_tail(
            order,
            left,
            opened[a],
        ) by {
            assert(stands_in_tail(order, left + 1, opened[a]));
            let k = choose|k: int| left + 1 <= k < order.len() && #[trigger] order[k] == opened[a];
            assert(order[k] == opened[a]);
        }
        let m = choose|k: int| left + 1 <= k < order.len() && mutual(g, #[trigger] order[k], order[left]);
        assert(in_tail(g, opened, 0, order[m]));
        let a = choose|a: int| 0 <= a < opened.len() && mutual(g, #[trigger] opened[a], order[m]);
        lemma_mutual_trans(g, opened[a], order[m], order[left]);
        assert forall|k: int| left <= k < order.len() implies #[trigger] in_tail(
            g,
            opened,
            0,
            order[k],
        ) by {
            if k == left {
                assert(mutual(g, opened[a], order[k]));
            }
        }
    }

    proof fn lemma_found_more(
        g: Graph,
        after: Set<usize>,
        order: Seq<usize>,
        left: int,
        groups: Map<usize, Vec<usize>>,
        opened: Seq<usize>,
        now: Map<usize, Vec<usize>>,
    )
        requires
            0 <= left < order.len(),
            is_post_order(g, Set::empty(), after, order),
            Self::found_so_far(g, order, left + 1, groups, opened),
            !in_tail(g, order, left + 1, order[left]),
            !groups.contains_key(order[left]),
            now.dom() == groups.dom().insert(order[left]),
            forall|key: usize|
                key != order[left] && groups.contains_key(key) ==> #[trigger] now[key] == groups[key],
            is_component(g, group(now, order[left])),
            group(now, order[left])[0] == order[left],
        ensures
            Self::found_so_far(g, order, left, now, opened.push(order[left])),
    {
        let v = order[left];
        let more = opened.push(v);
        assert(!opened.contains(v)) by {
            if opened.contains(v) {
                assert(opened.to_set().contains(v));
            }
        }
        assert(now.dom() =~= more.to_set()) by {
            assert forall|x: usize| more.to_set().contains(x) <==> opened.to_set().contains(x) || x == v by {
                if opened.contains(x) {
                    let a = choose|a: int| 0 <= a < opened.len() && opened[a] == x;
                    assert(more[a] == x);
                }
                assert(more[opened.len() as int] == v);
            }
        }
        assert forall|a: int| 0 <= a < more.len() implies is_component(g, group(now, #[trigger] more[a])) && group(now, more[a])[0] == more[a] by {
            if a < opened.len() {
                assert(opened.contains(opened[a]));
                assert(opened.to_set().contains(opened[a]));
                assert(group(now, opened[a]) == group(groups, opened[a]));
            }
        }
        assert forall|a: int| 0 <= a < more.len() implies #[trigger] stands_in_tail(
            order,
            left,
            more[a],
        ) by {
            if a < opened.len() {
                assert(stands_in_tail(order, left + 1, opened[a]));
                let k = choose|k: int|
                    left + 1 <= k < order.len() && #[trigger] order[k] == opened[a];
                assert(order[k] == more[a]);
            } else {
                assert(order[left] == more[a]);
            }
        }
        assert forall|k: int| left <= k < order.len() implies #[trigger] in_tail(
            g,
            more,
            0,
            order[k],
        ) by {
            if k == left {
                lemma_mutual_self(g, v);
                assert(mutual(g, more[opened.len() as int], order[k]));
            } else {
                assert(in_tail(g, opened, 0, order[k]));
                let a = choose|a: int|
                    0 <= a < opened.len() && mutual(g, #[trigger] opened[a], order[k]);
                assert(mutual(g, more[a], order[k]));
            }
        }
        assert forall|a: int, b: int|
            #![trigger more[a], more[b]]
            0 <= a < b < more.len() implies !reaches(g, more[b], more[a]) by {
            if b < opened.len() {
                assert(!reaches(g, opened[b], opened[a]));
            } else if reaches(g, v, opened[a]) {
                assert(stands_in_tail(order, left + 1, opened[a]));
                let m = choose|k: int|
                    left + 1 <= k < order.len() && #[trigger] order[k] == opened[a];
                assert(reaches_avoiding(g, Set::empty(), order[left], order[m]));
                assert(ends_later(g, order, order[left], m));
                let k = choose|k: int| m <= k < order.len() && mutual(g, order[left], #[trigger] order[k]);
                assert(mutual(g, order[k], v));
                assert(in_tail(g, order, left + 1, v));
            }
        }
        assert(more.no_duplicates());
    }

    proof fn lemma_scc_member(
        g: Graph,
        t: Graph,
        after: Set<usize>,
        order: Seq<usize>,
        left: int,
        before: Set<usize>,
        scc: Seq<usize>,
        x: usize,
    )
        requires
            0 <= left < order.len(),
            is_transpose(g, t),
            is_post_order(g, Set::empty(), after, order),
            forall|y: usize| #[trigger] before.contains(y) <==> in_tail(g, order, left + 1, y),
            !before.contains(order[left]),
            scc.contains(x) <==> reaches_avoiding(t, before, order[left], x),
            scc.contains(x) ==> order.contains(x),
        ensures
            scc.contains(x) <==> mutual(g, order[left], x),
    {
        let v = order[left];
        lemma_transpose_reaches(g, t, before, v, x);
        if scc.contains(x) {
            assert(reaches_avoiding(g, before, x, v));
            lemma_reaches_some(g, before, x, v);
            let i = choose|i: int| 0 <= i < order.len() && order[i] == x;
            assert(reaches_avoiding(g, Set::empty(), order[i], order[left]));
            assert(ends_later(g, order, order[i], left));
            let k = choose|k: int| left <= k < order.len() && mutual(g, order[i], #[trigger] order[k]);
            if k > left {
                assert(mutual(g, order[k], x));
                assert(in_tail(g, order, left + 1, x));
                assert(before.contains(x));
            }
        }
        if mutual(g, v, x) {
            let p = choose|p: Seq<usize>| connects(g, Set::empty(), p, x, v);
            assert forall|k: int| 0 <= k < p.len() implies !before.contains(#[trigger] p[k]) by {
                if before.contains(p[k]) {
                    assert(in_tail(g, order, left + 1, p[k]));
                    let m = choose|m: int| left + 1 <= m < order.len() && mutual(g, #[trigger] order[m], p[k]);
                    lemma_path_parts(g, Set::empty(), p, x, v, k);
                    lemma_reaches_trans(g, Set::empty(), v, x, p[k]);
                    assert(mutual(g, p[k], v));
                    lemma_mutual_trans(g, order[m], p[k], v);
                    assert(in_tail(g, order, left + 1, v));
                }
            }
            assert(connects(g, before, p, x, v));
        }
    }

    proof fn lemma_components_complete(
        g: Graph,
        n: nat,
        order: Seq<usize>,
        groups: Map<usize, Vec<usize>>,
        opened: Seq<usize>,
        comps: Seq<Seq<usize>>,
    )
        requires
            Self::found_so_far(g, order, 0, groups, opened),
            forall|x: usize| order.contains(x) <==> x < n,
            bounded(g, n),
            comps.len() == opened.len(),
            forall|a: int|
                0 <= a < comps.len() ==> #[trigger] comps[a] == group(
                    groups,
                    opened[opened.len() - 1 - a],
                ),
        ensures
            are_components(g, n, comps),
    {
        assert forall|a: int| 0 <= a < comps.len() implies is_component(g, #[trigger] comps[a])
            && comps[a][0] == opened[opened.len() - 1 - a] by {
            let b = opened.len() - 1 - a;
            assert(is_component(g, group(groups, opened[b])));
        }
        assert forall|a: int, x: usize| 0 <= a < comps.len() && #[trigger] comps[a].contains(x) implies x < n by {
            let c = comps[a][0];
            assert(c == opened[opened.len() - 1 - a]);
            assert(stands_in_tail(order, 0, opened[opened.len() - 1 - a]));
            let k = choose|k: int|
                0 <= k < order.len() && #[trigger] order[k] == opened[opened.len() - 1 - a];
            assert(order.contains(c));
            if x != c {
                assert(reaches(g, x, c));
                let y = lemma_first_edge(g, x, c);
                assert(edge(g, x, y));
            }
        }
        assert forall|x: usize| x < n implies #[trigger] in_some(comps, x) by {
            assert(order.contains(x));
            let k = choose|k: int| 0 <= k < order.len() && order[k] == x;
            assert(in_tail(g, opened, 0, order[k]));
            let b = choose|b: int| 0 <= b < opened.len() && mutual(g, #[trigger] opened[b], order[k]);
            let a = opened.len() - 1 - b;
            assert(comps[a][0] == opened[b]);
            assert(comps[a].contains(x));
        }
        assert forall|a: int, b: int|
            #![trigger comps[a], comps[b]]
            0 <= a < comps.len() && 0 <= b < comps.len() && reaches(g, comps[a][0], comps[b][0]) implies b <= a by {
            let ia = opened.len() - 1 - a;
            let ib = opened.len() - 1 - b;
            if ib < ia {
                assert(!reaches(g, opened[ia], opened[ib]));
            }
        }
    }
}

/// Whether a vertex stands at position `left` or later.
spec fn stands_in_tail(order: Seq<usize>, left: int, x: usize) -> bool {
    exists|k: int| left <= k < order.len() && #[trigger] order[k] == x
}

/// Whether a vertex is on a common cycle with one from position `left` on.
spec fn in_tail(g: Graph, order: Seq<usize>, left: int, x: usize) -> bool {
    exists|k: int| left <= k < order.len() && mutual(g, #[trigger] order[k], x)
}

} // verus!
