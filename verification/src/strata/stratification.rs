//! Strata: groups of rules that are evaluated together, in evaluation order.
use std::collections::{HashMap, HashSet};
use vstd::prelude::*;
use vstd::string::*;
use crate::lists::{empty, group_take, push};
use crate::parsing::parser::Program;
use crate::parsing::rule::{FLRule, FLRuleModel};
use crate::sorted::{
    ascending, in_order, insert_sorted, lemma_in_order, numbers_text, render_numbers, sorted_items,
};
use crate::strata::components::{
    are_components, in_some, lemma_open_count_monotone, lists, marked, open_count,
};
use crate::strata::dependencies::{dependencies, graph_of, DependencyGraph};
use crate::strata::graph::{
    bounded, cyclic, edge, is_component, lemma_cyclic_mutual, lemma_mutual_self, lemma_mutual_trans,
    lemma_reaches_edge, lemma_reaches_trans, mutual, reaches, Graph,
};
use crate::text::{nat_text, usize_to_text, Render, Written};

verus! {

broadcast use vstd::std_specs::hash::group_hash_axioms;

/// The strata of a program.
#[derive(Debug)]
pub struct Strata {
    pub fl_program: Program,
    pub dependency_graph: DependencyGraph,
    pub strata: Vec<Vec<usize>>,
    pub is_recursive_strata_bitmap: Vec<bool>,
}

/// Whether a rule can be evaluated once the rules of `done` have been: it is not
/// done yet, and what the rules on a common cycle with it depend on is done or
/// on that cycle too.
pub open spec fn ready(g: Graph, done: Set<usize>, r: usize) -> bool {
    &&& !done.contains(r)
    &&& forall|x: usize, y: usize|
        mutual(g, r, x) && #[trigger] edge(g, x, y) ==> done.contains(y) || mutual(g, r, y)
}

/// Whether `batch` are the strata of one round: all rules that have become
/// ready, the acyclic ones together in a first stratum that is not recursive,
/// and every component of cyclic ones in a recursive stratum of its own.
pub open spec fn is_round(
    g: Graph,
    n: nat,
    done: Set<usize>,
    batch: Seq<Seq<usize>>,
    flags: Seq<bool>,
) -> bool {
    &&& batch.len() == flags.len()
    &&& batch.len() > 0
    &&& forall|k: int|
        0 <= k < batch.len() ==> (#[trigger] batch[k]).no_duplicates() && batch[k].len() > 0
    &&& forall|k: int, r: usize|
        0 <= k < batch.len() && #[trigger] batch[k].contains(r) ==> r < n
    &&& forall|k: int| 1 <= k < flags.len() ==> #[trigger] flags[k]
    &&& forall|r: usize|
        r < n ==> ((#[trigger] ready(g, done, r) && !cyclic(g, r)) <==> (!flags[0]
            && batch[0].contains(r)))
    &&& forall|k: int|
        #![trigger batch[k]]
        0 <= k < batch.len() && flags[k] ==> is_component(g, batch[k]) && ready(
            g,
            done,
            batch[k][0],
        ) && cyclic(g, batch[k][0])
    &&& forall|r: usize|
        r < n && #[trigger] ready(g, done, r) && cyclic(g, r) ==> in_some(batch, r)
    &&& forall|j: int, k: int|
        #![trigger batch[j], batch[k]]
        0 <= j < batch.len() && 0 <= k < batch.len() && j != k ==> !batch[j].contains(batch[k][0])
}

/// The rules of the given strata.
pub open spec fn members(strata: Seq<Seq<usize>>) -> Set<usize> {
    Set::new(|r: usize| in_some(strata, r))
}

/// Whether the strata between two neighbouring positions of `cuts` are a round.
pub open spec fn round_at(
    g: Graph,
    n: nat,
    strata: Seq<Seq<usize>>,
    flags: Seq<bool>,
    cuts: Seq<int>,
    i: int,
) -> bool {
    &&& 0 <= cuts[i] < cuts[i + 1] <= strata.len()
    &&& is_round(
        g,
        n,
        members(strata.take(cuts[i])),
        strata.subrange(cuts[i], cuts[i + 1]),
        flags.subrange(cuts[i], cuts[i + 1]),
    )
}

/// Whether the strata are made up of rounds that begin at the positions `cuts`.
pub open spec fn in_rounds(
    g: Graph,
    n: nat,
    strata: Seq<Seq<usize>>,
    flags: Seq<bool>,
    cuts: Seq<int>,
) -> bool {
    &&& cuts.len() > 0
    &&& cuts[0] == 0
    &&& cuts.last() == strata.len()
    &&& flags.len() == strata.len()
    &&& forall|i: int|
        0 <= i < cuts.len() - 1 ==> #[trigger] round_at(g, n, strata, flags, cuts, i)
}

/// Whether these are strata of the first `n` rules, with the recursive ones
/// marked: rounds in which every rule appears as early as its dependencies
/// allow, until all rules have appeared. The order of the rules inside a
/// stratum and of the recursive strata inside a round is left open.
pub open spec fn is_stratification(
    g: Graph,
    n: nat,
    strata: Seq<Seq<usize>>,
    flags: Seq<bool>,
) -> bool {
    &&& exists|cuts: Seq<int>| in_rounds(g, n, strata, flags, cuts)
    &&& forall|r: usize| #[trigger] in_some(strata, r) <==> r < n
}

proof fn lemma_ready_mutual(g: Graph, done: Set<usize>, a: usize, b: usize)
    requires
        mutual(g, a, b),
        done.contains(a) <==> done.contains(b),
    ensures
        ready(g, done, a) <==> ready(g, done, b),
{
    if ready(g, done, a) {
        lemma_ready_moves(g, done, a, b);
    }
    if ready(g, done, b) {
        lemma_ready_moves(g, done, b, a);
    }
}

proof fn lemma_ready_moves(g: Graph, done: Set<usize>, a: usize, b: usize)
    requires
        mutual(g, a, b),
        ready(g, done, a),
        !done.contains(b),
    ensures
        ready(g, done, b),
{
    assert forall|x: usize, y: usize| mutual(g, b, x) && #[trigger] edge(g, x, y) implies done.contains(y) || mutual(g, b, y) by {
        lemma_mutual_trans(g, a, b, x);
        if !done.contains(y) {
            lemma_mutual_trans(g, b, a, y);
        }
    }
}

/// Two components with a common member are the same.
proof fn lemma_same_component(g: Graph, n: nat, comps: Seq<Seq<usize>>, a: int, b: int, x: usize)
    requires
        are_components(g, n, comps),
        0 <= a < comps.len(),
        0 <= b < comps.len(),
        comps[a].contains(x),
        comps[b].contains(x),
    ensures
        a == b,
{
    assert(is_component(g, comps[a]) && is_component(g, comps[b]));
    lemma_mutual_trans(g, comps[a][0], x, comps[b][0]);
}

/// Whether `done` holds each component as a whole.
spec fn whole(comps: Seq<Seq<usize>>, done: Set<usize>) -> bool {
    forall|a: int, x: usize|
        0 <= a < comps.len() && #[trigger] comps[a].contains(x) ==> (done.contains(x)
            <==> done.contains(comps[a][0]))
}

/// What one pass over the components picks out.
spec fn picked(
    g: Graph,
    comps: Seq<Seq<usize>>,
    done: Set<usize>,
    upto: int,
    plain: Seq<usize>,
    recursive: Seq<Seq<usize>>,
    source: Seq<int>,
) -> bool {
    &&& plain.no_duplicates()
    &&& forall|r: usize|
        #[trigger] plain.contains(r) <==> exists|a: int|
            0 <= a < upto && ready(g, done, comps[a][0]) && !cyclic(g, comps[a][0])
                && #[trigger] comps[a].contains(r)
    &&& recursive.len() == source.len()
    &&& forall|k: int|
        #![trigger source[k]]
        0 <= k < source.len() ==> 0 <= source[k] < upto && recursive[k] == comps[source[k]]
            && ready(g, done, comps[source[k]][0]) && cyclic(g, comps[source[k]][0])
    &&& source.no_duplicates()
    &&& forall|a: int|
        #![trigger comps[a]]
        0 <= a < upto && ready(g, done, comps[a][0]) && cyclic(g, comps[a][0]) ==> source.contains(a)
}

#[verifier::spinoff_prover]
proof fn lemma_picked_is_round(
    g: Graph,
    n: nat,
    comps: Seq<Seq<usize>>,
    done: Set<usize>,
    plain: Seq<usize>,
    recursive: Seq<Seq<usize>>,
    source: Seq<int>,
    batch: Seq<Seq<usize>>,
    flags: Seq<bool>,
)
    requires
        are_components(g, n, comps),
        whole(comps, done),
        picked(g, comps, done, comps.len() as int, plain, recursive, source),
        exists|a: int| 0 <= a < comps.len() && ready(g, done, (#[trigger] comps[a])[0]),
        plain.len() > 0 ==> batch == seq![plain] + recursive && flags == seq![false] + Seq::new(
            recursive.len(),
            |k: int| true,
        ),
        plain.len() == 0 ==> batch == recursive && flags == Seq::new(recursive.len(), |k: int| true),
    ensures
        is_round(g, n, done, batch, flags),
        forall|r: usize|
            in_some(batch, r) <==> exists|a: int|
                0 <= a < comps.len() && ready(g, done, comps[a][0]) && #[trigger] comps[a].contains(r),
{
    let first = if plain.len() > 0 { 1int } else { 0int };
    let b = choose|a: int| 0 <= a < comps.len() && ready(g, done, (#[trigger] comps[a])[0]);
    assert(is_component(g, comps[b]));
    assert(comps[b].contains(comps[b][0]));
    if cyclic(g, comps[b][0]) {
        assert(source.contains(b));
    } else {
        assert(plain.contains(comps[b][0]));
    }
    assert forall|k: int| first <= k < batch.len() implies #[trigger] batch[k] == comps[source[k - first]] by {
        assert(0 <= source[k - first] < comps.len());
    }
    assert forall|k: int| 0 <= k < batch.len() implies (#[trigger] batch[k]).no_duplicates() && batch[k].len() > 0 by {
        if k >= first {
            assert(0 <= source[k - first] < comps.len());
            assert(is_component(g, comps[source[k - first]]));
        }
    }
    assert forall|k: int, r: usize| 0 <= k < batch.len() && #[trigger] batch[k].contains(r) implies r < n by {
        if k >= first {
            assert(0 <= source[k - first] < comps.len());
            assert(comps[source[k - first]].contains(r));
        } else {
            assert(plain.contains(r));
            let a = choose|a: int|
                0 <= a < comps.len() && ready(g, done, comps[a][0]) && !cyclic(g, comps[a][0])
                    && #[trigger] comps[a].contains(r);
            assert(comps[a].contains(r));
        }
    }
    assert forall|r: usize| r < n implies ((#[trigger] ready(g, done, r) && !cyclic(g, r)) <==> (
    !flags[0] && batch[0].contains(r))) by {
        lemma_ready_in_component(g, n, comps, done, r);
        assert(in_some(comps, r));
        let a = choose|a: int| 0 <= a < comps.len() && #[trigger] comps[a].contains(r);
        if plain.contains(r) {
            let c = choose|c: int|
                0 <= c < comps.len() && ready(g, done, comps[c][0]) && !cyclic(g, comps[c][0])
                    && #[trigger] comps[c].contains(r);
            lemma_same_component(g, n, comps, a, c, r);
        }
        if plain.len() > 0 {
            assert(batch[0] == plain);
            assert(!flags[0]);
        } else {
            assert(flags[0]);
            if ready(g, done, r) && !cyclic(g, r) {
                assert(plain.contains(r));
            }
        }
    }
    assert forall|k: int|
        #![trigger batch[k]]
        0 <= k < batch.len() && flags[k] implies is_component(g, batch[k]) && ready(
        g,
        done,
        batch[k][0],
    ) && cyclic(g, batch[k][0]) by {
        if k >= first {
            assert(0 <= source[k - first] < comps.len());
        }
    }
    assert forall|r: usize| r < n && #[trigger] ready(g, done, r) && cyclic(g, r) implies in_some(batch, r) by {
        lemma_ready_in_component(g, n, comps, done, r);
        assert(in_some(comps, r));
        let a = choose|a: int| 0 <= a < comps.len() && #[trigger] comps[a].contains(r);
        assert(source.contains(a));
        let k = choose|k: int| 0 <= k < source.len() && source[k] == a;
        assert(batch[first + k] == comps[a]);
        assert(batch[first + k].contains(r));
    }
    assert forall|j: int, k: int|
        #![trigger batch[j], batch[k]]
        0 <= j < batch.len() && 0 <= k < batch.len() && j != k implies !batch[j].contains(batch[k][0]) by {
        let x = batch[k][0];
        assert(batch[k].contains(x));
        if batch[j].contains(x) {
            if j >= first && k >= first {
                assert(0 <= source[j - first] < comps.len() && 0 <= source[k - first] < comps.len());
                lemma_same_component(g, n, comps, source[j - first], source[k - first], x);
            } else {
                let other = if j >= first { j } else { k };
                assert(0 <= source[other - first] < comps.len());
                assert(plain.contains(x));
                let c = choose|c: int|
                    0 <= c < comps.len() && ready(g, done, comps[c][0]) && !cyclic(g, comps[c][0])
                        && #[trigger] comps[c].contains(x);
                lemma_same_component(g, n, comps, source[other - first], c, x);
            }
        }
    }
    assert forall|r: usize| in_some(batch, r) <==> exists|a: int|
        0 <= a < comps.len() && ready(g, done, comps[a][0]) && #[trigger] comps[a].contains(r) by {
        if in_some(batch, r) {
            let k = choose|k: int| 0 <= k < batch.len() && #[trigger] batch[k].contains(r);
            if k >= first {
                assert(0 <= source[k - first] < comps.len());
                assert(comps[source[k - first]].contains(r));
            } else {
                assert(plain.contains(r));
            }
        }
        if exists|a: int|
            0 <= a < comps.len() && ready(g, done, comps[a][0]) && #[trigger] comps[a].contains(r) {
            let a = choose|a: int|
                0 <= a < comps.len() && ready(g, done, comps[a][0]) && #[trigger] comps[a].contains(r);
            if cyclic(g, comps[a][0]) {
                assert(source.contains(a));
                let k = choose|k: int| 0 <= k < source.len() && source[k] == a;
                assert(batch[first + k].contains(r));
            } else {
                assert(plain.contains(r));
                assert(batch[0].contains(r));
            }
        }
    }
}

proof fn lemma_ready_in_component(
    g: Graph,
    n: nat,
    comps: Seq<Seq<usize>>,
    done: Set<usize>,
    r: usize,
)
    requires
        are_components(g, n, comps),
        whole(comps, done),
        r < n,
    ensures
        forall|a: int|
            0 <= a < comps.len() && #[trigger] comps[a].contains(r) ==> (ready(g, done, r) <==> ready(
                g,
                done,
                comps[a][0],
            )) && (cyclic(g, r) <==> cyclic(g, comps[a][0])),
{
    assert forall|a: int| 0 <= a < comps.len() && #[trigger] comps[a].contains(r) implies (ready(
        g,
        done,
        r,
    ) <==> ready(g, done, comps[a][0])) && (cyclic(g, r) <==> cyclic(g, comps[a][0])) by {
        assert(is_component(g, comps[a]));
        assert(mutual(g, comps[a][0], r));
        lemma_ready_mutual(g, done, comps[a][0], r);
        lemma_cyclic_mutual(g, comps[a][0], r);
    }
}

impl Strata {
    /// Whether a component can be evaluated once the rules of `done` have been.
    fn is_ready(
        map: &HashMap<usize, HashSet<usize>>,
        comp: &Vec<usize>,
        done: &Vec<bool>,
    ) -> (answer: bool)
        requires
            bounded(graph_of(*map), done@.len()),
            is_component(graph_of(*map), comp@),
            forall|x: usize| comp@.contains(x) ==> x < done@.len(),
            forall|x: usize|
                comp@.contains(x) ==> (marked(done@).contains(x) <==> marked(done@).contains(comp@[0])),
        ensures
            answer == ready(graph_of(*map), marked(done@), comp@[0]),
    {
        let ghost g = graph_of(*map);
        let ghost c = comp@[0];
        proof {
            lemma_mutual_self(g, c);
            assert(comp@.contains(c));
        }
        if done[comp[0]] {
            return false;
        }
        let mut i: usize = 0;
        while i < comp.len()
            invariant
                i <= comp.len(),
                g == graph_of(*map),
                c == comp@[0],
                bounded(g, done@.len()),
                is_component(g, comp@),
                forall|x: usize| comp@.contains(x) ==> x < done@.len(),
                !marked(done@).contains(c),
                forall|k: int, y: usize|
                    0 <= k < i && #[trigger] edge(g, comp@[k], y) ==> marked(done@).contains(y)
                        || comp@.contains(y),
            decreases comp.len() - i,
        {
            let x: usize = comp[i];
            assert(comp@.contains(x));
            let targets = match map.get(&x) {
                Some(set) => sorted_items(set),
                None => Vec::new(),
            };
            proof {
                assert forall|b: usize| targets@.contains(b) <==> edge(g, x, b) by {
                    assert(targets@.contains(b) <==> targets@.to_set().contains(b));
                }
            }
            let mut j: usize = 0;
            while j < targets.len()
                invariant
                    j <= targets.len(),
                    i < comp.len(),
                    g == graph_of(*map),
                    c == comp@[0],
                    x == comp@[i as int],
                    bounded(g, done@.len()),
                    is_component(g, comp@),
                    !marked(done@).contains(c),
                    forall|b: usize| targets@.contains(b) <==> edge(g, x, b),
                    forall|k: int|
                        0 <= k < j ==> marked(done@).contains(#[trigger] targets@[k])
                            || comp@.contains(targets@[k]),
                decreases targets.len() - j,
            {
                let y: usize = targets[j];
                assert(targets@.contains(y));
                assert(edge(g, x, y));
                if !done[y] && !contains_index(comp, y) {
                    assert(comp@.contains(x));
                    assert(mutual(g, c, x));
                    assert(!mutual(g, c, y));
                    return false;
                }
                j += 1;
            }
            proof {
                assert forall|k: int, y: usize| 0 <= k < i + 1 && #[trigger] edge(g, comp@[k], y) implies marked(done@).contains(y)
                        || comp@.contains(y) by {
                    if k == i {
                        assert(targets@.contains(y));
                        let m = choose|m: int| 0 <= m < targets@.len() && targets@[m] == y;
                        assert(marked(done@).contains(targets@[m]) || comp@.contains(targets@[m]));
                    }
                }
            }
            i += 1;
        }
        proof {
            assert forall|x: usize, y: usize| mutual(g, c, x) && #[trigger] edge(g, x, y) implies marked(done@).contains(y) || mutual(g, c, y) by {
                assert(comp@.contains(x));
                let k = choose|k: int| 0 <= k < comp@.len() && comp@[k] == x;
                assert(edge(g, comp@[k], y));
            }
        }
        true
    }

    /// Whether the members of a component lie on a cycle.
    fn is_cyclic(map: &HashMap<usize, HashSet<usize>>, comp: &Vec<usize>) -> (answer: bool)
        requires
            is_component(graph_of(*map), comp@),
        ensures
            answer == cyclic(graph_of(*map), comp@[0]),
    {
        let ghost g = graph_of(*map);
        let id: usize = comp[0];
        if comp.len() > 1 {
            proof {
                let other = comp@[1];
                assert(comp@.contains(other));
                assert(comp@[0] != comp@[1]);
                lemma_cyclic_mutual(g, id, other);
            }
            return true;
        }
        let own = match map.get(&id) {
            Some(set) => set.contains(&id),
            None => false,
        };
        proof {
            lemma_mutual_self(g, id);
            assert(own == edge(g, id, id));
            if cyclic(g, id) {
                let y = choose|y: usize| #[trigger] edge(g, id, y) && reaches(g, y, id);
                lemma_reaches_edge(g, Set::empty(), id, y);
                assert(comp@.contains(y));
                assert(y == id);
            }
        }
        own
    }

    /// One pass over the components: picks out those that are ready, marks them
    /// in `merged`, and gathers the acyclic rules and the cyclic components.
    fn pick(
        map: &HashMap<usize, HashSet<usize>>,
        comps: &Vec<Vec<usize>>,
        merged: &mut Vec<bool>,
        done: &Vec<bool>,
    ) -> (out: (Vec<usize>, Vec<Vec<usize>>, Ghost<Seq<int>>))
        requires
            bounded(graph_of(*map), done@.len()),
            are_components(graph_of(*map), done@.len(), lists(comps@)),
            whole(lists(comps@), marked(done@)),
            old(merged)@.len() == comps@.len(),
            forall|a: int|
                0 <= a < comps@.len() ==> (#[trigger] old(merged)@[a] <==> marked(done@).contains(
                    comps@[a]@[0],
                )),
        ensures
            final(merged)@.len() == comps@.len(),
            forall|a: int|
                0 <= a < comps@.len() ==> (#[trigger] final(merged)@[a] <==> old(merged)@[a] || ready(
                    graph_of(*map),
                    marked(done@),
                    comps@[a]@[0],
                )),
            picked(
                graph_of(*map),
                lists(comps@),
                marked(done@),
                comps@.len() as int,
                out.0@,
                lists(out.1@),
                out.2@,
            ),
    {
        let ghost g = graph_of(*map);
        let ghost all = lists(comps@);
        let ghost ready_set = marked(done@);
        let ghost n = done@.len();
        let mut plain: Vec<usize> = Vec::new();
        let mut recursive: Vec<Vec<usize>> = Vec::new();
        let ghost mut source: Seq<int> = Seq::empty();
        let mut i: usize = 0;
        while i < comps.len()
            invariant
                i <= comps.len(),
                g == graph_of(*map),
                all == lists(comps@),
                ready_set == marked(done@),
                n == done@.len(),
                bounded(g, n),
                are_components(g, n, all),
                whole(all, ready_set),
                old(merged)@.len() == comps@.len(),
                merged@.len() == comps@.len(),
                forall|a: int|
                    0 <= a < comps@.len() ==> (#[trigger] old(merged)@[a] <==> ready_set.contains(
                        comps@[a]@[0],
                    )),
                forall|a: int|
                    0 <= a < i ==> (#[trigger] merged@[a] <==> old(merged)@[a] || ready(
                        g,
                        ready_set,
                        comps@[a]@[0],
                    )),
                forall|a: int| i <= a < comps@.len() ==> #[trigger] merged@[a] == old(merged)@[a],
                picked(g, all, ready_set, i as int, plain@, lists(recursive@), source),
            decreases comps.len() - i,
        {
            let comp = &comps[i];
            assert(all[i as int] == comp@);
            assert(is_component(g, all[i as int]));
            let ghost plain0 = plain@;
            let ghost recursive0 = lists(recursive@);
            let ghost source0 = source;
            if !merged[i] && Self::is_ready(map, comp, done) {
                merged.set(i, true);
                if Self::is_cyclic(map, comp) {
                    let copy = comp.clone();
                    assert(copy@ =~= comp@);
                    recursive.push(copy);
                    proof {
                        source = source.push(i as int);
                        assert(lists(recursive@) =~= recursive0.push(comp@));
                    }
                } else {
                    let mut k: usize = 0;
                    while k < comp.len()
                        invariant
                            k <= comp.len(),
                            plain@ == plain0 + comp@.take(k as int),
                        decreases comp.len() - k,
                    {
                        plain.push(comp[k]);
                        assert(plain@ =~= plain0 + comp@.take(k + 1));
                        k += 1;
                    }
                    assert(plain@ =~= plain0 + comp@);
                }
            }
            proof {
                lemma_picked_step(
                    g,
                    n,
                    all,
                    ready_set,
                    i as int,
                    plain0,
                    recursive0,
                    source0,
                    plain@,
                    lists(recursive@),
                    source,
                );
            }
            i += 1;
        }
        (plain, recursive, Ghost(source))
    }
}

proof fn lemma_picked_step(
    g: Graph,
    n: nat,
    comps: Seq<Seq<usize>>,
    done: Set<usize>,
    i: int,
    plain0: Seq<usize>,
    recursive0: Seq<Seq<usize>>,
    source0: Seq<int>,
    plain: Seq<usize>,
    recursive: Seq<Seq<usize>>,
    source: Seq<int>,
)
    requires
        are_components(g, n, comps),
        0 <= i < comps.len(),
        picked(g, comps, done, i, plain0, recursive0, source0),
        ({
            let fresh = ready(g, done, comps[i][0]);
            let turns = cyclic(g, comps[i][0]);
            &&& plain == if fresh && !turns { plain0 + comps[i] } else { plain0 }
            &&& recursive == if fresh && turns { recursive0.push(comps[i]) } else { recursive0 }
            &&& source == if fresh && turns { source0.push(i) } else { source0 }
        }),
    ensures
        picked(g, comps, done, i + 1, plain, recursive, source),
{
    let fresh = ready(g, done, comps[i][0]);
    let turns = cyclic(g, comps[i][0]);
    assert(is_component(g, comps[i]));
    assert forall|r: usize| #[trigger] plain.contains(r) <==> exists|a: int|
        0 <= a < i + 1 && ready(g, done, comps[a][0]) && !cyclic(g, comps[a][0])
            && #[trigger] comps[a].contains(r) by {
        if plain.contains(r) {
            let k = choose|k: int| 0 <= k < plain.len() && plain[k] == r;
            if k < plain0.len() {
                assert(plain0[k] == r);
                assert(plain0.contains(r));
                let a = choose|a: int|
                    0 <= a < i && ready(g, done, comps[a][0]) && !cyclic(g, comps[a][0])
                        && #[trigger] comps[a].contains(r);
                assert(comps[a].contains(r));
            } else {
                assert(comps[i][k - plain0.len()] == r);
                assert(comps[i].contains(r));
            }
        }
        if exists|a: int|
            0 <= a < i + 1 && ready(g, done, comps[a][0]) && !cyclic(g, comps[a][0])
                && #[trigger] comps[a].contains(r) {
            let a = choose|a: int|
                0 <= a < i + 1 && ready(g, done, comps[a][0]) && !cyclic(g, comps[a][0])
                    && #[trigger] comps[a].contains(r);
            if a < i {
                assert(plain0.contains(r));
                let k = choose|k: int| 0 <= k < plain0.len() && plain0[k] == r;
                assert(plain[k] == r);
            } else {
                let k = choose|k: int| 0 <= k < comps[i].len() && comps[i][k] == r;
                assert(plain[plain0.len() + k] == r);
            }
        }
    }
    assert forall|j: int, k: int| 0 <= j < k < plain.len() implies plain[j] != plain[k] by {
        if k < plain0.len() {
            assert(plain0[j] != plain0[k]);
        } else if j >= plain0.len() {
            assert(comps[i][j - plain0.len()] != comps[i][k - plain0.len()]);
        } else if plain[j] == plain[k] {
            let x = plain[j];
            assert(plain0[j] == x);
            assert(plain0.contains(x));
            let a = choose|a: int|
                0 <= a < i && ready(g, done, comps[a][0]) && !cyclic(g, comps[a][0])
                    && #[trigger] comps[a].contains(x);
            assert(comps[i][k - plain0.len()] == x);
            assert(comps[i].contains(x));
            lemma_same_component(g, n, comps, a, i, x);
        }
    }
    assert forall|k: int|
        #![trigger source[k]]
        0 <= k < source.len() implies 0 <= source[k] < i + 1 && recursive[k] == comps[source[k]]
        && ready(g, done, comps[source[k]][0]) && cyclic(g, comps[source[k]][0]) by {
        if k < source0.len() {
            assert(source0[k] == source[k]);
        }
    }
    assert forall|a: int|
        #![trigger comps[a]]
        0 <= a < i + 1 && ready(g, done, comps[a][0]) && cyclic(g, comps[a][0]) implies source.contains(a) by {
        if a < i {
            assert(source0.contains(a));
            let k = choose|k: int| 0 <= k < source0.len() && source0[k] == a;
            assert(source[k] == a);
        } else {
            assert(source[source0.len() as int] == i);
        }
    }
    assert forall|j: int, k: int| 0 <= j < k < source.len() implies source[j] != source[k] by {
        if k < source0.len() {
            assert(source0[j] != source0[k]);
        } else {
            assert(source0[j] < i);
        }
    }
}

proof fn lemma_extend_rounds(
    g: Graph,
    n: nat,
    strata: Seq<Seq<usize>>,
    flags: Seq<bool>,
    cuts: Seq<int>,
    batch: Seq<Seq<usize>>,
    more: Seq<bool>,
)
    requires
        in_rounds(g, n, strata, flags, cuts),
        is_round(g, n, members(strata), batch, more),
    ensures
        in_rounds(g, n, strata + batch, flags + more, cuts.push((strata.len() + batch.len()) as int)),
{
    let strata1 = strata + batch;
    let flags1 = flags + more;
    let cuts1 = cuts.push((strata.len() + batch.len()) as int);
    assert forall|i: int| 0 <= i < cuts1.len() - 1 implies #[trigger] round_at(
        g,
        n,
        strata1,
        flags1,
        cuts1,
        i,
    ) by {
        if i < cuts.len() - 1 {
            assert(round_at(g, n, strata, flags, cuts, i));
            assert(strata1.take(cuts[i]) =~= strata.take(cuts[i]));
            assert(strata1.subrange(cuts[i], cuts[i + 1]) =~= strata.subrange(cuts[i], cuts[i + 1]));
            assert(flags1.subrange(cuts[i], cuts[i + 1]) =~= flags.subrange(cuts[i], cuts[i + 1]));
        } else {
            assert(strata1.take(cuts1[i]) =~= strata);
            assert(strata1.subrange(cuts1[i], cuts1[i + 1]) =~= batch);
            assert(flags1.subrange(cuts1[i], cuts1[i + 1]) =~= more);
        }
    }
}

proof fn lemma_members_add(a: Seq<Seq<usize>>, b: Seq<Seq<usize>>)
    ensures
        forall|r: usize| #[trigger] in_some(a + b, r) <==> in_some(a, r) || in_some(b, r),
{
    let both = a + b;
    assert forall|r: usize| #[trigger] in_some(both, r) <==> in_some(a, r) || in_some(b, r) by {
        if in_some(both, r) {
            let k = choose|k: int| 0 <= k < both.len() && #[trigger] both[k].contains(r);
            if k < a.len() {
                assert(a[k].contains(r));
            } else {
                assert(b[k - a.len()].contains(r));
            }
        }
        if in_some(a, r) {
            let k = choose|k: int| 0 <= k < a.len() && #[trigger] a[k].contains(r);
            assert(both[k].contains(r));
        }
        if in_some(b, r) {
            let k = choose|k: int| 0 <= k < b.len() && #[trigger] b[k].contains(r);
            assert(both[a.len() + k].contains(r));
        }
    }
}

/// Among components that are not all done, some are ready.
proof fn lemma_some_ready(
    g: Graph,
    n: nat,
    comps: Seq<Seq<usize>>,
    done: Set<usize>,
    a: int,
)
    requires
        are_components(g, n, comps),
        bounded(g, n),
        whole(comps, done),
        0 <= a < comps.len(),
        !done.contains(comps[a][0]),
    ensures
        exists|b: int| 0 <= b < comps.len() && ready(g, done, (#[trigger] comps[b])[0]),
    decreases a,
{
    let c = comps[a][0];
    assert(is_component(g, comps[a]));
    if !ready(g, done, c) {
        let (x, y) = choose|x: usize, y: usize|
            mutual(g, c, x) && #[trigger] edge(g, x, y) && !(done.contains(y) || mutual(g, c, y));
        assert(edge(g, x, y));
        assert(in_some(comps, y));
        let b = choose|b: int| 0 <= b < comps.len() && #[trigger] comps[b].contains(y);
        assert(is_component(g, comps[b]));
        lemma_reaches_edge(g, Set::empty(), x, y);
        lemma_reaches_trans(g, Set::empty(), c, x, y);
        lemma_reaches_trans(g, Set::empty(), c, y, comps[b][0]);
        assert(b <= a);
        assert(b != a);
        lemma_some_ready(g, n, comps, done, b);
    }
}

/// Sets all the given positions.
fn mark_all(flags: &mut Vec<bool>, items: &Vec<usize>)
    requires
        forall|k: int| 0 <= k < items@.len() ==> (#[trigger] items@[k]) < old(flags)@.len(),
    ensures
        final(flags)@.len() == old(flags)@.len(),
        forall|x: usize|
            #[trigger] marked(final(flags)@).contains(x) <==> marked(old(flags)@).contains(x)
                || items@.contains(x),
{
    let mut i: usize = 0;
    while i < items.len()
        invariant
            i <= items.len(),
            flags@.len() == old(flags)@.len(),
            forall|k: int| 0 <= k < items@.len() ==> (#[trigger] items@[k]) < old(flags)@.len(),
            forall|x: usize|
                #[trigger] marked(flags@).contains(x) <==> marked(old(flags)@).contains(x)
                    || items@.take(i as int).contains(x),
        decreases items.len() - i,
    {
        let ghost before = flags@;
        let item: usize = items[i];
        flags.set(item, true);
        proof {
            assert forall|x: usize| #[trigger] marked(flags@).contains(x) <==> marked(
                old(flags)@,
            ).contains(x) || items@.take(i + 1).contains(x) by {
                assert(marked(before).contains(x) <==> marked(old(flags)@).contains(x)
                    || items@.take(i as int).contains(x));
                if items@.take(i as int).contains(x) {
                    let k = choose|k: int| 0 <= k < i && items@.take(i as int)[k] == x;
                    assert(items@.take(i + 1)[k] == x);
                }
                if items@.take(i + 1).contains(x) {
                    let longer = items@.take(i + 1);
                    let k = choose|k: int| 0 <= k < longer.len() && longer[k] == x;
                    if k < i {
                        assert(items@.take(i as int)[k] == x);
                    }
                }
                assert(items@.take(i + 1)[i as int] == item);
            }
        }
        i += 1;
    }
    assert(items@.take(items@.len() as int) =~= items@);
}

/// Whether some position is not set.
fn has_open(flags: &Vec<bool>) -> (answer: bool)
    ensures
        answer == exists|a: int| 0 <= a < flags@.len() && !#[trigger] flags@[a],
{
    let mut i: usize = 0;
    while i < flags.len()
        invariant
            i <= flags.len(),
            forall|k: int| 0 <= k < i ==> #[trigger] flags@[k],
        decreases flags.len() - i,
    {
        if !flags[i] {
            return true;
        }
        i += 1;
    }
    false
}

/// `n` positions, none of them set.
fn none_marked(n: usize) -> (flags: Vec<bool>)
    ensures
        flags@.len() == n,
        forall|k: int| 0 <= k < n ==> !#[trigger] flags@[k],
        marked(flags@) == Set::<usize>::empty(),
{
    let mut flags: Vec<bool> = Vec::new();
    while flags.len() < n
        invariant
            flags@.len() <= n,
            forall|k: int| 0 <= k < flags@.len() ==> !#[trigger] flags@[k],
        decreases n - flags@.len(),
    {
        flags.push(false);
    }
    assert(marked(flags@) =~= Set::empty());
    flags
}

impl Strata {
    /// Groups the components into strata, round by round.
    fn merge(map: &HashMap<usize, HashSet<usize>>, comps: &Vec<Vec<usize>>, n: usize) -> (out: (
        Vec<Vec<usize>>,
        Vec<bool>,
    ))
        requires
            bounded(graph_of(*map), n as nat),
            are_components(graph_of(*map), n as nat, lists(comps@)),
        ensures
            is_stratification(graph_of(*map), n as nat, lists(out.0@), out.1@),
    {
        let ghost g = graph_of(*map);
        let ghost all = lists(comps@);
        let mut merged = none_marked(comps.len());
        let mut done = none_marked(n);
        let mut strata: Vec<Vec<usize>> = Vec::new();
        let mut flags: Vec<bool> = Vec::new();
        let ghost mut cuts: Seq<int> = seq![0];
        assert(in_rounds(g, n as nat, lists(strata@), flags@, cuts));
        while has_open(&merged)
            invariant
                g == graph_of(*map),
                all == lists(comps@),
                bounded(g, n as nat),
                are_components(g, n as nat, all),
                merged@.len() == comps@.len(),
                done@.len() == n,
                whole(all, marked(done@)),
                forall|r: usize| #[trigger] marked(done@).contains(r) <==> in_some(lists(strata@), r),
                forall|a: int|
                    0 <= a < comps@.len() ==> (#[trigger] merged@[a] <==> marked(done@).contains(
                        comps@[a]@[0],
                    )),
                in_rounds(g, n as nat, lists(strata@), flags@, cuts),
            decreases open_count(merged@),
        {
            let ghost ready_set = marked(done@);
            let ghost merged0 = merged@;
            let ghost strata0 = lists(strata@);
            let ghost flags0 = flags@;
            proof {
                let a = choose|a: int| 0 <= a < merged@.len() && !#[trigger] merged@[a];
                assert(!ready_set.contains(all[a][0]));
                lemma_some_ready(g, n as nat, all, ready_set, a);
                assert(ready_set =~= members(strata0));
            }
            let (plain, recursive, Ghost(source)) = Self::pick(map, comps, &mut merged, &done);
            let ghost nested = lists(recursive@);
            let ghost ones = Seq::new(nested.len(), |k: int| true);
            let ghost batch = if plain@.len() > 0 { seq![plain@] + nested } else { nested };
            let ghost more = if plain@.len() > 0 { seq![false] + ones } else { ones };
            proof {
                lemma_picked_is_round(
                    g,
                    n as nat,
                    all,
                    ready_set,
                    plain@,
                    nested,
                    source,
                    batch,
                    more,
                );
                assert forall|k: int| 0 <= k < plain@.len() implies (#[trigger] plain@[k]) < n by {
                    assert(batch[0].contains(plain@[k]));
                }
                assert forall|k: int, x: usize| 0 <= k < nested.len() && #[trigger] nested[k].contains(x) implies x < n by {
                    let first = if plain@.len() > 0 { 1int } else { 0int };
                    assert(batch[first + k] == nested[k]);
                    assert(batch[first + k].contains(x));
                }
            }
            // what is merged now counts as done for the next round
            mark_all(&mut done, &plain);
            let mut i: usize = 0;
            while i < recursive.len()
                invariant
                    i <= recursive.len(),
                    done@.len() == n,
                    nested == lists(recursive@),
                    forall|k: int, x: usize|
                        0 <= k < nested.len() && #[trigger] nested[k].contains(x) ==> x < n,
                    forall|x: usize|
                        #[trigger] marked(done@).contains(x) <==> ready_set.contains(x)
                            || plain@.contains(x) || in_some(nested.take(i as int), x),
                decreases recursive.len() - i,
            {
                let ghost before = marked(done@);
                assert(nested[i as int] == recursive@[i as int]@);
                assert forall|k: int| 0 <= k < recursive@[i as int]@.len() implies (
                #[trigger] recursive@[i as int]@[k]) < n by {
                    assert(nested[i as int].contains(recursive@[i as int]@[k]));
                }
                mark_all(&mut done, &recursive[i]);
                proof {
                    assert(nested.take(i + 1) =~= nested.take(i as int) + seq![nested[i as int]]);
                    lemma_members_add(nested.take(i as int), seq![nested[i as int]]);
                    assert forall|x: usize| #[trigger] marked(done@).contains(x) <==> ready_set.contains(x)
                        || plain@.contains(x) || in_some(nested.take(i + 1), x) by {
                        assert(in_some(seq![nested[i as int]], x) <==> nested[i as int].contains(x)) by {
                            assert(seq![nested[i as int]][0] == nested[i as int]);
                        }
                    }
                }
                i += 1;
            }
            proof {
                assert(nested.take(nested.len() as int) =~= nested);
                assert forall|x: usize| in_some(batch, x) <==> plain@.contains(x) || in_some(nested, x) by {
                    if plain@.len() > 0 {
                        lemma_members_add(seq![plain@], nested);
                        assert(in_some(seq![plain@], x) <==> plain@.contains(x)) by {
                            assert(seq![plain@][0] == plain@);
                        }
                    }
                }
            }
            if plain.len() > 0 {
                strata.push(plain);
                flags.push(false);
            }
            let ghost strata1 = lists(strata@);
            let ghost flags1 = flags@;
            let count: usize = recursive.len();
            let mut recursive = recursive;
            strata.append(&mut recursive);
            assert(lists(strata@) =~= strata1 + nested);
            let mut i: usize = 0;
            while i < count
                invariant
                    i <= count,
                    flags@ == flags1 + Seq::new(i as nat, |k: int| true),
                decreases count - i,
            {
                flags.push(true);
                assert(flags@ =~= flags1 + Seq::new((i + 1) as nat, |k: int| true));
                i += 1;
            }
            proof {
                assert(lists(strata@) =~= strata0 + batch);
                assert(flags@ =~= flags0 + more);
                lemma_extend_rounds(g, n as nat, strata0, flags0, cuts, batch, more);
                cuts = cuts.push((strata0.len() + batch.len()) as int);
                lemma_members_add(strata0, batch);
                assert forall|a: int| 0 <= a < comps@.len() implies (#[trigger] merged@[a] <==> marked(
                    done@,
                ).contains(comps@[a]@[0])) by {
                    Self::lemma_done_component(g, n as nat, all, ready_set, marked(done@), a, comps@[a]@[0]);
                    assert(is_component(g, all[a]));
                    assert(merged0[a] <==> ready_set.contains(all[a][0]));
                }
                assert forall|a: int, x: usize| 0 <= a < all.len() && #[trigger] all[a].contains(x) implies (marked(done@).contains(x)
                    <==> marked(done@).contains(all[a][0])) by {
                    Self::lemma_done_component(g, n as nat, all, ready_set, marked(done@), a, x);
                    Self::lemma_done_component(g, n as nat, all, ready_set, marked(done@), a, all[a][0]);
                }
                lemma_open_count_monotone(merged0, merged@);
                let b = choose|b: int| 0 <= b < all.len() && ready(g, ready_set, (#[trigger] all[b])[0]);
                assert(!merged0[b] && merged@[b]);
            }
        }
        proof {
            assert forall|r: usize| #[trigger] in_some(lists(strata@), r) <==> r < n by {
                if r < n {
                    assert(in_some(all, r));
                    let a = choose|a: int| 0 <= a < all.len() && #[trigger] all[a].contains(r);
                    assert(merged@[a]);
                    assert(marked(done@).contains(r));
                } else {
                    assert(!marked(done@).contains(r));
                }
            }
        }
        (strata, flags)
    }

    proof fn lemma_done_component(
        g: Graph,
        n: nat,
        comps: Seq<Seq<usize>>,
        before: Set<usize>,
        after: Set<usize>,
        a: int,
        x: usize,
    )
        requires
            are_components(g, n, comps),
            whole(comps, before),
            0 <= a < comps.len(),
            comps[a].contains(x) || x == comps[a][0],
            after.contains(x) <==> before.contains(x) || exists|b: int|
                0 <= b < comps.len() && ready(g, before, comps[b][0])
                    && #[trigger] comps[b].contains(x),
        ensures
            after.contains(x) <==> before.contains(comps[a][0]) || ready(g, before, comps[a][0]),
    {
        assert(is_component(g, comps[a]));
        assert(comps[a].contains(comps[a][0]));
        assert(comps[a].contains(x));
        if exists|b: int|
            0 <= b < comps.len() && ready(g, before, comps[b][0]) && #[trigger] comps[b].contains(x) {
            let b = choose|b: int|
                0 <= b < comps.len() && ready(g, before, comps[b][0]) && #[trigger] comps[b].contains(
                    x,
                );
            lemma_same_component(g, n, comps, a, b, x);
        }
    }
}

/// The text of a stratum: its number, its rules in order, and the rules themselves.
pub open spec fn stratum_text(rules: Seq<FLRuleModel>, number: nat, stratum: Seq<usize>) -> Seq<char> {
    "#"@ + nat_text(number) + ": ["@ + numbers_text(in_order(stratum.to_set())) + "]\n"@
        + rule_lines(rules, stratum) + "\n"@
}

/// The given rules, one on a line.
pub open spec fn rule_lines(rules: Seq<FLRuleModel>, ids: Seq<usize>) -> Seq<char>
    decreases ids.len(),
{
    if ids.len() == 0 {
        Seq::empty()
    } else {
        rule_lines(rules, ids.drop_last()) + rules[ids.last() as int].text() + "\n"@
    }
}

/// The text of all strata, numbered from one.
pub open spec fn strata_text(rules: Seq<FLRuleModel>, strata: Seq<Seq<usize>>) -> Seq<char>
    decreases strata.len(),
{
    if strata.len() == 0 {
        Seq::empty()
    } else {
        strata_text(rules, strata.drop_last()) + stratum_text(rules, strata.len(), strata.last())
    }
}

impl Strata {
    /// Whether the strata are those of the program.
    pub open spec fn wf(&self) -> bool {
        &&& self.dependency_graph.describes(self.fl_program.deep_view().rules)
        &&& is_stratification(
            dependencies(self.fl_program.deep_view().rules),
            self.fl_program.deep_view().rules.len(),
            lists(self.strata@),
            self.is_recursive_strata_bitmap@,
        )
    }

    pub fn program(&self) -> (program: &Program)
        ensures
            *program == self.fl_program,
    {
        &self.fl_program
    }

    pub fn dependency_graph(&self) -> (graph: &DependencyGraph)
        ensures
            *graph == self.dependency_graph,
    {
        &self.dependency_graph
    }

    /// Stratifies a program.
    pub fn from_parser(program: Program) -> (strata: Self)
        ensures
            strata.wf(),
            strata.fl_program.deep_view() == program.deep_view(),
    {
        let dependency_graph = DependencyGraph::from_parser(&program);
        let n: usize = program.rules().len();
        let map = dependency_graph.rule_dependency_map();
        assert(bounded(graph_of(*map), n as nat));
        let comps = Self::components(map, n);
        let (strata, is_recursive_strata_bitmap) = Self::merge(map, &comps, n);
        Strata { fl_program: program, dependency_graph, strata, is_recursive_strata_bitmap }
    }

    /// The rules of each stratum.
    pub fn strata(&self) -> (strata: Vec<Vec<&FLRule>>)
        requires
            self.wf(),
        ensures
            strata@.len() == self.strata@.len(),
            forall|k: int, i: int|
                0 <= k < self.strata@.len() && 0 <= i < self.strata@[k]@.len()
                    ==> strata@[k]@.len() == self.strata@[k]@.len()
                    && (#[trigger] strata@[k]@[i]).deep_view()
                    == self.fl_program.deep_view().rules[self.strata@[k]@[i] as int],
            forall|k: int|
                0 <= k < self.strata@.len() ==> (#[trigger] strata@[k])@.len()
                    == self.strata@[k]@.len(),
    {
        let rules = self.fl_program.rules();
        let ghost models = self.fl_program.deep_view().rules;
        let mut strata: Vec<Vec<&FLRule>> = Vec::new();
        let mut k: usize = 0;
        while k < self.strata.len()
            invariant
                k <= self.strata.len(),
                self.wf(),
                models == self.fl_program.deep_view().rules,
                rules.deep_view() == models,
                strata@.len() == k,
                forall|j: int, i: int|
                    0 <= j < k && 0 <= i < self.strata@[j]@.len() ==> strata@[j]@.len()
                        == self.strata@[j]@.len() && (#[trigger] strata@[j]@[i]).deep_view()
                        == models[self.strata@[j]@[i] as int],
                forall|j: int|
                    0 <= j < k ==> (#[trigger] strata@[j])@.len() == self.strata@[j]@.len(),
            decreases self.strata.len() - k,
        {
            let ids = &self.strata[k];
            let mut stratum: Vec<&FLRule> = Vec::new();
            let mut i: usize = 0;
            while i < ids.len()
                invariant
                    i <= ids.len(),
                    k < self.strata.len(),
                    *ids == self.strata@[k as int],
                    self.wf(),
                    models == self.fl_program.deep_view().rules,
                    rules.deep_view() == models,
                    stratum@.len() == i,
                    forall|j: int|
                        0 <= j < i ==> (#[trigger] stratum@[j]).deep_view() == models[ids@[j] as int],
                decreases ids.len() - i,
            {
                let id: usize = ids[i];
                proof {
                    assert(lists(self.strata@)[k as int].contains(id));
                    assert(in_some(lists(self.strata@), id));
                    assert(models[id as int] == rules@[id as int].deep_view());
                }
                stratum.push(&rules[id]);
                i += 1;
            }
            strata.push(stratum);
            k += 1;
        }
        strata
    }

    /// Whether the stratum at a position is recursive.
    pub fn is_recursive_stratum(&self, stratum_id: usize) -> (answer: bool)
        requires
            stratum_id < self.is_recursive_strata_bitmap.len(),
        ensures
            answer == self.is_recursive_strata_bitmap[stratum_id as int],
    {
        self.is_recursive_strata_bitmap[stratum_id]
    }

    pub fn is_recursive_strata_bitmap(&self) -> (bitmap: &Vec<bool>)
        ensures
            *bitmap == self.is_recursive_strata_bitmap,
    {
        &self.is_recursive_strata_bitmap
    }

    /// The listing of the strata.
    pub fn to_string(&self) -> (out: String)
        requires
            self.wf(),
        ensures
            out@ == strata_text(self.fl_program.deep_view().rules, lists(self.strata@)),
    {
        broadcast use group_take;

        let rules = self.fl_program.rules();
        let ghost models = self.fl_program.deep_view().rules;
        let ghost all = lists(self.strata@);
        let mut out = String::new();
        let mut k: usize = 0;
        while k < self.strata.len()
            invariant
                k <= self.strata.len(),
                self.wf(),
                models == self.fl_program.deep_view().rules,
                rules.deep_view() == models,
                all == lists(self.strata@),
                out@ == strata_text(models, all.take(k as int)),
            decreases self.strata.len() - k,
        {
            let ids = &self.strata[k];
            let mut ordered: Vec<usize> = Vec::new();
            let mut lines = String::new();
            let mut i: usize = 0;
            assert(ordered@.to_set() =~= ids@.take(0).to_set());
            while i < ids.len()
                invariant
                    i <= ids.len(),
                    k < self.strata.len(),
                    *ids == self.strata@[k as int],
                    self.wf(),
                    models == self.fl_program.deep_view().rules,
                    rules.deep_view() == models,
                    all == lists(self.strata@),
                    ascending(ordered@),
                    ordered@.to_set() == ids@.take(i as int).to_set(),
                    lines@ == rule_lines(models, ids@.take(i as int)),
                decreases ids.len() - i,
            {
                let id: usize = ids[i];
                proof {
                    assert(all[k as int].contains(id));
                    assert(in_some(all, id));
                    assert(models[id as int] == rules@[id as int].deep_view());
                    assert(ids@.take(i + 1).drop_last() == ids@.take(i as int));
                    let longer = ids@.take(i + 1);
                    let shorter = ids@.take(i as int);
                    assert forall|x: usize| longer.to_set().contains(x) <==> shorter.to_set().insert(id).contains(x) by {
                        if shorter.contains(x) {
                            let m = choose|m: int| 0 <= m < shorter.len() && shorter[m] == x;
                            assert(longer[m] == x);
                        }
                        assert(longer[i as int] == id);
                    }
                    assert(longer.to_set() =~= shorter.to_set().insert(id));
                }
                insert_sorted(&mut ordered, id);
                lines.append(rules[id].to_string().as_str());
                lines.append("\n");
                i += 1;
            }
            proof {
                assert(ids@.take(i as int) =~= ids@);
                lemma_in_order(ordered@, ids@.to_set());
                assert(all.take(k + 1).drop_last() == all.take(k as int));
            }
            let mut text = "#".to_owned();
            text.append(usize_to_text(k + 1).as_str());
            text.append(": [");
            text.append(render_numbers(&ordered).as_str());
            text.append("]\n");
            text.append(lines.as_str());
            text.append("\n");
            out.append(text.as_str());
            k += 1;
        }
        out
    }
}

/// Every rule stands in exactly one stratum, and once.
pub proof fn law_every_rule_in_one_stratum(
    g: Graph,
    n: nat,
    strata: Seq<Seq<usize>>,
    flags: Seq<bool>,
    r: usize,
)
    requires
        is_stratification(g, n, strata, flags),
        r < n,
    ensures
        in_some(strata, r),
        forall|j: int, k: int|
            0 <= j < strata.len() && 0 <= k < strata.len() && #[trigger] strata[j].contains(r)
                && #[trigger] strata[k].contains(r) ==> j == k,
        forall|k: int| 0 <= k < strata.len() ==> (#[trigger] strata[k]).no_duplicates(),
{
    let cuts = choose|cuts: Seq<int>| in_rounds(g, n, strata, flags, cuts);
    assert forall|k: int| 0 <= k < strata.len() implies (#[trigger] strata[k]).no_duplicates() by {
        let i = lemma_round_of(g, n, strata, flags, cuts, k);
        assert(round_at(g, n, strata, flags, cuts, i));
        let batch = strata.subrange(cuts[i], cuts[i + 1]);
        assert(batch[k - cuts[i]] == strata[k]);
    }
    assert forall|j: int, k: int|
        0 <= j < strata.len() && 0 <= k < strata.len() && #[trigger] strata[j].contains(r)
            && #[trigger] strata[k].contains(r) implies j == k by {
        if j <= k {
            lemma_stratum_apart(g, n, strata, flags, cuts, j, k, r);
        } else {
            lemma_stratum_apart(g, n, strata, flags, cuts, k, j, r);
        }
    }
}

/// A rule is evaluated after all rules that it depends on: they stand in
/// earlier strata, or, where the stratum is recursive, in the same one.
pub proof fn law_dependencies_come_first(
    g: Graph,
    n: nat,
    strata: Seq<Seq<usize>>,
    flags: Seq<bool>,
    k: int,
    r: usize,
    d: usize,
)
    requires
        is_stratification(g, n, strata, flags),
        0 <= k < strata.len(),
        strata[k].contains(r),
        edge(g, r, d),
    ensures
        exists|j: int|
            0 <= j <= k && #[trigger] strata[j].contains(d) && (j < k || flags[k]),
{
    let cuts = choose|cuts: Seq<int>| in_rounds(g, n, strata, flags, cuts);
    let i = lemma_round_of(g, n, strata, flags, cuts, k);
    assert(round_at(g, n, strata, flags, cuts, i));
    let done = members(strata.take(cuts[i]));
    let batch = strata.subrange(cuts[i], cuts[i + 1]);
    let marks = flags.subrange(cuts[i], cuts[i + 1]);
    let b = k - cuts[i];
    assert(batch[b] == strata[k]);
    assert(marks[b] == flags[k]);
    let c = if marks[b] { batch[b][0] } else { r };
    assert(batch[b].contains(r));
    lemma_mutual_self(g, r);
    if !marks[b] {
        assert(b == 0) by {
            if b >= 1 {
                assert(marks[b]);
            }
        }
        assert(r < n);
        assert(ready(g, done, r));
    } else {
        assert(is_component(g, batch[b]));
    }
    assert(ready(g, done, c));
    assert(mutual(g, c, r));
    if done.contains(d) {
        assert(in_some(strata.take(cuts[i]), d));
        let j = choose|j: int|
            0 <= j < strata.take(cuts[i]).len() && #[trigger] strata.take(cuts[i])[j].contains(d);
        assert(strata[j].contains(d));
    } else {
        assert(mutual(g, c, d));
        if marks[b] {
            assert(batch[b].contains(d));
            assert(strata[k].contains(d));
        } else {
            assert(cyclic(g, r));
        }
    }
}

/// A stratum is recursive exactly if its rules depend on themselves.
pub proof fn law_recursive_strata_are_cyclic(
    g: Graph,
    n: nat,
    strata: Seq<Seq<usize>>,
    flags: Seq<bool>,
    k: int,
    r: usize,
)
    requires
        is_stratification(g, n, strata, flags),
        0 <= k < strata.len(),
        strata[k].contains(r),
    ensures
        flags[k] <==> cyclic(g, r),
        flags[k] ==> forall|x: usize| strata[k].contains(x) <==> mutual(g, r, x),
{
    let cuts = choose|cuts: Seq<int>| in_rounds(g, n, strata, flags, cuts);
    let i = lemma_round_of(g, n, strata, flags, cuts, k);
    assert(round_at(g, n, strata, flags, cuts, i));
    let batch = strata.subrange(cuts[i], cuts[i + 1]);
    let marks = flags.subrange(cuts[i], cuts[i + 1]);
    let b = k - cuts[i];
    assert(batch[b] == strata[k]);
    assert(marks[b] == flags[k]);
    assert(batch[b].contains(r));
    if marks[b] {
        assert(is_component(g, batch[b]));
        lemma_cyclic_mutual(g, batch[b][0], r);
        assert forall|x: usize| strata[k].contains(x) <==> mutual(g, r, x) by {
            if strata[k].contains(x) {
                lemma_mutual_trans(g, r, batch[b][0], x);
            }
            if mutual(g, r, x) {
                lemma_mutual_trans(g, batch[b][0], r, x);
            }
        }
    } else {
        assert(b == 0) by {
            if b >= 1 {
                assert(marks[b]);
            }
        }
        assert(r < n);
        assert(ready(g, members(strata.take(cuts[i])), r) && !cyclic(g, r));
    }
}

/// The round that a stratum belongs to.
proof fn lemma_round_of(
    g: Graph,
    n: nat,
    strata: Seq<Seq<usize>>,
    flags: Seq<bool>,
    cuts: Seq<int>,
    k: int,
) -> (i: int)
    requires
        in_rounds(g, n, strata, flags, cuts),
        0 <= k < strata.len(),
    ensures
        0 <= i < cuts.len() - 1,
        cuts[i] <= k < cuts[i + 1],
{
    lemma_round_below(g, n, strata, flags, cuts, k, cuts.len() - 1)
}

proof fn lemma_round_below(
    g: Graph,
    n: nat,
    strata: Seq<Seq<usize>>,
    flags: Seq<bool>,
    cuts: Seq<int>,
    k: int,
    top: int,
) -> (i: int)
    requires
        in_rounds(g, n, strata, flags, cuts),
        0 <= top < cuts.len(),
        0 <= k < cuts[top],
    ensures
        0 <= i < cuts.len() - 1,
        cuts[i] <= k < cuts[i + 1],
    decreases top,
{
    if top == 0 {
        0
    } else if cuts[top - 1] <= k {
        top - 1
    } else {
        lemma_round_below(g, n, strata, flags, cuts, k, top - 1)
    }
}

proof fn lemma_stratum_apart(
    g: Graph,
    n: nat,
    strata: Seq<Seq<usize>>,
    flags: Seq<bool>,
    cuts: Seq<int>,
    j: int,
    k: int,
    r: usize,
)
    requires
        in_rounds(g, n, strata, flags, cuts),
        0 <= j <= k < strata.len(),
        strata[j].contains(r),
        strata[k].contains(r),
        r < n,
    ensures
        j == k,
{
    if j == k {
        return ;
    }
    let i = lemma_round_of(g, n, strata, flags, cuts, k);
    assert(round_at(g, n, strata, flags, cuts, i));
    let done = members(strata.take(cuts[i]));
    let batch = strata.subrange(cuts[i], cuts[i + 1]);
    let marks = flags.subrange(cuts[i], cuts[i + 1]);
    let b = k - cuts[i];
    assert(batch[b] == strata[k]);
    assert(batch[b].contains(r));
    if j < cuts[i] {
        let front = strata.take(cuts[i]);
        assert(front[j].contains(r));
        assert(done.contains(r));
        if marks[b] {
            // a component that is ready has no member that is done
            let m = lemma_round_of(g, n, strata, flags, cuts, j);
            assert(round_at(g, n, strata, flags, cuts, m));
            lemma_component_in_round(g, n, strata, flags, cuts, m, j, r, batch[b][0]);
            assert(is_component(g, batch[b]));
            lemma_round_order(g, n, strata, flags, cuts, m, i, j, k);
            let jj = choose|jj: int| 0 <= jj < cuts[m + 1] && #[trigger] strata[jj].contains(batch[b][0]);
            assert(front[jj].contains(batch[b][0]));
            assert(done.contains(batch[b][0]));
        } else {
            assert(b == 0) by {
                if b >= 1 {
                    assert(marks[b]);
                }
            }
            assert(ready(g, done, r));
        }
    } else {
        let a = j - cuts[i];
        assert(batch[a] == strata[j]);
        assert(batch[a].contains(r));
        assert(marks[b]);
        assert(is_component(g, batch[b]));
        assert(mutual(g, batch[b][0], r));
        if marks[a] {
            assert(is_component(g, batch[a]));
            lemma_mutual_trans(g, batch[a][0], r, batch[b][0]);
            assert(batch[a].contains(batch[b][0]));
        } else {
            assert(a == 0) by {
                if a >= 1 {
                    assert(marks[a]);
                }
            }
            assert(ready(g, done, r));
            lemma_cyclic_mutual(g, batch[b][0], r);
        }
    }
}

proof fn lemma_round_order(
    g: Graph,
    n: nat,
    strata: Seq<Seq<usize>>,
    flags: Seq<bool>,
    cuts: Seq<int>,
    m: int,
    i: int,
    j: int,
    k: int,
)
    requires
        in_rounds(g, n, strata, flags, cuts),
        0 <= m < cuts.len() - 1,
        0 <= i < cuts.len() - 1,
        cuts[m] <= j < cuts[m + 1],
        j < cuts[i],
    ensures
        cuts[m + 1] <= cuts[i],
{
    if m >= i {
        lemma_cuts_ascend(g, n, strata, flags, cuts, i, m);
    } else {
        lemma_cuts_ascend(g, n, strata, flags, cuts, m + 1, i);
    }
}

proof fn lemma_cuts_ascend(
    g: Graph,
    n: nat,
    strata: Seq<Seq<usize>>,
    flags: Seq<bool>,
    cuts: Seq<int>,
    a: int,
    b: int,
)
    requires
        in_rounds(g, n, strata, flags, cuts),
        0 <= a <= b < cuts.len(),
    ensures
        cuts[a] <= cuts[b],
    decreases b - a,
{
    if a < b {
        lemma_cuts_ascend(g, n, strata, flags, cuts, a, b - 1);
        assert(round_at(g, n, strata, flags, cuts, b - 1));
    }
}

/// A rule on a common cycle with a rule of a round stands in that round too.
proof fn lemma_component_in_round(
    g: Graph,
    n: nat,
    strata: Seq<Seq<usize>>,
    flags: Seq<bool>,
    cuts: Seq<int>,
    m: int,
    j: int,
    r: usize,
    c: usize,
)
    requires
        in_rounds(g, n, strata, flags, cuts),
        0 <= m < cuts.len() - 1,
        cuts[m] <= j < cuts[m + 1],
        strata[j].contains(r),
        r < n,
        mutual(g, c, r),
        cyclic(g, c),
    ensures
        exists|jj: int| 0 <= jj < cuts[m + 1] && #[trigger] strata[jj].contains(c),
{
    assert(round_at(g, n, strata, flags, cuts, m));
    let batch = strata.subrange(cuts[m], cuts[m + 1]);
    let marks = flags.subrange(cuts[m], cuts[m + 1]);
    let a = j - cuts[m];
    assert(batch[a] == strata[j]);
    assert(batch[a].contains(r));
    if marks[a] {
        assert(is_component(g, batch[a]));
        lemma_mutual_trans(g, batch[a][0], r, c);
        assert(batch[a].contains(c));
        assert(strata[j].contains(c));
    } else {
        assert(a == 0) by {
            if a >= 1 {
                assert(marks[a]);
            }
        }
        assert(ready(g, members(strata.take(cuts[m])), r));
        lemma_cyclic_mutual(g, c, r);
    }
}

/// Whether a list holds an index.
pub fn contains_index(list: &Vec<usize>, item: usize) -> (found: bool)
    ensures
        found == list@.contains(item),
{
    let mut i: usize = 0;
    while i < list.len()
        invariant
            i <= list.len(),
            forall|k: int| 0 <= k < i ==> list@[k] != item,
        decreases list.len() - i,
    {
        if list[i] == item {
            return true;
        }
        i += 1;
    }
    false
}

/// The strata of a program are listed in their order, numbered from one, each with the
/// numbers of its rules and below them the rules, one to a line.
pub proof fn law_strata_are_listed(
    rules: Seq<FLRuleModel>,
    strata: Seq<Seq<usize>>,
    stratum: Seq<usize>,
    id: usize,
)
    ensures
        strata_text(rules, Seq::empty()) == Seq::<char>::empty(),
        strata_text(rules, strata.push(stratum)) == strata_text(rules, strata) + "#"@ + nat_text(
            strata.len() + 1,
        ) + ": ["@ + numbers_text(in_order(stratum.to_set())) + "]\n"@ + rule_lines(rules, stratum)
            + "\n"@,
        rule_lines(rules, Seq::empty()) == Seq::<char>::empty(),
        rule_lines(rules, stratum.push(id)) == rule_lines(rules, stratum)
            + rules[id as int].text() + "\n"@,
{
    assert(strata.push(stratum).drop_last() =~= strata);
    assert(stratum.push(id).drop_last() =~= stratum);
    assert(strata_text(rules, strata.push(stratum)) =~= strata_text(rules, strata) + "#"@
        + nat_text(strata.len() + 1) + ": ["@ + numbers_text(in_order(stratum.to_set()))
        + "]\n"@ + rule_lines(rules, stratum) + "\n"@);
}

} // verus!
