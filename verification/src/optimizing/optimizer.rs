//! The join tree of a rule: the given order, or the best one found.
use std::collections::HashMap;
use vstd::prelude::*;
use vstd::string::*;
use crate::catalog::body::atoms_of;
use crate::catalog::cores::{core_atoms, core_ids, lemma_core_below};
use crate::catalog::query::head_vars;
use crate::catalog::rule::{distinct_texts, Catalog};
use crate::lists::{clone_list, empty, extend, group_take, push};
use crate::optimizing::growing::{
    arrangements, is_arrangement, is_best, is_full, is_grown, is_offer,
    is_placed, lemma_arrangement_parts, lemma_grown, lemma_grown_unique, link_from, links_overlap,
    node_vars, overlap, preferred, Link,
};
use crate::optimizing::join_tree::{common_texts, is_over, map_of, tree_width, width, JoinTree};
use crate::optimizing::joining::{is_connected, law_acyclic_means_connected};
use crate::parsing::arithmetic::distinct;
use crate::parsing::rule::FLRuleModel;
use crate::strata::components::{lemma_open_count_monotone, open_count};

verus! {

broadcast use vstd::std_specs::hash::group_hash_axioms;

/// The tree that joins the atoms in the given order: the last one is the root,
/// and each has the one before it below it.
pub open spec fn chain(ids: Seq<usize>) -> JoinTree
    decreases ids.len(),
{
    if ids.len() <= 1 {
        JoinTree::Atom(ids[0])
    } else {
        JoinTree::Join(Box::new(JoinTree::Atom(ids.last())), Box::new(chain(ids.drop_last())))
    }
}

/// The shared variables of neighbours, all together.
pub open spec fn chain_overlap(rule: FLRuleModel, ids: Seq<usize>) -> nat
    decreases ids.len(),
{
    if ids.len() <= 1 {
        0
    } else {
        chain_overlap(rule, ids.drop_last()) + overlap(rule, ids.last(), ids[ids.len() - 2])
    }
}

/// The variables of all core atoms, atom by atom.
pub open spec fn all_vars(rule: FLRuleModel, upto: nat) -> Seq<Seq<char>>
    decreases upto,
{
    if upto == 0 {
        Seq::empty()
    } else {
        all_vars(rule, (upto - 1) as nat) + node_vars(rule, upto - 1)
    }
}

/// The variables that the head of a rule needs.
pub open spec fn needed_vars(rule: FLRuleModel) -> Seq<Seq<char>> {
    distinct(head_vars(rule.head.head_arguments))
}

/// Whether one tree beats another: less width, or the same width and less depth.
pub open spec fn beats(rule: FLRuleModel, a: JoinTree, b: JoinTree) -> bool {
    let wa = width(rule, a, needed_vars(rule));
    let wb = width(rule, b, needed_vars(rule));
    wa < wb || wa == wb && a.depth() < b.depth()
}

/// Whether a tree arranges the tree that grows from the core atom at position `a`.
pub open spec fn is_candidate(rule: FLRuleModel, a: int, tree: JoinTree) -> bool {
    exists|placed: Seq<Link>|
        placed.len() <= usize::MAX && #[trigger] is_full(
            rule,
            core_ids(rule),
            core_ids(rule)[a],
            placed,
        ) && is_arrangement(tree, placed, 0)
}

/// Whether a tree is the best one found after the candidates that grow from the
/// first `upto` core atoms: the chain, unless a candidate beats it; no candidate
/// beats the tree, and none from an earlier root is as good.
pub open spec fn is_choice(rule: FLRuleModel, upto: int, tree: JoinTree, shared: nat) -> bool {
    let core = core_ids(rule);
    &&& ({
        ||| tree == chain(core) && shared == chain_overlap(rule, core)
        ||| exists|a: int, placed: Seq<Link>|
            0 <= a < upto && placed.len() <= usize::MAX && #[trigger] is_full(
                rule,
                core,
                core[a],
                placed,
            ) && is_arrangement(tree, placed, 0) && shared == links_overlap(rule, placed) && beats(
                rule,
                tree,
                chain(core),
            ) && forall|b: int, other: JoinTree|
                0 <= b < a && #[trigger] is_candidate(rule, b, other) ==> beats(rule, tree, other)
    })
    &&& forall|a: int, other: JoinTree|
        0 <= a < upto && #[trigger] is_candidate(rule, a, other) ==> !beats(rule, other, tree)
}

/// The join tree of a rule.
#[derive(Debug)]
pub struct PlanTree {
    pub root: usize,
    pub tree: HashMap<usize, Vec<usize>>,
    pub overlap: usize,
    pub max_overlap: usize,
    pub sub_trees: HashMap<usize, Vec<usize>>,
    pub tree_width: usize,
    pub shape: JoinTree,
}

proof fn lemma_chain_parts(rule: FLRuleModel, ids: Seq<usize>)
    requires
        ids.len() > 0,
    ensures
        chain(ids).depth() < ids.len(),
        forall|k: int|
            0 <= k < chain(ids).preorder().len() ==> ids.contains(
                #[trigger] chain(ids).preorder()[k],
            ),
    decreases ids.len(),
{
    reveal_with_fuel(JoinTree::preorder, 3);
    reveal_with_fuel(JoinTree::depth, 3);
    if ids.len() > 1 {
        let front = ids.drop_last();
        lemma_chain_parts(rule, front);
        let t = chain(ids);
        assert(t.preorder() == seq![ids.last()] + chain(front).preorder());
        assert forall|k: int| 0 <= k < t.preorder().len() implies ids.contains(
            #[trigger] t.preorder()[k],
        ) by {
            if k == 0 {
                assert(ids[ids.len() - 1] == t.preorder()[0]);
            } else {
                let x = chain(front).preorder()[k - 1];
                assert(t.preorder()[k] == x);
                assert(front.contains(x));
                let m = choose|m: int| 0 <= m < front.len() && front[m] == x;
                assert(ids[m] == x);
            }
        }
    } else {
        assert(chain(ids).preorder() =~= seq![ids[0]]);
        assert(ids.contains(ids[0]));
    }
}

impl PlanTree {
    /// Whether this is the join tree of a rule.
    pub open spec fn describes(&self, rule: FLRuleModel, is_optimized: bool) -> bool {
        &&& is_over(rule, self.shape)
        &&& self.root == self.shape.root_id()
        &&& map_of(self.tree) == self.shape.tree_map()
        &&& map_of(self.sub_trees) == self.shape.sub_map()
        &&& self.tree_width == width(rule, self.shape, needed_vars(rule))
        &&& self.max_overlap == all_vars(rule, atoms_of(rule, true).len()).len() - distinct(
            all_vars(rule, atoms_of(rule, true).len()),
        ).len()
        &&& if is_optimized {
            is_choice(rule, core_ids(rule).len() as int, self.shape, self.overlap as nat)
        } else {
            self.shape == chain(core_ids(rule)) && self.overlap == chain_overlap(
                rule,
                core_ids(rule),
            )
        }
    }

    pub fn root(&self) -> (root: usize)
        ensures
            root == self.root,
    {
        self.root
    }

    pub fn tree(&self) -> (tree: &HashMap<usize, Vec<usize>>)
        ensures
            *tree == self.tree,
    {
        &self.tree
    }

    pub fn sub_trees(&self) -> (sub_trees: &HashMap<usize, Vec<usize>>)
        ensures
            *sub_trees == self.sub_trees,
    {
        &self.sub_trees
    }

    /// Whether the links of the tree account for all shared variables. Of the join tree
    /// of a rule that says that for every variable the atoms that have it are connected.
    pub fn is_acyclic(&self) -> (answer: bool)
        requires
            self.overlap <= self.max_overlap,
        ensures
            answer == (self.overlap == self.max_overlap),
    {
        self.overlap == self.max_overlap
    }

    pub fn is_leaf(&self, x: usize) -> (answer: bool)
        requires
            map_of(self.tree).contains_key(x),
        ensures
            answer == (map_of(self.tree)[x].len() == 0),
    {
        match self.tree.get(&x) {
            Some(children) => children.len() == 0,
            None => true,
        }
    }

    pub fn children(&self, x: usize) -> (children: &Vec<usize>)
        requires
            map_of(self.tree).contains_key(x),
        ensures
            children@ == map_of(self.tree)[x],
    {
        self.tree.get(&x).unwrap()
    }

    pub fn tree_width(&self) -> (width: usize)
        ensures
            width == self.tree_width,
    {
        self.tree_width
    }

    /// The variables of each core atom; none for other atoms.
    fn variable_sets(catalog: &Catalog) -> (sets: Vec<Vec<String>>)
        requires
            catalog.wf(),
        ensures
            sets@.len() == atoms_of(catalog.rule.deep_view(), true).len(),
            forall|i: int|
                0 <= i < sets@.len() ==> (#[trigger] sets@[i]).deep_view() == node_vars(
                    catalog.rule.deep_view(),
                    i,
                ),
    {
        let ghost rule = catalog.rule.deep_view();
        proof {
            catalog.lemma_parts();
        }
        let mut sets: Vec<Vec<String>> = Vec::new();
        let mut i: usize = 0;
        while i < catalog.is_core_atom_bitmap.len()
            invariant
                i <= catalog.is_core_atom_bitmap.len(),
                catalog.wf(),
                rule == catalog.rule.deep_view(),
                catalog.is_core_atom_bitmap@.len() == atoms_of(rule, true).len(),
                sets@.len() == i,
                forall|k: int|
                    0 <= k < i ==> (#[trigger] sets@[k]).deep_view() == node_vars(rule, k),
            decreases catalog.is_core_atom_bitmap.len() - i,
        {
            if catalog.is_core_atom_bitmap[i] {
                proof {
                    catalog.lemma_parts();
                }
                let strs = catalog.signature_to_argument_strs(&catalog.atom_argument_signatures[i]);
                sets.push(distinct_texts(&strs));
            } else {
                sets.push(empty());
            }
            i += 1;
        }
        sets
    }

    /// The preferred link among those that the tree can grow by.
    fn best_link(
        sets: &Vec<Vec<String>>,
        core: &Vec<usize>,
        placed: &Vec<Link>,
        in_tree: &Vec<bool>,
        Ghost(rule): Ghost<FLRuleModel>,
    ) -> (best: Option<(Link, usize)>)
        requires
            sets@.len() == atoms_of(rule, true).len(),
            forall|i: int|
                0 <= i < sets@.len() ==> (#[trigger] sets@[i]).deep_view() == node_vars(rule, i),
            forall|v: usize| core@.contains(v) ==> v < sets@.len(),
            in_tree@.len() == core@.len(),
            forall|c: int|
                0 <= c < core@.len() ==> (#[trigger] in_tree@[c] <==> is_placed(placed@, core@[c])),
            placed@.len() > 0,
            forall|j: int|
                0 <= j < placed@.len() ==> (#[trigger] placed@[j]).depth <= j && core@.contains(
                    placed@[j].id,
                ),
        ensures
            best matches Some(found) ==> is_best(rule, core@, placed@, found.0) && found.1
                < core@.len() && core@[found.1 as int] == found.0.id && !in_tree@[found.1 as int],
            best is None ==> forall|v: usize| core@.contains(v) ==> #[trigger] is_placed(placed@, v),
    {
        let ghost links = placed@;
        let mut best: Option<(Link, usize)> = None;
        let mut c: usize = 0;
        while c < core.len()
            invariant
                c <= core.len(),
                links == placed@,
                sets@.len() == atoms_of(rule, true).len(),
                forall|i: int|
                    0 <= i < sets@.len() ==> (#[trigger] sets@[i]).deep_view() == node_vars(rule, i),
                forall|v: usize| core@.contains(v) ==> v < sets@.len(),
                in_tree@.len() == core@.len(),
                forall|d: int|
                    0 <= d < core@.len() ==> (#[trigger] in_tree@[d] <==> is_placed(links, core@[d])),
                links.len() > 0,
                forall|j: int|
                    0 <= j < links.len() ==> (#[trigger] links[j]).depth <= j && core@.contains(
                        links[j].id,
                    ),
                best matches Some(found) ==> {
                    &&& found.1 < core@.len()
                    &&& core@[found.1 as int] == found.0.id
                    &&& !in_tree@[found.1 as int]
                    &&& found.0.parent < links.len()
                    &&& exists|i: int, v: usize| #[trigger]
                        is_offer(rule, core@, links, i, v) && found.0 == link_from(rule, links, i, v)
                    &&& forall|i: int, d: int|
                        #![trigger links[i], core@[d]]
                        0 <= i < links.len() && 0 <= d < c && !in_tree@[d] ==> !preferred(
                            links,
                            link_from(rule, links, i, core@[d]),
                            found.0,
                        )
                },
                best is None ==> forall|d: int| 0 <= d < c ==> #[trigger] in_tree@[d],
            decreases core.len() - c,
        {
            if !in_tree[c] {
                let v: usize = core[c];
                assert(core@.contains(v));
                let mut i: usize = 0;
                while i < placed.len()
                    invariant
                        i <= placed.len(),
                        c < core.len(),
                        links == placed@,
                        v == core@[c as int],
                        core@.contains(v),
                        !in_tree@[c as int],
                        !is_placed(links, v),
                        sets@.len() == atoms_of(rule, true).len(),
                        forall|i: int|
                            0 <= i < sets@.len() ==> (#[trigger] sets@[i]).deep_view() == node_vars(
                                rule,
                                i,
                            ),
                        forall|v: usize| core@.contains(v) ==> v < sets@.len(),
                        in_tree@.len() == core@.len(),
                        links.len() > 0,
                        forall|j: int|
                            0 <= j < links.len() ==> (#[trigger] links[j]).depth <= j
                                && core@.contains(links[j].id),
                        best matches Some(found) ==> {
                            &&& found.1 < core@.len()
                            &&& core@[found.1 as int] == found.0.id
                            &&& !in_tree@[found.1 as int]
                            &&& found.0.parent < links.len()
                            &&& exists|i: int, v: usize| #[trigger]
                                is_offer(rule, core@, links, i, v) && found.0 == link_from(
                                    rule,
                                    links,
                                    i,
                                    v,
                                )
                            &&& forall|i: int, d: int|
                                #![trigger links[i], core@[d]]
                                0 <= i < links.len() && 0 <= d < c && !in_tree@[d] ==> !preferred(
                                    links,
                                    link_from(rule, links, i, core@[d]),
                                    found.0,
                                )
                            &&& forall|k: int|
                                #![trigger links[k]]
                                0 <= k < i ==> !preferred(
                                    links,
                                    link_from(rule, links, k, v),
                                    found.0,
                                )
                        },
                        best is None ==> i == 0 && forall|d: int|
                            0 <= d < c ==> #[trigger] in_tree@[d],
                    decreases placed.len() - i,
                {
                    let at = placed[i];
                    assert(links[i as int].depth <= i && core@.contains(links[i as int].id));
                    let both = common_texts(&sets[at.id], &sets[v]);
                    let shared: usize = both.len();
                    assert(shared == both.deep_view().len());
                    let link = if shared > 0 {
                        Link { id: v, parent: i, depth: at.depth + 1, overlap: shared }
                    } else {
                        Link { id: v, parent: 0, depth: 1, overlap: 0 }
                    };
                    assert(link == link_from(rule, links, i as int, v));
                    assert(is_offer(rule, core@, links, i as int, v));
                    let better = match &best {
                        None => true,
                        Some(found) => {
                            let pa: usize = placed[link.parent].id;
                            let pb: usize = placed[found.0.parent].id;
                            link.overlap > found.0.overlap || link.overlap == found.0.overlap && (
                            link.depth < found.0.depth || link.depth == found.0.depth && (pa > pb
                                || pa == pb && link.id > found.0.id))
                        },
                    };
                    if better {
                        best = Some((link, c));
                    }
                    i += 1;
                }
            }
            c += 1;
        }
        proof {
            if best is Some {
                let found = best->0;
                assert forall|i: int, v: usize| #[trigger] is_offer(rule, core@, links, i, v) implies !preferred(
                    links,
                    link_from(rule, links, i, v),
                    found.0,
                ) by {
                    let d = choose|d: int| 0 <= d < core@.len() && core@[d] == v;
                    assert(!in_tree@[d]);
                    assert(links[i] == links[i]);
                }
            } else {
                assert forall|v: usize| core@.contains(v) implies #[trigger] is_placed(links, v) by {
                    let d = choose|d: int| 0 <= d < core@.len() && core@[d] == v;
                    assert(in_tree@[d]);
                }
            }
        }
        best
    }

    /// The tree that grows from a core atom by the preferred link each time.
    fn grow(
        sets: &Vec<Vec<String>>,
        core: &Vec<usize>,
        start: usize,
        Ghost(rule): Ghost<FLRuleModel>,
    ) -> (placed: Vec<Link>)
        requires
            sets@.len() == atoms_of(rule, true).len(),
            forall|i: int|
                0 <= i < sets@.len() ==> (#[trigger] sets@[i]).deep_view() == node_vars(rule, i),
            forall|v: usize| core@.contains(v) ==> v < sets@.len(),
            core@.no_duplicates(),
            start < core@.len(),
        ensures
            is_full(rule, core@, core@[start as int], placed@),
    {
        let root: usize = core[start];
        let mut placed: Vec<Link> = Vec::new();
        placed.push(Link { id: root, parent: 0, depth: 0, overlap: 0 });
        let mut in_tree: Vec<bool> = Vec::new();
        let mut c: usize = 0;
        while c < core.len()
            invariant
                c <= core.len(),
                start < core@.len(),
                root == core@[start as int],
                core@.no_duplicates(),
                in_tree@.len() == c,
                forall|d: int| 0 <= d < c ==> #[trigger] in_tree@[d] == (core@[d] == root),
            decreases core.len() - c,
        {
            in_tree.push(core[c] == root);
            c += 1;
        }
        proof {
            assert(core@.contains(root));
            assert forall|d: int| 0 <= d < core@.len() implies (#[trigger] in_tree@[d] <==> is_placed(
                placed@,
                core@[d],
            )) by {
                assert(placed@[0].id == root);
            }
        }
        let mut growing = true;
        while growing
            invariant
                root == core@[start as int],
                core@.contains(root),
                sets@.len() == atoms_of(rule, true).len(),
                forall|i: int|
                    0 <= i < sets@.len() ==> (#[trigger] sets@[i]).deep_view() == node_vars(rule, i),
                forall|v: usize| core@.contains(v) ==> v < sets@.len(),
                core@.no_duplicates(),
                is_grown(rule, core@, root, placed@),
                in_tree@.len() == core@.len(),
                forall|d: int|
                    0 <= d < core@.len() ==> (#[trigger] in_tree@[d] <==> is_placed(
                        placed@,
                        core@[d],
                    )),
                !growing ==> is_full(rule, core@, root, placed@),
            decreases open_count(in_tree@), if growing { 1int } else { 0int },
        {
            proof {
                assert(placed@.len() == placed.len());
                lemma_grown(rule, core@, root, placed@, placed@.len() as int);
            }
            match Self::best_link(sets, core, &placed, &in_tree, Ghost(rule)) {
                None => {
                    growing = false;
                },
                Some((link, at)) => {
                    let ghost before = placed@;
                    let ghost flags = in_tree@;
                    placed.push(link);
                    in_tree.set(at, true);
                    proof {
                        assert(placed@.take(before.len() as int) =~= before);
                        assert forall|k: int| 1 <= k < placed@.len() implies is_best(
                            rule,
                            core@,
                            placed@.take(k),
                            #[trigger] placed@[k],
                        ) by {
                            if k < before.len() {
                                assert(placed@.take(k) =~= before.take(k));
                                assert(placed@[k] == before[k]);
                            }
                        }
                        assert forall|d: int| 0 <= d < core@.len() implies (
                        #[trigger] in_tree@[d] <==> is_placed(placed@, core@[d])) by {
                            if is_placed(before, core@[d]) {
                                let j = choose|j: int|
                                    0 <= j < before.len() && (#[trigger] before[j]).id == core@[d];
                                assert(placed@[j].id == core@[d]);
                            }
                            if is_placed(placed@, core@[d]) {
                                let j = choose|j: int|
                                    0 <= j < placed@.len() && (#[trigger] placed@[j]).id == core@[d];
                                if j < before.len() {
                                    assert(before[j].id == core@[d]);
                                }
                            }
                            assert(placed@[before.len() as int].id == core@[at as int]);
                            assert(flags[d] <==> is_placed(before, core@[d]));
                        }
                        lemma_open_count_monotone(flags, in_tree@);
                        assert(!flags[at as int] && in_tree@[at as int]);
                    }
                },
            }
        }
        placed
    }

    /// The shared variables of all links together.
    fn overlap_of_links(
        sets: &Vec<Vec<String>>,
        placed: &Vec<Link>,
        Ghost(rule): Ghost<FLRuleModel>,
        Ghost(core): Ghost<Seq<usize>>,
        Ghost(root): Ghost<usize>,
    ) -> (shared: usize)
        requires
            sets@.len() == atoms_of(rule, true).len(),
            forall|i: int|
                0 <= i < sets@.len() ==> (#[trigger] sets@[i]).deep_view() == node_vars(rule, i),
            forall|v: usize| core.contains(v) ==> v < sets@.len(),
            core.contains(root),
            is_grown(rule, core, root, placed@),
        ensures
            shared == links_overlap(rule, placed@),
    {
        broadcast use group_take;

        let ghost links = placed@;
        proof {
            assert(placed@.len() == placed.len());
            lemma_grown(rule, core, root, links, links.len() as int);
        }
        let mut shared: Vec<String> = empty();
        let mut k: usize = 1;
        assert(links.take(1).len() == 1);
        while k < placed.len()
            invariant
                1 <= k <= placed.len(),
                links == placed@,
                sets@.len() == atoms_of(rule, true).len(),
                forall|i: int|
                    0 <= i < sets@.len() ==> (#[trigger] sets@[i]).deep_view() == node_vars(rule, i),
                forall|v: usize| core.contains(v) ==> v < sets@.len(),
                is_grown(rule, core, root, links),
                forall|j: int|
                    0 <= j < links.len() ==> (#[trigger] links[j]).depth <= j && core.contains(
                        links[j].id,
                    ),
                forall|j: int| 1 <= j < links.len() ==> (#[trigger] links[j]).parent < j,
                shared.deep_view().len() == links_overlap(rule, links.take(k as int)),
            decreases placed.len() - k,
        {
            let link = placed[k];
            let ghost front = links.take(k as int);
            proof {
                assert(links.take(k + 1).drop_last() == front);
                assert(links[k as int].parent < k);
                assert(core.contains(links[k as int].id));
                assert(core.contains(links[link.parent as int].id));
                lemma_link_overlap(rule, core, root, links, k as int);
            }
            if link.overlap > 0 {
                let own = common_texts(&sets[placed[link.parent].id], &sets[link.id]);
                assert(own.len() == own.deep_view().len());
                extend(&mut shared, own);
            }
            k += 1;
        }
        assert(shared.len() == shared.deep_view().len());
        shared.len()
    }

    /// The chain of the core atoms and the shared variables of neighbours.
    fn chain_of(
        sets: &Vec<Vec<String>>,
        core: &Vec<usize>,
        Ghost(rule): Ghost<FLRuleModel>,
    ) -> (out: (JoinTree, usize))
        requires
            core@.len() > 0,
            sets@.len() == atoms_of(rule, true).len(),
            forall|i: int|
                0 <= i < sets@.len() ==> (#[trigger] sets@[i]).deep_view() == node_vars(rule, i),
            forall|v: usize| core@.contains(v) ==> v < sets@.len(),
        ensures
            out.0 == chain(core@),
            out.1 == chain_overlap(rule, core@),
    {
        broadcast use group_take;

        let mut tree = JoinTree::Atom(core[0]);
        let mut shared: Vec<String> = empty();
        let mut k: usize = 1;
        while k < core.len()
            invariant
                1 <= k <= core.len(),
                sets@.len() == atoms_of(rule, true).len(),
                forall|i: int|
                    0 <= i < sets@.len() ==> (#[trigger] sets@[i]).deep_view() == node_vars(rule, i),
                forall|v: usize| core@.contains(v) ==> v < sets@.len(),
                tree == chain(core@.take(k as int)),
                shared.deep_view().len() == chain_overlap(rule, core@.take(k as int)),
            decreases core.len() - k,
        {
            let ghost now = core@.take(k + 1);
            assert(now.drop_last() == core@.take(k as int));
            assert(core@.contains(core@[k as int]) && core@.contains(core@[k - 1]));
            let own = common_texts(&sets[core[k]], &sets[core[k - 1]]);
            extend(&mut shared, own);
            tree = JoinTree::Join(Box::new(JoinTree::Atom(core[k])), Box::new(tree));
            k += 1;
        }
        assert(shared.len() == shared.deep_view().len());
        (tree, shared.len())
    }

    /// The best of a list of candidates, if one beats the given tree.
    fn best_of(
        catalog: &Catalog,
        trees: Vec<JoinTree>,
        needed: &Vec<String>,
        tree: &mut JoinTree,
        width: &mut usize,
        depth: &mut usize,
    ) -> (improved: bool)
        requires
            catalog.wf(),
            needed.deep_view() == needed_vars(catalog.rule.deep_view()),
            *old(width) == crate::optimizing::join_tree::width(
                catalog.rule.deep_view(),
                *old(tree),
                needed.deep_view(),
            ),
            *old(depth) == old(tree).depth(),
            forall|k: int|
                0 <= k < trees@.len() ==> is_over(catalog.rule.deep_view(), #[trigger] trees@[k])
                    && trees@[k].depth() <= usize::MAX,
        ensures
            *final(width) == crate::optimizing::join_tree::width(
                catalog.rule.deep_view(),
                *final(tree),
                needed.deep_view(),
            ),
            *final(depth) == final(tree).depth(),
            improved ==> trees@.contains(*final(tree)) && beats(
                catalog.rule.deep_view(),
                *final(tree),
                *old(tree),
            ),
            !improved ==> *final(tree) == *old(tree),
            forall|k: int|
                0 <= k < trees@.len() ==> !beats(
                    catalog.rule.deep_view(),
                    #[trigger] trees@[k],
                    *final(tree),
                ),
    {
        let ghost rule = catalog.rule.deep_view();
        let mut improved = false;
        let mut k: usize = 0;
        while k < trees.len()
            invariant
                k <= trees.len(),
                catalog.wf(),
                rule == catalog.rule.deep_view(),
                needed.deep_view() == needed_vars(rule),
                *width == crate::optimizing::join_tree::width(rule, *tree, needed.deep_view()),
                *depth == tree.depth(),
                forall|k: int|
                    0 <= k < trees@.len() ==> is_over(rule, #[trigger] trees@[k])
                        && trees@[k].depth() <= usize::MAX,
                improved ==> trees@.contains(*tree) && beats(rule, *tree, *old(tree)),
                !improved ==> *tree == *old(tree),
                forall|m: int| 0 <= m < k ==> !beats(rule, #[trigger] trees@[m], *tree),
            decreases trees.len() - k,
        {
            let candidate = &trees[k];
            assert(is_over(rule, trees@[k as int]));
            let candidate_width: usize = tree_width(catalog, candidate, needed);
            let candidate_depth: usize = candidate.height();
            if candidate_width < *width || candidate_width == *width && candidate_depth < *depth {
                let ghost before = *tree;
                *tree = candidate.copy();
                *width = candidate_width;
                *depth = candidate_depth;
                improved = true;
                assert(trees@.contains(trees@[k as int]));
                assert(beats(rule, *tree, before));
            }
            k += 1;
        }
        improved
    }

    /// The join tree of a rule: the chain of its core atoms, or the best tree
    /// found where the order is to be optimised.
    pub fn from_catalog(catalog: &Catalog, is_optimized: bool) -> (plan: Self)
        requires
            catalog.wf(),
            core_ids(catalog.rule.deep_view()).len() > 0,
        ensures
            plan.describes(catalog.rule.deep_view(), is_optimized),
            plan.overlap <= plan.max_overlap,
            plan.overlap == plan.max_overlap <==> forall|var: Seq<char>| #[trigger]
                is_connected(catalog.rule.deep_view(), plan.shape, var),
    {
        let ghost rule = catalog.rule.deep_view();
        let ghost n = atoms_of(rule, true).len();
        let sets = Self::variable_sets(catalog);
        let core = core_atoms(catalog);
        proof {
            catalog.lemma_parts();
            assert(sets.len() == n);
            lemma_core_below(rule, n);
            lemma_chain_parts(rule, core@);
            assert(core.len() == core@.len());
        }
        let (mut tree, chain_shared) = Self::chain_of(&sets, &core, Ghost(rule));
        let needed = distinct_texts(&catalog.head_arguments_strs());
        let mut shared: usize = chain_shared;
        proof {
            assert forall|k: int| 0 <= k < tree.preorder().len() implies (
            #[trigger] tree.preorder()[k]) < n by {
                assert(core@.contains(tree.preorder()[k]));
            }
        }
        let mut width: usize = tree_width(catalog, &tree, &needed);
        let mut depth: usize = tree.height();
        if is_optimized {
            let mut a: usize = 0;
            while a < core.len()
                invariant
                    a <= core.len(),
                    catalog.wf(),
                    rule == catalog.rule.deep_view(),
                    n == atoms_of(rule, true).len(),
                    core@ == core_ids(rule),
                    core@.no_duplicates(),
                    sets@.len() == n,
                    forall|i: int|
                        0 <= i < sets@.len() ==> (#[trigger] sets@[i]).deep_view() == node_vars(
                            rule,
                            i,
                        ),
                    forall|v: usize| core@.contains(v) ==> v < n,
                    needed.deep_view() == needed_vars(rule),
                    is_over(rule, tree),
                    width == crate::optimizing::join_tree::width(rule, tree, needed_vars(rule)),
                    depth == tree.depth(),
                    is_choice(rule, a as int, tree, shared as nat),
                decreases core.len() - a,
            {
                let placed = Self::grow(&sets, &core, a, Ghost(rule));
                let ghost links = placed@;
                let ghost root = core@[a as int];
                proof {
                    assert(placed@.len() == placed.len());
                    assert(core@.contains(root));
                    lemma_grown(rule, core@, root, links, links.len() as int);
                }
                let trees = arrangements(&placed, 0);
                proof {
                    assert forall|k: int| 0 <= k < trees@.len() implies is_over(
                        rule,
                        #[trigger] trees@[k],
                    ) && trees@[k].depth() <= usize::MAX && is_arrangement(trees@[k], links, 0) by {
                        let t = trees@[k];
                        assert(trees@.contains(t));
                        lemma_arrangement_parts(t, links, 0);
                        assert forall|m: int| 0 <= m < t.preorder().len() implies (
                        #[trigger] t.preorder()[m]) < n by {
                            let x = t.preorder()[m];
                            assert(is_placed(links, x));
                            let j = choose|j: int| 0 <= j < links.len() && (#[trigger] links[j]).id == x;
                            assert(core@.contains(links[j].id));
                        }
                    }
                }
                let ghost all = trees@;
                let ghost tree0 = tree;
                let ghost shared0 = shared as nat;
                let improved = Self::best_of(
                    catalog,
                    trees,
                    &needed,
                    &mut tree,
                    &mut width,
                    &mut depth,
                );
                if improved {
                    shared = Self::overlap_of_links(
                        &sets,
                        &placed,
                        Ghost(rule),
                        Ghost(core@),
                        Ghost(root),
                    );
                }
                proof {
                    if improved {
                        let k = choose|k: int| 0 <= k < all.len() && all[k] == tree;
                        assert(is_over(rule, all[k]));
                        assert(is_arrangement(all[k], links, 0));
                    }
                    lemma_next_choice(
                        rule,
                        a as int,
                        links,
                        all,
                        tree0,
                        shared0,
                        tree,
                        shared as nat,
                        improved,
                    );
                }
                a += 1;
            }
        }
        // what the atoms could share at most
        let mut listed: Vec<String> = empty();
        let mut i: usize = 0;
        while i < sets.len()
            invariant
                i <= sets.len(),
                sets@.len() == n,
                forall|i: int|
                    0 <= i < sets@.len() ==> (#[trigger] sets@[i]).deep_view() == node_vars(rule, i),
                listed.deep_view() == all_vars(rule, i as nat),
            decreases sets.len() - i,
        {
            extend(&mut listed, clone_list(&sets[i]));
            i += 1;
        }
        let different = distinct_texts(&listed);
        proof {
            assert(listed.len() == listed.deep_view().len());
            assert(different.len() == different.deep_view().len());
            lemma_distinct_len(listed.deep_view());
        }
        let plan = PlanTree {
            root: tree.root(),
            tree: tree.to_map(),
            overlap: shared,
            max_overlap: listed.len() - different.len(),
            sub_trees: tree.to_sub_map(),
            tree_width: width,
            shape: tree,
        };
        proof {
            catalog.lemma_positions_small();
            law_acyclic_means_connected(rule, is_optimized, plan);
        }
        plan
    }
}

proof fn lemma_link_overlap(
    rule: FLRuleModel,
    core: Seq<usize>,
    root: usize,
    links: Seq<Link>,
    k: int,
)
    requires
        is_grown(rule, core, root, links),
        1 <= k < links.len() <= usize::MAX,
    ensures
        links[k].overlap > 0 ==> links[k].overlap == overlap(
            rule,
            links[links[k].parent as int].id,
            links[k].id,
        ) as usize,
{
    let front = links.take(k);
    assert(is_best(rule, core, front, links[k]));
    let (i, v) = choose|i: int, v: usize| #[trigger]
        is_offer(rule, core, front, i, v) && links[k] == link_from(rule, front, i, v);
    assert(front[i] == links[i]);
}

pub proof fn lemma_distinct_len<A>(items: Seq<A>)
    ensures
        distinct(items).len() <= items.len(),
    decreases items.len(),
{
    if items.len() > 0 {
        lemma_distinct_len(items.drop_last());
    }
}

proof fn lemma_next_choice(
    rule: FLRuleModel,
    a: int,
    links: Seq<Link>,
    trees: Seq<JoinTree>,
    tree0: JoinTree,
    shared0: nat,
    tree: JoinTree,
    shared: nat,
    improved: bool,
)
    requires
        0 <= a < core_ids(rule).len(),
        is_choice(rule, a, tree0, shared0),
        links.len() <= usize::MAX,
        is_full(rule, core_ids(rule), core_ids(rule)[a], links),
        forall|t: JoinTree| #[trigger] trees.contains(t) <==> is_arrangement(t, links, 0),
        improved ==> trees.contains(tree) && beats(rule, tree, tree0) && shared == links_overlap(
            rule,
            links,
        ),
        !improved ==> tree == tree0 && shared == shared0,
        forall|k: int| 0 <= k < trees.len() ==> !beats(rule, #[trigger] trees[k], tree),
    ensures
        is_choice(rule, a + 1, tree, shared),
{
    let core = core_ids(rule);
    assert(core.contains(core[a]));
    assert forall|b: int, other: JoinTree| 0 <= b < a + 1 && #[trigger] is_candidate(rule, b, other) implies !beats(rule, other, tree) by {
        if b < a {
            assert(!beats(rule, other, tree0));
        } else {
            let placed = choose|placed: Seq<Link>|
                placed.len() <= usize::MAX && #[trigger] is_full(rule, core, core[a], placed)
                    && is_arrangement(other, placed, 0);
            lemma_grown_unique(rule, core, core[a], placed, links);
            assert(trees.contains(other));
            let k = choose|k: int| 0 <= k < trees.len() && trees[k] == other;
            assert(!beats(rule, trees[k], tree));
        }
    }
    if improved {
        assert(is_full(rule, core, core[a], links));
        assert forall|b: int, other: JoinTree| 0 <= b < a && #[trigger] is_candidate(rule, b, other) implies beats(rule, tree, other) by {
            assert(!beats(rule, other, tree0));
        }
        assert(beats(rule, tree, chain(core))) by {
            if tree0 != chain(core) {
                assert(beats(rule, tree0, chain(core)));
            }
        }
    } else if !(tree == chain(core) && shared == chain_overlap(rule, core)) {
        let (b, placed) = choose|b: int, placed: Seq<Link>|
            0 <= b < a && placed.len() <= usize::MAX && #[trigger] is_full(
                rule,
                core,
                core[b],
                placed,
            ) && is_arrangement(tree, placed, 0) && shared == links_overlap(rule, placed) && beats(
                rule,
                tree,
                chain(core),
            ) && forall|c: int, other: JoinTree|
                0 <= c < b && #[trigger] is_candidate(rule, c, other) ==> beats(rule, tree, other);
        assert(is_full(rule, core, core[b], placed));
    }
}

} // verus!
