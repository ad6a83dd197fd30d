//! Join trees over the atoms of a rule body.
use std::collections::HashMap;
use vstd::prelude::*;
use vstd::string::*;
use crate::catalog::query::vars_of;
use crate::catalog::rule::{distinct_texts, Catalog};
use crate::catalog::body::atoms_of;
use crate::lists::{clone_list, contains_same, empty, extend, group_take, push};
use crate::parsing::arithmetic::distinct;
use crate::parsing::rule::FLRuleModel;

verus! {

broadcast use vstd::std_specs::hash::group_hash_axioms;

/// A tree of atoms, taken apart from its last subtree: either a lone atom, or a
/// tree and the last subtree below its root.
#[derive(Debug)]
pub enum JoinTree {
    Atom(usize),
    Join(Box<JoinTree>, Box<JoinTree>),
}

impl JoinTree {
    /// The atom at the root.
    pub open spec fn root_id(self) -> usize
        decreases self,
    {
        match self {
            JoinTree::Atom(id) => id,
            JoinTree::Join(rest, last) => rest.root_id(),
        }
    }

    /// The atoms right below the root, in order.
    pub open spec fn child_ids(self) -> Seq<usize>
        decreases self,
    {
        match self {
            JoinTree::Atom(id) => Seq::empty(),
            JoinTree::Join(rest, last) => rest.child_ids().push(last.root_id()),
        }
    }

    /// All atoms, each before the subtrees below it, these in order.
    pub open spec fn preorder(self) -> Seq<usize>
        decreases self,
    {
        match self {
            JoinTree::Atom(id) => seq![id],
            JoinTree::Join(rest, last) => rest.preorder() + last.preorder(),
        }
    }

    /// The longest way down from the root.
    pub open spec fn depth(self) -> nat
        decreases self,
    {
        match self {
            JoinTree::Atom(id) => 0,
            JoinTree::Join(rest, last) => if rest.depth() < 1 + last.depth() {
                1 + last.depth()
            } else {
                rest.depth()
            },
        }
    }

    /// Each atom with the atoms right below it.
    pub open spec fn tree_map(self) -> Map<usize, Seq<usize>>
        decreases self,
    {
        match self {
            JoinTree::Atom(id) => Map::empty().insert(id, Seq::empty()),
            JoinTree::Join(rest, last) => rest.tree_map().union_prefer_right(last.tree_map()).insert(
                self.root_id(),
                self.child_ids(),
            ),
        }
    }

    /// Each atom with all atoms of the subtree at it.
    pub open spec fn sub_map(self) -> Map<usize, Seq<usize>>
        decreases self,
    {
        match self {
            JoinTree::Atom(id) => Map::empty().insert(id, seq![id]),
            JoinTree::Join(rest, last) => rest.sub_map().union_prefer_right(last.sub_map()).insert(
                self.root_id(),
                self.preorder(),
            ),
        }
    }

    pub fn copy(&self) -> (copy: JoinTree)
        ensures
            copy == *self,
        decreases self,
    {
        match self {
            JoinTree::Atom(id) => JoinTree::Atom(*id),
            JoinTree::Join(rest, last) => JoinTree::Join(
                Box::new(rest.copy()),
                Box::new(last.copy()),
            ),
        }
    }

    pub fn root(&self) -> (id: usize)
        ensures
            id == self.root_id(),
        decreases self,
    {
        match self {
            JoinTree::Atom(id) => *id,
            JoinTree::Join(rest, last) => rest.root(),
        }
    }

    /// The atoms right below the root.
    pub fn children(&self) -> (ids: Vec<usize>)
        ensures
            ids@ == self.child_ids(),
        decreases self,
    {
        match self {
            JoinTree::Atom(_) => Vec::new(),
            JoinTree::Join(rest, last) => {
                let mut ids = rest.children();
                ids.push(last.root());
                ids
            },
        }
    }

    /// All atoms, each before the subtrees below it.
    pub fn atoms(&self) -> (ids: Vec<usize>)
        ensures
            ids@ == self.preorder(),
        decreases self,
    {
        match self {
            JoinTree::Atom(id) => {
                let mut ids: Vec<usize> = Vec::new();
                ids.push(*id);
                assert(ids@ =~= seq![*id]);
                ids
            },
            JoinTree::Join(rest, last) => {
                let mut ids = rest.atoms();
                let mut more = last.atoms();
                ids.append(&mut more);
                ids
            },
        }
    }

    /// The longest way down from the root.
    pub fn height(&self) -> (depth: usize)
        requires
            self.depth() <= usize::MAX,
        ensures
            depth == self.depth(),
        decreases self,
    {
        match self {
            JoinTree::Atom(_) => 0,
            JoinTree::Join(rest, last) => {
                let a: usize = rest.height();
                let b: usize = last.height();
                if a < b + 1 {
                    b + 1
                } else {
                    a
                }
            },
        }
    }

    /// Each atom with the atoms right below it.
    pub fn to_map(&self) -> (map: HashMap<usize, Vec<usize>>)
        ensures
            map_of(map) == self.tree_map(),
        decreases self,
    {
        match self {
            JoinTree::Atom(id) => {
                let mut map: HashMap<usize, Vec<usize>> = HashMap::new();
                map.insert(*id, Vec::new());
                assert(map_of(map) =~= self.tree_map());
                map
            },
            JoinTree::Join(rest, last) => {
                let mut map = rest.to_map();
                merge_maps(&mut map, &last.to_map());
                let ghost merged = map_of(map);
                let root: usize = self.root();
                let ids = self.children();
                map.insert(root, ids);
                assert(map_of(map) =~= merged.insert(root, ids@));
                map
            },
        }
    }

    /// Each atom with all atoms of the subtree at it.
    pub fn to_sub_map(&self) -> (map: HashMap<usize, Vec<usize>>)
        ensures
            map_of(map) == self.sub_map(),
        decreases self,
    {
        match self {
            JoinTree::Atom(id) => {
                let mut map: HashMap<usize, Vec<usize>> = HashMap::new();
                let ids = self.atoms();
                map.insert(*id, ids);
                assert(map_of(map) =~= self.sub_map());
                map
            },
            JoinTree::Join(rest, last) => {
                let mut map = rest.to_sub_map();
                merge_maps(&mut map, &last.to_sub_map());
                let ghost merged = map_of(map);
                let root: usize = self.root();
                let ids = self.atoms();
                map.insert(root, ids);
                assert(map_of(map) =~= merged.insert(root, ids@));
                map
            },
        }
    }
}

/// The contents of a map of lists.
pub open spec fn map_of(map: HashMap<usize, Vec<usize>>) -> Map<usize, Seq<usize>> {
    Map::new(|k: usize| map@.contains_key(k), |k: usize| map@[k]@)
}

/// Enters all of `more`, which wins where both have a key.
fn merge_maps(map: &mut HashMap<usize, Vec<usize>>, more: &HashMap<usize, Vec<usize>>)
    ensures
        map_of(*final(map)) == map_of(*old(map)).union_prefer_right(map_of(*more)),
{
    let keys = crate::sorted::sorted_keys(more);
    let ghost before = map_of(*map);
    let ghost added = map_of(*more);
    let mut i: usize = 0;
    while i < keys.len()
        invariant
            i <= keys.len(),
            keys@.to_set() == more@.dom(),
            before == map_of(*old(map)),
            added == map_of(*more),
            forall|k: usize|
                #[trigger] map@.contains_key(k) <==> before.contains_key(k) || keys@.take(
                    i as int,
                ).contains(k),
            forall|k: usize|
                map@.contains_key(k) ==> (#[trigger] map@[k])@ == if keys@.take(i as int).contains(k) {
                    added[k]
                } else {
                    before[k]
                },
        decreases keys.len() - i,
    {
        let key: usize = keys[i];
        let ghost taken = keys@.take(i as int);
        let ghost longer = keys@.take(i + 1);
        proof {
            assert(keys@.contains(key));
            assert(keys@.to_set().contains(key));
            assert forall|k: usize| longer.contains(k) <==> taken.contains(k) || k == key by {
                if taken.contains(k) {
                    let m = choose|m: int| 0 <= m < taken.len() && taken[m] == k;
                    assert(longer[m] == k);
                }
                if longer.contains(k) {
                    let m = choose|m: int| 0 <= m < longer.len() && longer[m] == k;
                    if m < i {
                        assert(taken[m] == k);
                    }
                }
                assert(longer[i as int] == key);
            }
        }
        if let Some(list) = more.get(&key) {
            let copy = list.clone();
            assert(copy@ =~= list@);
            map.insert(key, copy);
        }
        i += 1;
    }
    proof {
        assert(keys@.take(i as int) =~= keys@);
        assert forall|k: usize| keys@.contains(k) <==> added.contains_key(k) by {
            assert(keys@.contains(k) <==> keys@.to_set().contains(k));
        }
        assert(map_of(*map) =~= before.union_prefer_right(added));
    }
}

/// The items of `a` that are also in `b`.
pub open spec fn common(a: Seq<Seq<char>>, b: Seq<Seq<char>>) -> Seq<Seq<char>>
    decreases a.len(),
{
    if a.len() == 0 {
        Seq::empty()
    } else {
        let front = common(a.drop_last(), b);
        if b.contains(a.last()) {
            front.push(a.last())
        } else {
            front
        }
    }
}

pub fn common_texts(a: &Vec<String>, b: &Vec<String>) -> (out: Vec<String>)
    ensures
        out.deep_view() == common(a.deep_view(), b.deep_view()),
{
    broadcast use group_take;

    let mut out: Vec<String> = empty();
    let ghost model = a.deep_view();
    let mut i: usize = 0;
    while i < a.len()
        invariant
            i <= a.len(),
            model == a.deep_view(),
            out.deep_view() == common(model.take(i as int), b.deep_view()),
        decreases a.len() - i,
    {
        assert(model.take(i + 1).drop_last() == model.take(i as int));
        assert(model[i as int] == a[i as int]@);
        if contains_same(b, &a[i]) {
            push(&mut out, a[i].clone());
        }
        i += 1;
    }
    out
}

/// The number of variables that the widest join of a tree carries on: at every
/// join each side hands on what the other side or the result of the join needs.
pub open spec fn width(rule: FLRuleModel, tree: JoinTree, needed: Seq<Seq<char>>) -> nat
    decreases tree,
{
    match tree {
        JoinTree::Atom(id) => 0,
        JoinTree::Join(rest, last) => {
            let last_vars = distinct(vars_of(rule, true, last.preorder()));
            let rest_vars = distinct(vars_of(rule, true, rest.preorder()));
            let from_last = common(last_vars, rest_vars + needed);
            let from_rest = common(rest_vars, last_vars + needed);
            let below_last = width(rule, *last, from_last);
            let below_rest = width(rule, *rest, from_rest);
            let here = distinct(from_last + from_rest).len();
            let below = if below_last > below_rest {
                below_last
            } else {
                below_rest
            };
            if below > here {
                below
            } else {
                here
            }
        },
    }
}

/// Whether all atoms of a tree are positive atoms of the rule.
pub open spec fn is_over(rule: FLRuleModel, tree: JoinTree) -> bool {
    forall|k: int|
        0 <= k < tree.preorder().len() ==> (#[trigger] tree.preorder()[k]) < atoms_of(rule, true).len()
}

pub proof fn lemma_is_over_parts(rule: FLRuleModel, rest: JoinTree, last: JoinTree)
    requires
        is_over(rule, JoinTree::Join(Box::new(rest), Box::new(last))),
    ensures
        is_over(rule, rest),
        is_over(rule, last),
{
    let tree = JoinTree::Join(Box::new(rest), Box::new(last));
    assert(tree.preorder() == rest.preorder() + last.preorder());
    assert forall|k: int| 0 <= k < rest.preorder().len() implies (#[trigger] rest.preorder()[k])
        < atoms_of(rule, true).len() by {
        assert(tree.preorder()[k] == rest.preorder()[k]);
    }
    assert forall|k: int| 0 <= k < last.preorder().len() implies (#[trigger] last.preorder()[k])
        < atoms_of(rule, true).len() by {
        assert(tree.preorder()[rest.preorder().len() + k] == last.preorder()[k]);
    }
}

/// The number of variables that the widest join of a tree carries on.
pub fn tree_width(catalog: &Catalog, tree: &JoinTree, needed: &Vec<String>) -> (width: usize)
    requires
        catalog.wf(),
        is_over(catalog.rule.deep_view(), *tree),
    ensures
        width == self::width(catalog.rule.deep_view(), *tree, needed.deep_view()),
    decreases tree,
{
    match tree {
        JoinTree::Atom(_) => 0,
        JoinTree::Join(rest, last) => {
            proof {
                lemma_is_over_parts(catalog.rule.deep_view(), **rest, **last);
            }
            let last_vars = catalog.vars_set(&last.atoms());
            let rest_vars = catalog.vars_set(&rest.atoms());
            let mut wanted = clone_list(&rest_vars);
            extend(&mut wanted, clone_list(needed));
            let mut from_last = common_texts(&last_vars, &wanted);
            let mut wanted = clone_list(&last_vars);
            extend(&mut wanted, clone_list(needed));
            let from_rest = common_texts(&rest_vars, &wanted);
            let below_last: usize = tree_width(catalog, last, &from_last);
            let below_rest: usize = tree_width(catalog, rest, &from_rest);
            extend(&mut from_last, from_rest);
            let all = distinct_texts(&from_last);
            let here: usize = all.len();
            assert(here == all.deep_view().len());
            let below: usize = if below_last > below_rest {
                below_last
            } else {
                below_rest
            };
            if below > here {
                below
            } else {
                here
            }
        },
    }
}

} // verus!
