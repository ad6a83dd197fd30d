//! When the links of a join tree account for all that the atoms of a rule share.
use vstd::prelude::*;
use crate::catalog::atoms::AtomArgumentSignature;
use crate::catalog::body::{are_positions_small, atom_positions, atoms_of, positive_atoms};
use crate::catalog::cores::{core_below, core_ids, lemma_core_below};
use crate::catalog::rule::{atom_strs, is_core, strs_of};
use crate::optimizing::covering::law_join_tree_covers;
use crate::optimizing::growing::{
    child_positions, is_arranged, is_arrangement, is_best, is_full, is_grown, is_offer, is_ordering,
    is_placed, lemma_arranged_parts, lemma_arrangement_parts, lemma_child_positions, lemma_grown,
    link_from, links_overlap, node_vars, overlap, preferred, Link,
};
use crate::optimizing::join_tree::{common, JoinTree};
use crate::optimizing::optimizer::{all_vars, chain, chain_overlap, lemma_distinct_len, PlanTree};
use crate::parsing::arithmetic::{distinct, lemma_distinct};
use crate::parsing::rule::FLRuleModel;

verus! {

/// Whether an atom of a tree has a variable.
pub open spec fn has_var(rule: FLRuleModel, tree: JoinTree, var: Seq<char>) -> bool
    decreases tree,
{
    match tree {
        JoinTree::Atom(id) => node_vars(rule, id as int).contains(var),
        JoinTree::Join(rest, last) => has_var(rule, *rest, var) || has_var(rule, *last, var),
    }
}

/// Whether the atoms that have a variable are a connected part of a tree: they are
/// connected in both parts that a link joins, and where there are some in both, the
/// two ends of the link are among them.
pub open spec fn is_connected(rule: FLRuleModel, tree: JoinTree, var: Seq<char>) -> bool
    decreases tree,
{
    match tree {
        JoinTree::Atom(id) => true,
        JoinTree::Join(rest, last) => {
            &&& is_connected(rule, *rest, var)
            &&& is_connected(rule, *last, var)
            &&& has_var(rule, *rest, var) && has_var(rule, *last, var) ==> node_vars(
                rule,
                rest.root_id() as int,
            ).contains(var) && node_vars(rule, last.root_id() as int).contains(var)
        },
    }
}

/// The variables that the two ends of each link share, all together.
pub open spec fn tree_overlap(rule: FLRuleModel, tree: JoinTree) -> nat
    decreases tree,
{
    match tree {
        JoinTree::Atom(id) => 0,
        JoinTree::Join(rest, last) => tree_overlap(rule, *rest) + tree_overlap(rule, *last)
            + overlap(rule, rest.root_id(), last.root_id()),
    }
}

/// Some number for each variable, added up.
spec fn sum_vars(vars: Seq<Seq<char>>, f: spec_fn(Seq<char>) -> nat) -> nat
    decreases vars.len(),
{
    if vars.len() == 0 {
        0
    } else {
        sum_vars(vars.drop_last(), f) + f(vars.last())
    }
}

/// Some number for each atom, added up.
spec fn sum_ids(ids: Seq<usize>, f: spec_fn(usize) -> nat) -> nat
    decreases ids.len(),
{
    if ids.len() == 0 {
        0
    } else {
        sum_ids(ids.drop_last(), f) + f(ids.last())
    }
}

spec fn one(answer: bool) -> nat {
    if answer {
        1
    } else {
        0
    }
}

/// How many atoms of a tree have a variable.
spec fn count(rule: FLRuleModel, tree: JoinTree, var: Seq<char>) -> nat
    decreases tree,
{
    match tree {
        JoinTree::Atom(id) => one(node_vars(rule, id as int).contains(var)),
        JoinTree::Join(rest, last) => count(rule, *rest, var) + count(rule, *last, var),
    }
}

/// How many links of a tree have a variable at both ends.
spec fn links_with(rule: FLRuleModel, tree: JoinTree, var: Seq<char>) -> nat
    decreases tree,
{
    match tree {
        JoinTree::Atom(id) => 0,
        JoinTree::Join(rest, last) => links_with(rule, *rest, var) + links_with(rule, *last, var)
            + one(
            node_vars(rule, rest.root_id() as int).contains(var) && node_vars(
                rule,
                last.root_id() as int,
            ).contains(var),
        ),
    }
}

proof fn lemma_root_has(rule: FLRuleModel, tree: JoinTree, var: Seq<char>)
    requires
        node_vars(rule, tree.root_id() as int).contains(var),
    ensures
        has_var(rule, tree, var),
    decreases tree,
{
    match tree {
        JoinTree::Atom(id) => {},
        JoinTree::Join(rest, last) => {
            lemma_root_has(rule, *rest, var);
        },
    }
}

/// The atoms with a variable are one more than the links with it exactly where they
/// are connected, and never less.
proof fn lemma_links_with(rule: FLRuleModel, tree: JoinTree, var: Seq<char>)
    ensures
        links_with(rule, tree, var) + one(has_var(rule, tree, var)) <= count(rule, tree, var),
        is_connected(rule, tree, var) <==> links_with(rule, tree, var) + one(
            has_var(rule, tree, var),
        ) == count(rule, tree, var),
    decreases tree,
{
    match tree {
        JoinTree::Atom(id) => {},
        JoinTree::Join(rest, last) => {
            lemma_links_with(rule, *rest, var);
            lemma_links_with(rule, *last, var);
            if node_vars(rule, rest.root_id() as int).contains(var) {
                lemma_root_has(rule, *rest, var);
            }
            if node_vars(rule, last.root_id() as int).contains(var) {
                lemma_root_has(rule, *last, var);
            }
        },
    }
}

proof fn lemma_sum_same(
    vars: Seq<Seq<char>>,
    f: spec_fn(Seq<char>) -> nat,
    g: spec_fn(Seq<char>) -> nat,
)
    requires
        forall|v: Seq<char>| vars.contains(v) ==> #[trigger] f(v) == g(v),
    ensures
        sum_vars(vars, f) == sum_vars(vars, g),
    decreases vars.len(),
{
    if vars.len() > 0 {
        let front = vars.drop_last();
        assert forall|v: Seq<char>| front.contains(v) implies #[trigger] f(v) == g(v) by {
            let k = choose|k: int| 0 <= k < front.len() && front[k] == v;
            assert(vars[k] == v);
        }
        lemma_sum_same(front, f, g);
        assert(vars.contains(vars[vars.len() - 1]));
        assert(f(vars.last()) == g(vars.last()));
    }
}

proof fn lemma_sum_plus(
    vars: Seq<Seq<char>>,
    f: spec_fn(Seq<char>) -> nat,
    g: spec_fn(Seq<char>) -> nat,
    h: spec_fn(Seq<char>) -> nat,
)
    requires
        forall|v: Seq<char>| #[trigger] h(v) == f(v) + g(v),
    ensures
        sum_vars(vars, h) == sum_vars(vars, f) + sum_vars(vars, g),
    decreases vars.len(),
{
    if vars.len() > 0 {
        lemma_sum_plus(vars.drop_last(), f, g, h);
        assert(h(vars.last()) == f(vars.last()) + g(vars.last()));
    }
}

/// What is nowhere more is more all together exactly where it is more somewhere.
proof fn lemma_sum_below(
    vars: Seq<Seq<char>>,
    f: spec_fn(Seq<char>) -> nat,
    g: spec_fn(Seq<char>) -> nat,
)
    requires
        forall|v: Seq<char>| #[trigger] f(v) <= g(v),
    ensures
        sum_vars(vars, f) <= sum_vars(vars, g),
        sum_vars(vars, f) == sum_vars(vars, g) <==> forall|v: Seq<char>|
            vars.contains(v) ==> #[trigger] f(v) == g(v),
    decreases vars.len(),
{
    if vars.len() > 0 {
        let front = vars.drop_last();
        let x = vars.last();
        lemma_sum_below(front, f, g);
        assert(f(x) <= g(x));
        assert(vars.contains(vars[vars.len() - 1]));
        assert forall|v: Seq<char>| #[trigger] vars.contains(v) <==> front.contains(v) || v == x by {
            if vars.contains(v) {
                let k = choose|k: int| 0 <= k < vars.len() && vars[k] == v;
                if k < front.len() {
                    assert(front[k] == v);
                }
            }
            if front.contains(v) {
                let k = choose|k: int| 0 <= k < front.len() && front[k] == v;
                assert(vars[k] == v);
            }
        }
        if sum_vars(vars, f) == sum_vars(vars, g) {
            assert(sum_vars(front, f) == sum_vars(front, g));
            assert(f(x) == g(x));
            assert forall|v: Seq<char>| vars.contains(v) implies #[trigger] f(v) == g(v) by {}
        }
        if forall|v: Seq<char>| vars.contains(v) ==> #[trigger] f(v) == g(v) {
            assert(f(x) == g(x));
            assert forall|v: Seq<char>| front.contains(v) implies #[trigger] f(v) == g(v) by {
                assert(vars.contains(v));
            }
        }
    }
}

/// Items that are among some variables, one for each that is among them.
proof fn lemma_sum_of_items(
    vars: Seq<Seq<char>>,
    items: Seq<Seq<char>>,
    f: spec_fn(Seq<char>) -> nat,
)
    requires
        vars.no_duplicates(),
        items.no_duplicates(),
        forall|v: Seq<char>| #[trigger] items.contains(v) ==> vars.contains(v),
        forall|v: Seq<char>| #[trigger] f(v) == one(items.contains(v)),
    ensures
        sum_vars(vars, f) == items.len(),
    decreases vars.len(),
{
    if vars.len() == 0 {
        if items.len() > 0 {
            assert(items.contains(items[0]));
        }
    } else {
        let front = vars.drop_last();
        let x = vars.last();
        assert(f(x) == one(items.contains(x)));
        assert(!front.contains(x)) by {
            if front.contains(x) {
                let k = choose|k: int| 0 <= k < front.len() && front[k] == x;
                assert(vars[k] == vars[vars.len() - 1]);
            }
        }
        if items.contains(x) {
            let k = choose|k: int| 0 <= k < items.len() && items[k] == x;
            let fewer = items.remove(k);
            let g = |v: Seq<char>| one(fewer.contains(v));
            assert forall|v: Seq<char>| #[trigger] fewer.contains(v) <==> items.contains(v) && v
                != x by {
                if items.contains(v) && v != x {
                    let m = choose|m: int| 0 <= m < items.len() && items[m] == v;
                    if m < k {
                        assert(fewer[m] == v);
                    } else {
                        assert(fewer[m - 1] == v);
                    }
                }
                if fewer.contains(v) {
                    let m = choose|m: int| 0 <= m < fewer.len() && fewer[m] == v;
                    if m < k {
                        assert(items[m] == v);
                    } else {
                        assert(items[m + 1] == v);
                    }
                }
            }
            assert forall|v: Seq<char>| #[trigger] fewer.contains(v) implies front.contains(v) by {
                assert(vars.contains(v));
                let m = choose|m: int| 0 <= m < vars.len() && vars[m] == v;
                assert(front[m] == v);
            }
            lemma_sum_of_items(front, fewer, g);
            assert forall|v: Seq<char>| front.contains(v) implies #[trigger] f(v) == g(v) by {}
            lemma_sum_same(front, f, g);
        } else {
            assert forall|v: Seq<char>| #[trigger] items.contains(v) implies front.contains(v) by {
                assert(vars.contains(v));
                let m = choose|m: int| 0 <= m < vars.len() && vars[m] == v;
                assert(front[m] == v);
            }
            lemma_sum_of_items(front, items, f);
        }
    }
}

/// What two lists have in common, each once where the first has each once.
proof fn lemma_common(a: Seq<Seq<char>>, b: Seq<Seq<char>>)
    ensures
        forall|v: Seq<char>| #[trigger]
            common(a, b).contains(v) <==> a.contains(v) && b.contains(v),
        a.no_duplicates() ==> common(a, b).no_duplicates(),
        common(a, b).len() <= a.len(),
    decreases a.len(),
{
    if a.len() > 0 {
        let front = a.drop_last();
        let x = a.last();
        let before = common(front, b);
        let all = common(a, b);
        lemma_common(front, b);
        assert(a =~= front.push(x));
        assert forall|v: Seq<char>| #[trigger] all.contains(v) <==> a.contains(v) && b.contains(
            v,
        ) by {
            assert(a.contains(v) <==> front.contains(v) || v == x) by {
                if a.contains(v) {
                    let k = choose|k: int| 0 <= k < a.len() && a[k] == v;
                    if k < front.len() {
                        assert(front[k] == v);
                    }
                }
                if front.contains(v) {
                    let k = choose|k: int| 0 <= k < front.len() && front[k] == v;
                    assert(a[k] == v);
                }
                assert(a[a.len() - 1] == x);
            }
            if b.contains(x) {
                assert(all == before.push(x));
                if all.contains(v) {
                    let k = choose|k: int| 0 <= k < all.len() && all[k] == v;
                    if k < before.len() {
                        assert(before[k] == v);
                    }
                }
                if before.contains(v) {
                    let k = choose|k: int| 0 <= k < before.len() && before[k] == v;
                    assert(all[k] == v);
                }
                assert(all[before.len() as int] == x);
            }
        }
        if a.no_duplicates() {
            assert(!front.contains(x)) by {
                if front.contains(x) {
                    let k = choose|k: int| 0 <= k < front.len() && front[k] == x;
                    assert(a[k] == a[a.len() - 1]);
                }
            }
            assert(front.no_duplicates());
            assert(!before.contains(x));
            assert forall|i: int, j: int| 0 <= i < all.len() && 0 <= j < all.len() && i
                != j implies all[i] != all[j] by {
                if i == before.len() {
                    assert(before.contains(before[j]));
                } else if j == before.len() {
                    assert(before.contains(before[i]));
                } else {
                    assert(before[i] != before[j]);
                }
            }
        }
    }
}

/// The variables of an atom, each once.
proof fn lemma_node_vars(rule: FLRuleModel, id: int)
    ensures
        node_vars(rule, id).no_duplicates(),
{
    lemma_distinct(atom_strs(rule, true, id));
}

/// Added up over the variables: the atoms with each are the variables of all atoms,
/// and the links with each are what the links share.
proof fn lemma_sums(
    rule: FLRuleModel,
    tree: JoinTree,
    vars: Seq<Seq<char>>,
    counts: spec_fn(Seq<char>) -> nat,
    links: spec_fn(Seq<char>) -> nat,
    lens: spec_fn(usize) -> nat,
)
    requires
        vars.no_duplicates(),
        forall|k: int, v: Seq<char>|
            0 <= k < tree.preorder().len() && #[trigger] node_vars(
                rule,
                tree.preorder()[k] as int,
            ).contains(v) ==> vars.contains(v),
        forall|v: Seq<char>| #[trigger] counts(v) == count(rule, tree, v),
        forall|v: Seq<char>| #[trigger] links(v) == links_with(rule, tree, v),
        forall|id: usize| #[trigger] lens(id) == node_vars(rule, id as int).len(),
    ensures
        sum_vars(vars, counts) == sum_ids(tree.preorder(), lens),
        sum_vars(vars, links) == tree_overlap(rule, tree),
    decreases tree,
{
    match tree {
        JoinTree::Atom(id) => {
            let items = node_vars(rule, id as int);
            lemma_node_vars(rule, id as int);
            assert(tree.preorder()[0] == id);
            assert(tree.preorder().drop_last() =~= Seq::<usize>::empty());
            assert(sum_ids(tree.preorder().drop_last(), lens) == 0);
            lemma_sum_of_items(vars, items, counts);
            let none = Seq::<Seq<char>>::empty();
            lemma_sum_of_items(vars, none, links);
        },
        JoinTree::Join(rest, last) => {
            let ca = |v: Seq<char>| count(rule, *rest, v);
            let cb = |v: Seq<char>| count(rule, *last, v);
            let la = |v: Seq<char>| links_with(rule, *rest, v);
            let lb = |v: Seq<char>| links_with(rule, *last, v);
            let a = node_vars(rule, rest.root_id() as int);
            let b = node_vars(rule, last.root_id() as int);
            let here = |v: Seq<char>| one(a.contains(v) && b.contains(v));
            let both = |v: Seq<char>| la(v) + lb(v);
            assert(tree.preorder() == rest.preorder() + last.preorder());
            assert forall|k: int, v: Seq<char>|
                0 <= k < rest.preorder().len() && #[trigger] node_vars(
                    rule,
                    rest.preorder()[k] as int,
                ).contains(v) implies vars.contains(v) by {
                assert(tree.preorder()[k] == rest.preorder()[k]);
                assert(node_vars(rule, tree.preorder()[k] as int).contains(v));
            }
            assert forall|k: int, v: Seq<char>|
                0 <= k < last.preorder().len() && #[trigger] node_vars(
                    rule,
                    last.preorder()[k] as int,
                ).contains(v) implies vars.contains(v) by {
                let m = rest.preorder().len() + k;
                assert(tree.preorder()[m] == last.preorder()[k]);
                assert(node_vars(rule, tree.preorder()[m] as int).contains(v));
            }
            lemma_sums(rule, *rest, vars, ca, la, lens);
            lemma_sums(rule, *last, vars, cb, lb, lens);
            lemma_sum_plus(vars, ca, cb, counts);
            lemma_sum_ids_plus(rest.preorder(), last.preorder(), lens);
            lemma_sum_plus(vars, la, lb, both);
            lemma_sum_plus(vars, both, here, links);
            lemma_common(a, b);
            lemma_node_vars(rule, rest.root_id() as int);
            let shared = common(a, b);
            assert forall|v: Seq<char>| #[trigger] shared.contains(v) implies vars.contains(v) by {
                lemma_root_first(*rest);
                assert(node_vars(rule, rest.preorder()[0] as int).contains(v));
            }
            lemma_sum_of_items(vars, shared, here);
        },
    }
}

proof fn lemma_root_first(tree: JoinTree)
    ensures
        tree.preorder().len() > 0,
        tree.preorder()[0] == tree.root_id(),
    decreases tree,
{
    match tree {
        JoinTree::Atom(id) => {},
        JoinTree::Join(rest, last) => {
            lemma_root_first(*rest);
        },
    }
}

proof fn lemma_sum_ids_plus(a: Seq<usize>, b: Seq<usize>, f: spec_fn(usize) -> nat)
    ensures
        sum_ids(a + b, f) == sum_ids(a, f) + sum_ids(b, f),
    decreases b.len(),
{
    if b.len() == 0 {
        assert(a + b =~= a);
    } else {
        assert((a + b).drop_last() =~= a + b.drop_last());
        lemma_sum_ids_plus(a, b.drop_last(), f);
    }
}

/// The order of the atoms is no matter.
proof fn lemma_sum_ids_same(a: Seq<usize>, b: Seq<usize>, f: spec_fn(usize) -> nat)
    requires
        a.no_duplicates(),
        b.no_duplicates(),
        forall|v: usize| #[trigger] a.contains(v) <==> b.contains(v),
    ensures
        sum_ids(a, f) == sum_ids(b, f),
    decreases a.len(),
{
    if a.len() == 0 {
        if b.len() > 0 {
            assert(b.contains(b[0]));
            assert(a.contains(b[0]));
        }
    } else {
        let x = a.last();
        let front = a.drop_last();
        assert(a.contains(a[a.len() - 1]));
        assert(b.contains(x));
        let k = choose|k: int| 0 <= k < b.len() && b[k] == x;
        let left = b.take(k);
        let right = b.skip(k + 1);
        let fewer = left + right;
        assert(b =~= left.push(x) + right);
        assert(left.push(x).drop_last() =~= left);
        lemma_sum_ids_plus(left.push(x), right, f);
        lemma_sum_ids_plus(left, right, f);
        assert forall|v: usize| #[trigger] front.contains(v) <==> fewer.contains(v) by {
            if front.contains(v) {
                let i = choose|i: int| 0 <= i < front.len() && front[i] == v;
                assert(a[i] == v && a[i] != a[a.len() - 1]);
                assert(a.contains(v));
                let m = choose|m: int| 0 <= m < b.len() && b[m] == v;
                if m < k {
                    assert(fewer[m] == v);
                } else {
                    assert(fewer[m - 1] == v);
                }
            }
            if fewer.contains(v) {
                let m = choose|m: int| 0 <= m < fewer.len() && fewer[m] == v;
                if m < k {
                    assert(b[m] == v);
                } else {
                    assert(b[m + 1] == v);
                }
                assert(b.contains(v) && v != x);
                assert(a.contains(v));
                let i = choose|i: int| 0 <= i < a.len() && a[i] == v;
                assert(front[i] == v);
            }
        }
        lemma_sum_ids_same(front, fewer, f);
    }
}

/// The variables of the core atoms, counted atom by atom.
proof fn lemma_all_vars(rule: FLRuleModel, upto: nat, lens: spec_fn(usize) -> nat)
    requires
        upto <= usize::MAX,
        forall|id: usize| #[trigger] lens(id) == node_vars(rule, id as int).len(),
    ensures
        all_vars(rule, upto).len() == sum_ids(core_below(rule, upto), lens),
        forall|id: int, v: Seq<char>|
            0 <= id < upto && #[trigger] node_vars(rule, id).contains(v) ==> all_vars(
                rule,
                upto,
            ).contains(v),
        forall|v: Seq<char>| #[trigger]
            all_vars(rule, upto).contains(v) ==> exists|id: int|
                0 <= id < upto && #[trigger] node_vars(rule, id).contains(v),
    decreases upto,
{
    if upto > 0 {
        let before = (upto - 1) as nat;
        let front = all_vars(rule, before);
        let own = node_vars(rule, upto - 1);
        lemma_all_vars(rule, before, lens);
        if is_core(rule, upto - 1) {
            assert(core_below(rule, upto).drop_last() =~= core_below(rule, before));
            assert(lens((upto - 1) as usize) == own.len());
        }
        assert(all_vars(rule, upto) == front + own);
        assert forall|id: int, v: Seq<char>|
            0 <= id < upto && #[trigger] node_vars(rule, id).contains(v) implies all_vars(
            rule,
            upto,
        ).contains(v) by {
            if id < before {
                let k = choose|k: int| 0 <= k < front.len() && front[k] == v;
                assert(all_vars(rule, upto)[k] == v);
            } else {
                let k = choose|k: int| 0 <= k < own.len() && own[k] == v;
                assert(all_vars(rule, upto)[front.len() + k] == v);
            }
        }
        assert forall|v: Seq<char>| #[trigger] all_vars(rule, upto).contains(v) implies exists|
            id: int,
        | 0 <= id < upto && #[trigger] node_vars(rule, id).contains(v) by {
            let all = all_vars(rule, upto);
            let k = choose|k: int| 0 <= k < all.len() && all[k] == v;
            if k < front.len() {
                assert(front[k] == v);
                assert(front.contains(v));
            } else {
                assert(own[k - front.len()] == v);
                assert(node_vars(rule, upto - 1).contains(v));
            }
        }
    }
}

/// A variable of an atom of a tree is one of the tree.
proof fn lemma_has_var(rule: FLRuleModel, tree: JoinTree, id: usize, var: Seq<char>)
    requires
        tree.preorder().contains(id),
        node_vars(rule, id as int).contains(var),
    ensures
        has_var(rule, tree, var),
    decreases tree,
{
    let k = choose|k: int| 0 <= k < tree.preorder().len() && tree.preorder()[k] == id;
    match tree {
        JoinTree::Atom(own) => {},
        JoinTree::Join(rest, last) => {
            if k < rest.preorder().len() {
                assert(rest.preorder()[k] == id);
                lemma_has_var(rule, *rest, id, var);
            } else {
                assert(last.preorder()[k - rest.preorder().len()] == id);
                lemma_has_var(rule, *last, id, var);
            }
        },
    }
}

proof fn lemma_strs_len(rule: FLRuleModel, signatures: Seq<AtomArgumentSignature>)
    ensures
        strs_of(rule, signatures).len() <= signatures.len(),
    decreases signatures.len(),
{
    if signatures.len() > 0 {
        lemma_strs_len(rule, signatures.drop_last());
    }
}

/// What two atoms share can be counted by the machine.
proof fn lemma_overlap_small(rule: FLRuleModel, a: usize, b: usize)
    requires
        are_positions_small(rule),
        a < atoms_of(rule, true).len(),
    ensures
        overlap(rule, a, b) <= usize::MAX,
{
    lemma_common(node_vars(rule, a as int), node_vars(rule, b as int));
    lemma_distinct_len(atom_strs(rule, true, a as int));
    lemma_strs_len(rule, atom_positions(rule, true)[a as int]);
    assert(atoms_of(rule, true)[a as int].arguments.len() <= usize::MAX);
}

/// The links of a chain.
proof fn lemma_chain_overlap(rule: FLRuleModel, ids: Seq<usize>)
    requires
        ids.len() > 0,
    ensures
        chain(ids).root_id() == ids.last(),
        tree_overlap(rule, chain(ids)) == chain_overlap(rule, ids),
    decreases ids.len(),
{
    reveal_with_fuel(JoinTree::root_id, 3);
    reveal_with_fuel(tree_overlap, 3);
    if ids.len() > 1 {
        lemma_chain_overlap(rule, ids.drop_last());
        let top = JoinTree::Atom(ids.last());
        assert(tree_overlap(rule, top) == 0);
        assert(chain(ids) == JoinTree::Join(Box::new(top), Box::new(chain(ids.drop_last()))));
    }
}

/// A link of a grown tree shares what its two ends share.
proof fn lemma_link_shares(
    rule: FLRuleModel,
    core: Seq<usize>,
    root: usize,
    placed: Seq<Link>,
    k: int,
)
    requires
        is_grown(rule, core, root, placed),
        core.contains(root),
        1 <= k < placed.len() <= usize::MAX,
        are_positions_small(rule),
        forall|v: usize| core.contains(v) ==> v < atoms_of(rule, true).len(),
    ensures
        placed[k].overlap == overlap(rule, placed[placed[k].parent as int].id, placed[k].id),
{
    let front = placed.take(k);
    lemma_grown(rule, core, root, placed, placed.len() as int);
    assert(is_best(rule, core, front, placed[k]));
    let (i, v) = choose|i: int, v: usize| #[trigger]
        is_offer(rule, core, front, i, v) && placed[k] == link_from(rule, front, i, v);
    assert(front[i] == placed[i]);
    assert(core.contains(placed[i].id));
    lemma_overlap_small(rule, placed[i].id, v);
    if overlap(rule, placed[i].id, v) == 0 {
        assert(front[0] == placed[0]);
        assert(is_offer(rule, core, front, 0, v));
        let other = link_from(rule, front, 0, v);
        assert(core.contains(placed[0].id));
        lemma_overlap_small(rule, placed[0].id, v);
        if overlap(rule, placed[0].id, v) > 0 {
            assert(preferred(front, other, placed[k]));
        }
    }
}

/// Whether a number for each atom is what its link shares, and none for the root.
spec fn are_shares(placed: Seq<Link>, f: spec_fn(usize) -> nat) -> bool {
    &&& f(placed[0].id) == 0
    &&& forall|k: int| 1 <= k < placed.len() ==> f((#[trigger] placed[k]).id) == placed[k].overlap
}

spec fn are_honest(rule: FLRuleModel, placed: Seq<Link>) -> bool {
    forall|k: int|
        1 <= k < placed.len() ==> (#[trigger] placed[k]).overlap == overlap(
            rule,
            placed[placed[k].parent as int].id,
            placed[k].id,
        )
}

/// The links of an arrangement.
proof fn lemma_arrangement_overlap(
    rule: FLRuleModel,
    tree: JoinTree,
    placed: Seq<Link>,
    at: int,
    f: spec_fn(usize) -> nat,
)
    requires
        is_arrangement(tree, placed, at),
        0 <= at < placed.len() <= usize::MAX,
        forall|j: int| 1 <= j < placed.len() ==> (#[trigger] placed[j]).parent < j,
        are_shares(placed, f),
        are_honest(rule, placed),
    ensures
        sum_ids(tree.preorder(), f) == tree_overlap(rule, tree) + f(placed[at].id),
    decreases tree, 1nat,
{
    reveal_with_fuel(is_arrangement, 2);
    reveal_with_fuel(is_arranged, 2);
    let children = child_positions(placed, at, placed.len());
    let order = choose|order: Seq<usize>|
        #[trigger] is_ordering(order, children) && is_arranged(tree, placed, at, order);
    lemma_child_positions(placed, at, placed.len());
    assert forall|m: int| 0 <= m < order.len() implies at < #[trigger] order[m] < placed.len()
        && placed[order[m] as int].parent == at by {
        assert(order.contains(order[m]));
        assert(order.to_set().contains(order[m]));
        assert(children.contains(order[m]));
    }
    lemma_arranged_overlap(rule, tree, placed, at, order, f);
}

proof fn lemma_arranged_overlap(
    rule: FLRuleModel,
    tree: JoinTree,
    placed: Seq<Link>,
    at: int,
    order: Seq<usize>,
    f: spec_fn(usize) -> nat,
)
    requires
        is_arranged(tree, placed, at, order),
        0 <= at < placed.len() <= usize::MAX,
        forall|m: int|
            0 <= m < order.len() ==> at < #[trigger] order[m] < placed.len()
                && placed[order[m] as int].parent == at,
        forall|j: int| 1 <= j < placed.len() ==> (#[trigger] placed[j]).parent < j,
        are_shares(placed, f),
        are_honest(rule, placed),
    ensures
        sum_ids(tree.preorder(), f) == tree_overlap(rule, tree) + f(placed[at].id),
    decreases tree, 0nat,
{
    match tree {
        JoinTree::Atom(id) => {
            assert(tree.preorder().drop_last() =~= Seq::<usize>::empty());
            assert(sum_ids(tree.preorder().drop_last(), f) == 0);
            assert(tree.preorder().last() == id);
        },
        JoinTree::Join(rest, last) => {
            let fewer = order.drop_last();
            assert forall|m: int| 0 <= m < fewer.len() implies at < #[trigger] fewer[m]
                < placed.len() && placed[fewer[m] as int].parent == at by {
                assert(fewer[m] == order[m]);
            }
            let c = order.last() as int;
            assert(at < order[order.len() - 1] < placed.len());
            lemma_arranged_parts(*rest, placed, at, fewer);
            lemma_arrangement_parts(*last, placed, c);
            lemma_arranged_overlap(rule, *rest, placed, at, fewer, f);
            lemma_arrangement_overlap(rule, *last, placed, c, f);
            lemma_sum_ids_plus(rest.preorder(), last.preorder(), f);
            assert(placed[c].parent == at);
            assert(f(placed[c].id) == placed[c].overlap);
        },
    }
}

/// The links of a grown tree, added up.
proof fn lemma_links_sum(
    rule: FLRuleModel,
    placed: Seq<Link>,
    ids: Seq<usize>,
    f: spec_fn(usize) -> nat,
)
    requires
        placed.len() > 0,
        ids.len() == placed.len(),
        forall|k: int| 0 <= k < placed.len() ==> #[trigger] ids[k] == placed[k].id,
        are_shares(placed, f),
    ensures
        sum_ids(ids, f) == links_overlap(rule, placed),
    decreases placed.len(),
{
    assert(ids[ids.len() - 1] == placed[placed.len() - 1].id);
    if placed.len() == 1 {
        assert(sum_ids(ids.drop_last(), f) == 0);
    } else {
        let front = placed.drop_last();
        let fewer = ids.drop_last();
        assert forall|k: int| 0 <= k < front.len() implies #[trigger] fewer[k] == front[k].id by {
            assert(ids[k] == placed[k].id);
        }
        assert(are_shares(front, f)) by {
            assert(front[0] == placed[0]);
            assert forall|k: int| 1 <= k < front.len() implies f((#[trigger] front[k]).id)
                == front[k].overlap by {
                assert(front[k] == placed[k]);
            }
        }
        lemma_links_sum(rule, front, fewer, f);
    }
}

/// What the links of a grown tree share is what the links of its arrangements share.
proof fn lemma_grown_overlap(
    rule: FLRuleModel,
    core: Seq<usize>,
    root: usize,
    placed: Seq<Link>,
    tree: JoinTree,
)
    requires
        is_full(rule, core, root, placed),
        core.contains(root),
        placed.len() <= usize::MAX,
        is_arrangement(tree, placed, 0),
        are_positions_small(rule),
        forall|v: usize| core.contains(v) ==> v < atoms_of(rule, true).len(),
        tree.preorder().no_duplicates(),
        forall|v: usize| #[trigger] tree.preorder().contains(v) <==> core.contains(v),
    ensures
        tree_overlap(rule, tree) == links_overlap(rule, placed),
{
    lemma_grown(rule, core, root, placed, placed.len() as int);
    let f = |id: usize|
        {
            let k = choose|k: int| 0 <= k < placed.len() && (#[trigger] placed[k]).id == id;
            if k == 0 {
                0nat
            } else {
                placed[k].overlap as nat
            }
        };
    assert(are_shares(placed, f)) by {
        assert forall|k: int| 0 <= k < placed.len() implies f((#[trigger] placed[k]).id) == if k
            == 0 {
            0
        } else {
            placed[k].overlap as nat
        } by {
            let id = placed[k].id;
            let m = choose|m: int| 0 <= m < placed.len() && (#[trigger] placed[m]).id == id;
            assert(placed[m].id == placed[k].id);
            assert(m == k);
        }
        assert(f(placed[0].id) == 0);
    }
    assert forall|k: int| 1 <= k < placed.len() implies (#[trigger] placed[k]).overlap == overlap(
        rule,
        placed[placed[k].parent as int].id,
        placed[k].id,
    ) by {
        lemma_link_shares(rule, core, root, placed, k);
    }
    lemma_arrangement_overlap(rule, tree, placed, 0, f);
    let ids = Seq::new(placed.len(), |k: int| placed[k].id);
    lemma_links_sum(rule, placed, ids, f);
    assert forall|v: usize| #[trigger] tree.preorder().contains(v) <==> ids.contains(v) by {
        if core.contains(v) {
            assert(is_placed(placed, v));
            let k = choose|k: int| 0 <= k < placed.len() && (#[trigger] placed[k]).id == v;
            assert(ids[k] == v);
        }
        if ids.contains(v) {
            let k = choose|k: int| 0 <= k < ids.len() && ids[k] == v;
            assert(core.contains(placed[k].id));
        }
    }
    assert(ids.no_duplicates()) by {
        assert forall|i: int, j: int| 0 <= i < ids.len() && 0 <= j < ids.len() && i
            != j implies ids[i] != ids[j] by {
            if i < j {
                assert(placed[i].id != placed[j].id);
            } else {
                assert(placed[j].id != placed[i].id);
            }
        }
    }
    lemma_sum_ids_same(tree.preorder(), ids, f);
}

/// What is counted of a join tree is what its links share.
proof fn lemma_plan_overlap(rule: FLRuleModel, is_optimized: bool, plan: PlanTree)
    requires
        are_positions_small(rule),
        core_ids(rule).len() > 0,
        plan.describes(rule, is_optimized),
    ensures
        plan.overlap == tree_overlap(rule, plan.shape),
{
    let core = core_ids(rule);
    let tree = plan.shape;
    lemma_core_below(rule, positive_atoms(rule.rhs).len());
    law_join_tree_covers(rule, is_optimized, plan);
    lemma_chain_overlap(rule, core);
    if !(tree == chain(core) && plan.overlap == chain_overlap(rule, core)) {
        let (a, placed) = choose|a: int, placed: Seq<Link>|
            0 <= a < core.len() && placed.len() <= usize::MAX && #[trigger] is_full(
                rule,
                core,
                core[a],
                placed,
            ) && is_arrangement(tree, placed, 0) && plan.overlap == links_overlap(rule, placed);
        assert(core.contains(core[a]));
        lemma_grown_overlap(rule, core, core[a], placed, tree);
    }
}

/// The links of the join tree of a rule never share more than what the atoms have
/// beyond one of each variable, and share all of that exactly where for every
/// variable the core atoms that have it are a connected part of the tree.
pub proof fn law_acyclic_means_connected(rule: FLRuleModel, is_optimized: bool, plan: PlanTree)
    requires
        are_positions_small(rule),
        core_ids(rule).len() > 0,
        plan.describes(rule, is_optimized),
    ensures
        plan.overlap <= plan.max_overlap,
        plan.overlap == plan.max_overlap <==> forall|var: Seq<char>| #[trigger]
            is_connected(rule, plan.shape, var),
{
    let tree = plan.shape;
    let n = atoms_of(rule, true).len();
    let core = core_ids(rule);
    let all = all_vars(rule, n);
    let vars = distinct(all);
    let lens = |id: usize| node_vars(rule, id as int).len();
    let counts = |v: Seq<char>| count(rule, tree, v);
    let links = |v: Seq<char>| links_with(rule, tree, v);
    let found = |v: Seq<char>| one(vars.contains(v));
    let both = |v: Seq<char>| links(v) + found(v);
    assert(n == positive_atoms(rule.rhs).len());
    lemma_plan_overlap(rule, is_optimized, plan);
    law_join_tree_covers(rule, is_optimized, plan);
    lemma_core_below(rule, n);
    lemma_all_vars(rule, n, lens);
    lemma_distinct(all);
    assert forall|k: int, v: Seq<char>|
        0 <= k < tree.preorder().len() && #[trigger] node_vars(
            rule,
            tree.preorder()[k] as int,
        ).contains(v) implies vars.contains(v) by {
        assert(tree.preorder().contains(tree.preorder()[k]));
        assert(all.contains(v));
    }
    lemma_sums(rule, tree, vars, counts, links, lens);
    lemma_sum_ids_same(tree.preorder(), core, lens);
    lemma_sum_of_items(vars, vars, found);
    lemma_sum_plus(vars, links, found, both);
    assert forall|v: Seq<char>| #[trigger] vars.contains(v) <==> has_var(rule, tree, v) by {
        if vars.contains(v) {
            assert(all.contains(v));
            let id = choose|id: int| 0 <= id < n && #[trigger] node_vars(rule, id).contains(v);
            assert(is_core(rule, id));
            assert(core.contains(id as usize));
            assert(tree.preorder().contains(id as usize));
            lemma_has_var(rule, tree, id as usize, v);
        }
        if has_var(rule, tree, v) {
            lemma_var_of_atom(rule, tree, v);
            let k = choose|k: int|
                0 <= k < tree.preorder().len() && #[trigger] node_vars(
                    rule,
                    tree.preorder()[k] as int,
                ).contains(v);
        }
    }
    assert forall|v: Seq<char>| #[trigger] both(v) <= counts(v) by {
        lemma_links_with(rule, tree, v);
    }
    lemma_sum_below(vars, both, counts);
    assert forall|v: Seq<char>| is_connected(rule, tree, v) <==> #[trigger] both(v) == counts(v) by {
        lemma_links_with(rule, tree, v);
    }
    if plan.overlap == plan.max_overlap {
        assert forall|v: Seq<char>| #[trigger] is_connected(rule, tree, v) by {
            if vars.contains(v) {
                assert(both(v) == counts(v));
            } else {
                lemma_absent(rule, tree, v);
            }
        }
    }
    if forall|v: Seq<char>| #[trigger] is_connected(rule, tree, v) {
        assert forall|v: Seq<char>| vars.contains(v) implies #[trigger] both(v) == counts(v) by {
            assert(is_connected(rule, tree, v));
        }
    }
}

proof fn lemma_absent(rule: FLRuleModel, tree: JoinTree, var: Seq<char>)
    requires
        !has_var(rule, tree, var),
    ensures
        is_connected(rule, tree, var),
    decreases tree,
{
    match tree {
        JoinTree::Atom(id) => {},
        JoinTree::Join(rest, last) => {
            lemma_absent(rule, *rest, var);
            lemma_absent(rule, *last, var);
        },
    }
}

proof fn lemma_var_of_atom(rule: FLRuleModel, tree: JoinTree, var: Seq<char>)
    requires
        has_var(rule, tree, var),
    ensures
        exists|k: int|
            0 <= k < tree.preorder().len() && #[trigger] node_vars(
                rule,
                tree.preorder()[k] as int,
            ).contains(var),
    decreases tree,
{
    match tree {
        JoinTree::Atom(id) => {
            assert(tree.preorder()[0] == id);
            assert(node_vars(rule, tree.preorder()[0] as int).contains(var));
        },
        JoinTree::Join(rest, last) => {
            assert(tree.preorder() == rest.preorder() + last.preorder());
            if has_var(rule, *rest, var) {
                lemma_var_of_atom(rule, *rest, var);
                let k = choose|k: int|
                    0 <= k < rest.preorder().len() && #[trigger] node_vars(
                        rule,
                        rest.preorder()[k] as int,
                    ).contains(var);
                assert(tree.preorder()[k] == rest.preorder()[k]);
                assert(node_vars(rule, tree.preorder()[k] as int).contains(var));
            } else {
                lemma_var_of_atom(rule, *last, var);
                let k = choose|k: int|
                    0 <= k < last.preorder().len() && #[trigger] node_vars(
                        rule,
                        last.preorder()[k] as int,
                    ).contains(var);
                let m = rest.preorder().len() + k;
                assert(tree.preorder()[m] == last.preorder()[k]);
                assert(node_vars(rule, tree.preorder()[m] as int).contains(var));
            }
        },
    }
}

} // verus!
