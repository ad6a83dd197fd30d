//! Which atoms a join tree holds.
use vstd::prelude::*;
use crate::catalog::body::{are_positions_small, atoms_of, positive_atoms};
use crate::catalog::cores::{core_ids, lemma_core_below};
use crate::catalog::rule::is_core;
use crate::optimizing::growing::{
    child_positions, is_arranged, is_arrangement, is_full, is_ordering, is_placed,
    lemma_child_positions, lemma_grown, Link,
};
use crate::optimizing::join_tree::{is_over, JoinTree};
use crate::optimizing::optimizer::{chain, PlanTree};
use crate::parsing::rule::FLRuleModel;

verus! {

/// Whether a tree joins the core atoms of a rule, each once.
pub open spec fn joins_core(rule: FLRuleModel, tree: JoinTree) -> bool {
    &&& is_over(rule, tree)
    &&& tree.preorder().no_duplicates()
    &&& forall|i: int|
        0 <= i < atoms_of(rule, true).len() && is_core(rule, i) ==> tree.preorder().contains(
            #[trigger] (i as usize),
        )
}

/// Whether a place of a growing tree is another one or below it.
pub open spec fn is_below(placed: Seq<Link>, at: int, c: int) -> bool
    decreases c,
{
    c == at || (0 < c && placed[c].parent < c && is_below(placed, at, placed[c].parent as int))
}

/// Whether each place comes behind its parent.
spec fn are_ordered(placed: Seq<Link>) -> bool {
    &&& placed.len() <= usize::MAX
    &&& forall|j: int| 1 <= j < placed.len() ==> (#[trigger] placed[j]).parent < j
}

/// Whether no atom stands at two places.
spec fn are_different(placed: Seq<Link>) -> bool {
    forall|i: int, j: int|
        0 <= i < j < placed.len() ==> (#[trigger] placed[i]).id != (#[trigger] placed[j]).id
}

proof fn lemma_below_behind(placed: Seq<Link>, at: int, c: int)
    requires
        0 <= c,
        is_below(placed, at, c),
    ensures
        at <= c,
    decreases c,
{
    if c != at {
        lemma_below_behind(placed, at, placed[c].parent as int);
    }
}

/// Of two places above a third one, one is above the other.
proof fn lemma_below_both(placed: Seq<Link>, a: int, b: int, c: int)
    requires
        0 <= c,
        is_below(placed, a, c),
        is_below(placed, b, c),
    ensures
        is_below(placed, a, b) || is_below(placed, b, a),
    decreases c,
{
    if c != a && c != b {
        lemma_below_both(placed, a, b, placed[c].parent as int);
    }
}

/// What is below a place is there, or below one of its children.
proof fn lemma_below_child(placed: Seq<Link>, at: int, c: int) -> (child: int)
    requires
        are_ordered(placed),
        0 <= at < placed.len(),
        0 <= c < placed.len(),
        is_below(placed, at, c),
        c != at,
    ensures
        1 <= child < placed.len(),
        placed[child].parent == at,
        is_below(placed, child, c),
    decreases c,
{
    let up = placed[c].parent as int;
    if up == at {
        c
    } else {
        lemma_below_child(placed, at, up)
    }
}

proof fn lemma_child_below(placed: Seq<Link>, at: int, child: int, c: int)
    requires
        are_ordered(placed),
        1 <= child < placed.len(),
        placed[child].parent == at,
        0 <= c < placed.len(),
        is_below(placed, child, c),
    ensures
        is_below(placed, at, c),
    decreases c,
{
    if c != child {
        lemma_child_below(placed, at, child, placed[c].parent as int);
    } else {
        assert(is_below(placed, at, at));
    }
}

/// Whether an atom stands at a place or below it.
spec fn stands_below(placed: Seq<Link>, at: int, v: usize) -> bool {
    exists|c: int|
        0 <= c < placed.len() && #[trigger] is_below(placed, at, c) && placed[c].id == v
}

/// An arrangement of a subtree holds the atoms of the subtree, each once.
proof fn lemma_arrangement_covers(tree: JoinTree, placed: Seq<Link>, at: int)
    requires
        is_arrangement(tree, placed, at),
        0 <= at < placed.len(),
        are_ordered(placed),
        are_different(placed),
    ensures
        tree.preorder().no_duplicates(),
        forall|v: usize| #[trigger]
            tree.preorder().contains(v) <==> stands_below(placed, at, v),
    decreases tree, 1nat,
{
    reveal_with_fuel(is_arrangement, 2);
    reveal_with_fuel(is_arranged, 2);
    let all = child_positions(placed, at, placed.len());
    let order = choose|order: Seq<usize>|
        #[trigger] is_ordering(order, all) && is_arranged(tree, placed, at, order);
    lemma_child_positions(placed, at, placed.len());
    assert forall|m: int| 0 <= m < order.len() implies 1 <= #[trigger] order[m] < placed.len()
        && placed[order[m] as int].parent == at && at < order[m] by {
        assert(order.to_set().contains(order[m]));
        assert(all.contains(order[m]));
    }
    lemma_arranged_covers(tree, placed, at, order);
    assert forall|v: usize| #[trigger] tree.preorder().contains(v) <==> stands_below(
        placed,
        at,
        v,
    ) by {
        if tree.preorder().contains(v) {
            if v == placed[at].id {
                assert(is_below(placed, at, at));
            } else {
                let m = choose|m: int|
                    0 <= m < order.len() && stands_below(placed, #[trigger] order[m] as int, v);
                let c = choose|c: int|
                    0 <= c < placed.len() && #[trigger] is_below(placed, order[m] as int, c)
                        && placed[c].id == v;
                lemma_child_below(placed, at, order[m] as int, c);
            }
        }
        if stands_below(placed, at, v) {
            let c = choose|c: int|
                0 <= c < placed.len() && #[trigger] is_below(placed, at, c) && placed[c].id == v;
            if c != at {
                let child = lemma_below_child(placed, at, c);
                assert(all.contains(child as usize));
                assert(all.to_set().contains(child as usize));
                assert(order.to_set().contains(child as usize));
                let m = order.index_of(child as usize);
                assert(order[m] == child as usize);
                assert(stands_below(placed, order[m] as int, v));
            }
        }
    }
}

/// An arrangement of some subtrees holds the atom above them and their atoms, each
/// once.
proof fn lemma_arranged_covers(tree: JoinTree, placed: Seq<Link>, at: int, order: Seq<usize>)
    requires
        is_arranged(tree, placed, at, order),
        0 <= at < placed.len(),
        are_ordered(placed),
        are_different(placed),
        order.no_duplicates(),
        forall|m: int|
            0 <= m < order.len() ==> 1 <= #[trigger] order[m] < placed.len()
                && placed[order[m] as int].parent == at && at < order[m],
    ensures
        tree.preorder().no_duplicates(),
        forall|v: usize| #[trigger]
            tree.preorder().contains(v) <==> (v == placed[at].id || exists|m: int|
                0 <= m < order.len() && stands_below(placed, #[trigger] order[m] as int, v)),
    decreases tree, 0nat,
{
    match tree {
        JoinTree::Atom(id) => {
            assert(tree.preorder()[0] == id);
            assert(tree.preorder() =~= seq![id]);
        },
        JoinTree::Join(rest, last) => {
            let fewer = order.drop_last();
            let child = order[order.len() - 1] as int;
            assert forall|m: int| 0 <= m < fewer.len() implies 1 <= #[trigger] fewer[m]
                < placed.len() && placed[fewer[m] as int].parent == at && at < fewer[m] by {
                assert(fewer[m] == order[m]);
            }
            lemma_arranged_covers(*rest, placed, at, fewer);
            lemma_arrangement_covers(*last, placed, child);
            let a = rest.preorder();
            let b = last.preorder();
            assert(tree.preorder() == a + b);
            assert forall|v: usize| #[trigger] tree.preorder().contains(v) <==> (v
                == placed[at].id || exists|m: int|
                0 <= m < order.len() && stands_below(placed, #[trigger] order[m] as int, v)) by {
                lemma_either(a, b, v);
                if a.contains(v) && v != placed[at].id {
                    let m = choose|m: int|
                        0 <= m < fewer.len() && stands_below(placed, #[trigger] fewer[m] as int, v);
                    assert(order[m] == fewer[m]);
                }
                if b.contains(v) {
                    assert(stands_below(placed, order[order.len() - 1] as int, v));
                }
                if exists|m: int|
                    0 <= m < order.len() && stands_below(placed, #[trigger] order[m] as int, v) {
                    let m = choose|m: int|
                        0 <= m < order.len() && stands_below(placed, #[trigger] order[m] as int, v);
                    if m < fewer.len() {
                        assert(fewer[m] == order[m]);
                        assert(a.contains(v));
                    }
                }
            }
            assert forall|v: usize| #[trigger] a.contains(v) implies !b.contains(v) by {
                if b.contains(v) {
                    let c = choose|c: int|
                        0 <= c < placed.len() && #[trigger] is_below(placed, child, c)
                            && placed[c].id == v;
                    lemma_below_behind(placed, child, c);
                    if v == placed[at].id {
                        assert(placed[at].id != placed[c].id);
                    } else {
                        let m = choose|m: int|
                            0 <= m < fewer.len() && stands_below(
                                placed,
                                #[trigger] fewer[m] as int,
                                v,
                            );
                        let other = fewer[m] as int;
                        let d = choose|d: int|
                            0 <= d < placed.len() && #[trigger] is_below(placed, other, d)
                                && placed[d].id == v;
                        if c < d {
                            assert(placed[c].id != placed[d].id);
                        } else if d < c {
                            assert(placed[d].id != placed[c].id);
                        }
                        assert(order[m] == fewer[m]);
                        lemma_below_both(placed, child, other, c);
                        if is_below(placed, child, other) {
                            lemma_below_behind(placed, child, placed[other].parent as int);
                        } else {
                            lemma_below_behind(placed, other, placed[child].parent as int);
                        }
                    }
                }
            }
            lemma_no_repetition(a, b);
        },
    }
}

proof fn lemma_either(a: Seq<usize>, b: Seq<usize>, v: usize)
    ensures
        (a + b).contains(v) <==> a.contains(v) || b.contains(v),
{
    if (a + b).contains(v) {
        let i = (a + b).index_of(v);
        assert((a + b)[i] == v);
        if i < a.len() {
            assert(a[i] == v);
        } else {
            assert(b[i - a.len()] == v);
        }
    }
    if a.contains(v) {
        assert((a + b)[a.index_of(v)] == v);
    }
    if b.contains(v) {
        assert((a + b)[a.len() + b.index_of(v)] == v);
    }
}

proof fn lemma_no_repetition(a: Seq<usize>, b: Seq<usize>)
    requires
        a.no_duplicates(),
        b.no_duplicates(),
        forall|v: usize| #[trigger] a.contains(v) ==> !b.contains(v),
    ensures
        (a + b).no_duplicates(),
{
    let all = a + b;
    assert forall|i: int, j: int| 0 <= i < all.len() && 0 <= j < all.len() && i != j implies all[i]
        != all[j] by {
        if i < a.len() && j >= a.len() {
            assert(a.contains(all[i]));
            assert(b[j - a.len()] == all[j]);
            assert(b.contains(all[j]));
        } else if j < a.len() && i >= a.len() {
            assert(a.contains(all[j]));
            assert(b[i - a.len()] == all[i]);
            assert(b.contains(all[i]));
        } else if i < a.len() {
            assert(a[i] != a[j]);
        } else {
            assert(b[i - a.len()] != b[j - a.len()]);
        }
    }
}

/// All places of a growing tree are below the first one.
proof fn lemma_all_below_root(placed: Seq<Link>, c: int)
    requires
        are_ordered(placed),
        0 <= c < placed.len(),
    ensures
        is_below(placed, 0, c),
    decreases c,
{
    if c > 0 {
        lemma_all_below_root(placed, placed[c].parent as int);
    }
}

/// A chain holds its atoms, each once.
proof fn lemma_chain_covers(ids: Seq<usize>)
    requires
        ids.len() > 0,
        ids.no_duplicates(),
    ensures
        chain(ids).preorder().no_duplicates(),
        forall|v: usize| #[trigger] chain(ids).preorder().contains(v) <==> ids.contains(v),
    decreases ids.len(),
{
    reveal_with_fuel(JoinTree::preorder, 3);
    if ids.len() == 1 {
        assert(chain(ids).preorder() =~= seq![ids[0]]);
        assert(ids =~= seq![ids[0]]);
    } else {
        let front = ids.drop_last();
        let last = seq![ids.last()];
        assert forall|i: int, j: int|
            0 <= i < front.len() && 0 <= j < front.len() && i != j implies front[i] != front[j] by {
            assert(ids[i] != ids[j]);
        }
        lemma_chain_covers(front);
        let below = chain(front).preorder();
        assert(chain(ids).preorder() =~= last + below);
        assert forall|v: usize| #[trigger] last.contains(v) implies !below.contains(v) by {
            if below.contains(v) {
                assert(front.contains(v));
                let i = front.index_of(v);
                assert(ids[i] != ids[ids.len() - 1]);
            }
        }
        assert(last.no_duplicates());
        lemma_no_repetition(last, below);
        assert forall|v: usize| #[trigger] chain(ids).preorder().contains(v) <==> ids.contains(
            v,
        ) by {
            lemma_either(last, below, v);
            if ids.contains(v) && v != ids.last() {
                let i = ids.index_of(v);
                assert(front[i] == v);
            }
            if front.contains(v) {
                assert(ids[front.index_of(v)] == v);
            }
            if last.contains(v) {
                assert(ids[ids.len() - 1] == v);
            }
            if v == ids.last() {
                assert(last[0] == v);
            }
        }
    }
}

/// A tree that holds the core atoms joins them.
proof fn lemma_joins_core(rule: FLRuleModel, tree: JoinTree)
    requires
        are_positions_small(rule),
        tree.preorder().no_duplicates(),
        forall|v: usize| #[trigger]
            tree.preorder().contains(v) <==> core_ids(rule).contains(v),
    ensures
        joins_core(rule, tree),
{
    let n = positive_atoms(rule.rhs).len();
    assert(atoms_of(rule, true).len() == n);
    lemma_core_below(rule, n);
    assert forall|k: int| 0 <= k < tree.preorder().len() implies (#[trigger] tree.preorder()[k])
        < atoms_of(rule, true).len() by {
        assert(tree.preorder().contains(tree.preorder()[k]));
    }
    assert forall|i: int|
        0 <= i < atoms_of(rule, true).len() && is_core(
            rule,
            i,
        ) implies tree.preorder().contains(#[trigger] (i as usize)) by {
        assert(core_ids(rule).contains(i as usize));
    }
}

/// The join tree of a rule joins the core atoms of the rule, each once.
pub proof fn law_join_tree_covers(rule: FLRuleModel, is_optimized: bool, plan: PlanTree)
    requires
        are_positions_small(rule),
        core_ids(rule).len() > 0,
        plan.describes(rule, is_optimized),
    ensures
        joins_core(rule, plan.shape),
        forall|v: usize| #[trigger]
            plan.shape.preorder().contains(v) <==> core_ids(rule).contains(v),
{
    let core = core_ids(rule);
    let tree = plan.shape;
    lemma_core_below(rule, positive_atoms(rule.rhs).len());
    if tree == chain(core) {
        lemma_chain_covers(core);
    } else {
        let (a, placed) = choose|a: int, placed: Seq<Link>|
            0 <= a < core.len() && placed.len() <= usize::MAX && #[trigger] is_full(
                rule,
                core,
                core[a],
                placed,
            ) && is_arrangement(tree, placed, 0);
        assert(core.contains(core[a]));
        lemma_grown(rule, core, core[a], placed, placed.len() as int);
        assert(are_ordered(placed));
        assert(are_different(placed));
        lemma_arrangement_covers(tree, placed, 0);
        assert forall|v: usize| #[trigger] tree.preorder().contains(v) <==> core.contains(v) by {
            if tree.preorder().contains(v) {
                let c = choose|c: int|
                    0 <= c < placed.len() && #[trigger] is_below(placed, 0, c) && placed[c].id == v;
                assert(core.contains(placed[c].id));
            }
            if core.contains(v) {
                assert(is_placed(placed, v));
                let c = choose|c: int| 0 <= c < placed.len() && (#[trigger] placed[c]).id == v;
                lemma_all_below_root(placed, c);
                assert(stands_below(placed, 0, v));
            }
        }
    }
    lemma_joins_core(rule, tree);
}

} // verus!
