//! Growing a spanning tree over the core atoms of a rule, and the join trees
//! that its subtrees can be arranged in.
use itertools::Itertools;
use vstd::prelude::*;
use crate::catalog::rule::{atom_strs, is_core};
use crate::lists::{empty, group_take, push};
use crate::optimizing::join_tree::{common, JoinTree};
use crate::parsing::arithmetic::distinct;
use crate::parsing::rule::FLRuleModel;
use crate::sorted::ascending;

verus! {

/// The variables of a core atom, each once; none for other atoms.
pub open spec fn node_vars(rule: FLRuleModel, i: int) -> Seq<Seq<char>> {
    if is_core(rule, i) {
        distinct(atom_strs(rule, true, i))
    } else {
        Seq::empty()
    }
}

/// How many variables two core atoms share.
pub open spec fn overlap(rule: FLRuleModel, a: usize, b: usize) -> nat {
    common(node_vars(rule, a as int), node_vars(rule, b as int)).len()
}

/// An atom of a growing tree: where its parent stands in the tree, how deep it
/// is, and how many variables it shares with the parent.
#[derive(Debug, Clone, Copy, PartialEq, Eq, Structural)]
pub struct Link {
    pub id: usize,
    pub parent: usize,
    pub depth: usize,
    pub overlap: usize,
}

/// The link that attaches `v` on account of the atom at position `i`: below that
/// atom where the two share variables, else below the root.
pub open spec fn link_from(rule: FLRuleModel, placed: Seq<Link>, i: int, v: usize) -> Link {
    let shared = overlap(rule, placed[i].id, v);
    if shared > 0 {
        Link {
            id: v,
            parent: i as usize,
            depth: (placed[i].depth + 1) as usize,
            overlap: shared as usize,
        }
    } else {
        Link { id: v, parent: 0, depth: 1, overlap: 0 }
    }
}

/// Whether a link is preferred: more shared variables, then less depth, then the
/// later parent, then the later atom.
pub open spec fn preferred(placed: Seq<Link>, a: Link, b: Link) -> bool {
    let pa = placed[a.parent as int].id;
    let pb = placed[b.parent as int].id;
    a.overlap > b.overlap || a.overlap == b.overlap && (a.depth < b.depth || a.depth == b.depth && (pa
        > pb || pa == pb && a.id > b.id))
}

/// Whether an atom is in the tree.
pub open spec fn is_placed(placed: Seq<Link>, v: usize) -> bool {
    exists|j: int| 0 <= j < placed.len() && (#[trigger] placed[j]).id == v
}

/// Whether a link attaches a core atom that is not in the tree yet.
pub open spec fn is_offer(
    rule: FLRuleModel,
    core: Seq<usize>,
    placed: Seq<Link>,
    i: int,
    v: usize,
) -> bool {
    0 <= i < placed.len() && core.contains(v) && !is_placed(placed, v)
}

/// Whether a link is the preferred one among those that the tree can grow by.
pub open spec fn is_best(
    rule: FLRuleModel,
    core: Seq<usize>,
    placed: Seq<Link>,
    link: Link,
) -> bool {
    &&& exists|i: int, v: usize| #[trigger]
        is_offer(rule, core, placed, i, v) && link == link_from(rule, placed, i, v)
    &&& forall|i: int, v: usize| #[trigger]
        is_offer(rule, core, placed, i, v) ==> !preferred(
            placed,
            link_from(rule, placed, i, v),
            link,
        )
}

/// Whether a tree has grown from `root` by the preferred link each time.
pub open spec fn is_grown(
    rule: FLRuleModel,
    core: Seq<usize>,
    root: usize,
    placed: Seq<Link>,
) -> bool {
    &&& placed.len() > 0
    &&& placed[0] == (Link { id: root, parent: 0, depth: 0, overlap: 0 })
    &&& forall|k: int|
        1 <= k < placed.len() ==> is_best(rule, core, placed.take(k), #[trigger] placed[k])
}

/// Whether a tree has grown from `root` until it holds all core atoms.
pub open spec fn is_full(
    rule: FLRuleModel,
    core: Seq<usize>,
    root: usize,
    placed: Seq<Link>,
) -> bool {
    &&& is_grown(rule, core, root, placed)
    &&& forall|v: usize| core.contains(v) ==> #[trigger] is_placed(placed, v)
}

/// The shared variables of all links together.
pub open spec fn links_overlap(rule: FLRuleModel, placed: Seq<Link>) -> nat
    decreases placed.len(),
{
    if placed.len() <= 1 {
        0
    } else {
        links_overlap(rule, placed.drop_last()) + placed.last().overlap as nat
    }
}

/// What holds of every position of a grown tree.
pub proof fn lemma_grown_links(
    rule: FLRuleModel,
    core: Seq<usize>,
    root: usize,
    placed: Seq<Link>,
    k: int,
)
    requires
        is_grown(rule, core, root, placed),
        core.contains(root),
        1 <= k < placed.len(),
        placed.len() <= usize::MAX,
        forall|j: int| 0 <= j < k ==> (#[trigger] placed[j]).depth <= j,
    ensures
        placed[k].parent < k,
        placed[k].depth <= k,
        core.contains(placed[k].id),
        !is_placed(placed.take(k), placed[k].id),
{
    let front = placed.take(k);
    assert(is_best(rule, core, front, placed[k]));
    let (i, v) = choose|i: int, v: usize| #[trigger]
        is_offer(rule, core, front, i, v) && placed[k] == link_from(rule, front, i, v);
    assert(front[i] == placed[i]);
    assert(placed[i].depth <= i);
}

/// Whether the first `n` links hold different core atoms, each behind its parent
/// and no deeper than there are links before it.
pub open spec fn are_links(core: Seq<usize>, placed: Seq<Link>, n: int) -> bool {
    &&& forall|j: int| 0 <= j < n ==> (#[trigger] placed[j]).depth <= j && core.contains(placed[j].id)
    &&& forall|j: int| 1 <= j < n ==> (#[trigger] placed[j]).parent < j
    &&& forall|i: int, j: int|
        0 <= i < j < n ==> (#[trigger] placed[i]).id != (#[trigger] placed[j]).id
}

proof fn lemma_links_step(core: Seq<usize>, placed: Seq<Link>, n: int)
    requires
        1 <= n < placed.len(),
        are_links(core, placed, n),
        placed[n].parent < n,
        placed[n].depth <= n,
        core.contains(placed[n].id),
        !is_placed(placed.take(n), placed[n].id),
    ensures
        are_links(core, placed, n + 1),
{
    assert forall|i: int| 0 <= i < n implies (#[trigger] placed[i]).id != placed[n].id by {
        assert(placed.take(n)[i] == placed[i]);
    }
}

/// The links of a grown tree.
pub proof fn lemma_grown(rule: FLRuleModel, core: Seq<usize>, root: usize, placed: Seq<Link>, n: int)
    requires
        is_grown(rule, core, root, placed),
        core.contains(root),
        0 <= n <= placed.len() <= usize::MAX,
    ensures
        are_links(core, placed, n),
    decreases n,
{
    if n > 1 {
        lemma_grown(rule, core, root, placed, n - 1);
        lemma_grown_links(rule, core, root, placed, n - 1);
        lemma_links_step(core, placed, n - 1);
    }
}

/// There is only one way to grow from a root.
pub proof fn lemma_grown_unique(
    rule: FLRuleModel,
    core: Seq<usize>,
    root: usize,
    a: Seq<Link>,
    b: Seq<Link>,
)
    requires
        is_full(rule, core, root, a),
        is_full(rule, core, root, b),
        core.contains(root),
        a.len() <= usize::MAX,
        b.len() <= usize::MAX,
    ensures
        a == b,
{
    if a.len() <= b.len() {
        lemma_same_growth(rule, core, root, a, b, a.len() as int);
        assert(a.take(a.len() as int) =~= a);
        lemma_no_more_growth(rule, core, root, a, b);
    } else {
        lemma_same_growth(rule, core, root, b, a, b.len() as int);
        assert(b.take(b.len() as int) =~= b);
        lemma_no_more_growth(rule, core, root, b, a);
    }
}

proof fn lemma_no_more_growth(
    rule: FLRuleModel,
    core: Seq<usize>,
    root: usize,
    a: Seq<Link>,
    b: Seq<Link>,
)
    requires
        is_full(rule, core, root, a),
        is_full(rule, core, root, b),
        core.contains(root),
        a.len() <= b.len() <= usize::MAX,
        a == b.take(a.len() as int),
    ensures
        a == b,
{
    if a.len() < b.len() {
        lemma_grown(rule, core, root, b, b.len() as int);
        let extra = b[a.len() as int].id;
        assert(core.contains(extra));
        assert(is_placed(a, extra));
        let j = choose|j: int| 0 <= j < a.len() && (#[trigger] a[j]).id == extra;
        assert(b[j] == a[j]);
    }
    assert(a =~= b);
}

proof fn lemma_best_unique(
    rule: FLRuleModel,
    core: Seq<usize>,
    placed: Seq<Link>,
    x: Link,
    y: Link,
)
    requires
        is_best(rule, core, placed, x),
        is_best(rule, core, placed, y),
        placed.len() <= usize::MAX,
        forall|i: int, j: int|
            0 <= i < j < placed.len() ==> (#[trigger] placed[i]).id != (#[trigger] placed[j]).id,
    ensures
        x == y,
{
    let (i, v) = choose|i: int, v: usize| #[trigger]
        is_offer(rule, core, placed, i, v) && x == link_from(rule, placed, i, v);
    let (j, u) = choose|j: int, u: usize| #[trigger]
        is_offer(rule, core, placed, j, u) && y == link_from(rule, placed, j, u);
    assert(!preferred(placed, link_from(rule, placed, i, v), y));
    assert(!preferred(placed, link_from(rule, placed, j, u), x));
    let p = x.parent as int;
    let q = y.parent as int;
    assert(0 <= p < placed.len() && 0 <= q < placed.len());
    assert(placed[p].id == placed[q].id);
    if p < q {
        assert(placed[p].id != placed[q].id);
    } else if q < p {
        assert(placed[q].id != placed[p].id);
    }
}

proof fn lemma_same_growth(
    rule: FLRuleModel,
    core: Seq<usize>,
    root: usize,
    a: Seq<Link>,
    b: Seq<Link>,
    n: int,
)
    requires
        is_grown(rule, core, root, a),
        is_grown(rule, core, root, b),
        core.contains(root),
        0 <= n <= a.len() <= b.len() <= usize::MAX,
    ensures
        a.take(n) == b.take(n),
    decreases n,
{
    if n > 0 {
        lemma_same_growth(rule, core, root, a, b, n - 1);
        let front = a.take(n - 1);
        if n > 1 {
            lemma_grown(rule, core, root, a, n - 1);
            assert forall|i: int, j: int| 0 <= i < j < front.len() implies (#[trigger] front[i]).id != (
            #[trigger] front[j]).id by {
                assert(front[i] == a[i] && front[j] == a[j]);
            }
            lemma_best_unique(rule, core, front, a[n - 1], b[n - 1]);
        }
        assert(a.take(n) =~= front.push(a[n - 1]));
        assert(b.take(n) =~= b.take(n - 1).push(b[n - 1]));
    }
}

// ---------------------------------------------------------------------------
// arrangements
// ---------------------------------------------------------------------------

/// Whether `p` holds exactly the items of `items`, each once, in some order.
pub open spec fn is_ordering(p: Seq<usize>, items: Seq<usize>) -> bool {
    p.no_duplicates() && p.to_set() == items.to_set()
}

/// All orders of the items, by `itertools`' `Itertools::permutations` over all of
/// them: the given order first, and each order of distinct items in the result.
#[verifier::external_body]
fn permutations(items: &Vec<usize>) -> (orders: Vec<Vec<usize>>)
    requires
        items@.no_duplicates(),
    ensures
        orders@.len() > 0,
        orders@[0]@ == items@,
        forall|k: int| 0 <= k < orders@.len() ==> is_ordering((#[trigger] orders@[k])@, items@),
        forall|p: Seq<usize>|
            #[trigger] is_ordering(p, items@) ==> exists|k: int|
                0 <= k < orders@.len() && (#[trigger] orders@[k])@ == p,
{
    items.iter().copied().permutations(items.len()).collect()
}

/// The positions of the atoms right below the one at `at`, in order.
pub open spec fn child_positions(placed: Seq<Link>, at: int, upto: nat) -> Seq<usize>
    decreases upto,
{
    if upto == 0 {
        Seq::empty()
    } else {
        let front = child_positions(placed, at, (upto - 1) as nat);
        if upto > 1 && placed[upto - 1].parent == at {
            front.push((upto - 1) as usize)
        } else {
            front
        }
    }
}

/// Whether a tree has the atom at `at` as its root and below it, in this order,
/// arrangements of the subtrees at `order`.
pub open spec fn is_arranged(
    tree: JoinTree,
    placed: Seq<Link>,
    at: int,
    order: Seq<usize>,
) -> bool
    decreases tree, 0nat,
{
    match tree {
        JoinTree::Atom(id) => order.len() == 0 && id == placed[at].id,
        JoinTree::Join(rest, last) => order.len() > 0 && is_arranged(
            *rest,
            placed,
            at,
            order.drop_last(),
        ) && is_arrangement(*last, placed, order.last() as int),
    }
}

/// Whether a tree arranges the subtree at `at`, its subtrees in any order.
pub open spec fn is_arrangement(tree: JoinTree, placed: Seq<Link>, at: int) -> bool
    decreases tree, 1nat,
{
    exists|order: Seq<usize>|
        #[trigger] is_ordering(order, child_positions(placed, at, placed.len())) && is_arranged(
            tree,
            placed,
            at,
            order,
        )
}

pub proof fn lemma_child_positions(placed: Seq<Link>, at: int, upto: nat)
    requires
        upto <= placed.len() <= usize::MAX,
        forall|j: int| 1 <= j < placed.len() ==> (#[trigger] placed[j]).parent < j,
    ensures
        ascending(child_positions(placed, at, upto)),
        forall|c: usize| #[trigger]
            child_positions(placed, at, upto).contains(c) <==> 1 <= c < upto && placed[c as int].parent
                == at,
        forall|c: usize| #[trigger]
            child_positions(placed, at, upto).contains(c) ==> at < c < upto,
    decreases upto,
{
    if upto > 0 {
        let front = child_positions(placed, at, (upto - 1) as nat);
        let all = child_positions(placed, at, upto);
        lemma_child_positions(placed, at, (upto - 1) as nat);
        assert forall|c: usize| #[trigger] all.contains(c) <==> 1 <= c < upto
            && placed[c as int].parent == at by {
            if front.contains(c) {
                let k = choose|k: int| 0 <= k < front.len() && front[k] == c;
                assert(all[k] == c);
            }
            if all.contains(c) {
                let k = choose|k: int| 0 <= k < all.len() && all[k] == c;
                if k < front.len() {
                    assert(front[k] == c);
                    assert(front.contains(c));
                }
            }
            if upto > 1 && placed[upto - 1].parent == at {
                assert(all[front.len() as int] == (upto - 1) as usize);
            }
        }
        assert forall|i: int, j: int| 0 <= i < j < all.len() implies all[i] < all[j] by {
            if j < front.len() {
                assert(front[i] < front[j]);
            } else {
                assert(front.contains(front[i]));
            }
        }
    }
}

/// What an arrangement is made of: a bounded depth, and atoms of the tree only.
pub proof fn lemma_arrangement_parts(tree: JoinTree, placed: Seq<Link>, at: int)
    requires
        is_arrangement(tree, placed, at),
        0 <= at < placed.len() <= usize::MAX,
        forall|j: int| 1 <= j < placed.len() ==> (#[trigger] placed[j]).parent < j,
    ensures
        tree.depth() < placed.len() - at,
        forall|k: int|
            0 <= k < tree.preorder().len() ==> is_placed(placed, #[trigger] tree.preorder()[k]),
        tree.root_id() == placed[at].id,
    decreases tree, 1nat,
{
    reveal_with_fuel(is_arrangement, 2);
    reveal_with_fuel(is_arranged, 2);
    let order = choose|order: Seq<usize>|
        #[trigger] is_ordering(order, child_positions(placed, at, placed.len())) && is_arranged(
            tree,
            placed,
            at,
            order,
        );
    lemma_child_positions(placed, at, placed.len());
    assert forall|m: int| 0 <= m < order.len() implies at < #[trigger] order[m] < placed.len() by {
        assert(order.contains(order[m]));
        assert(order.to_set().contains(order[m]));
        assert(child_positions(placed, at, placed.len()).contains(order[m]));
    }
    lemma_arranged_parts(tree, placed, at, order);
}

pub proof fn lemma_arranged_parts(tree: JoinTree, placed: Seq<Link>, at: int, order: Seq<usize>)
    requires
        is_arranged(tree, placed, at, order),
        0 <= at < placed.len() <= usize::MAX,
        forall|m: int| 0 <= m < order.len() ==> at < #[trigger] order[m] < placed.len(),
        forall|j: int| 1 <= j < placed.len() ==> (#[trigger] placed[j]).parent < j,
    ensures
        tree.depth() < placed.len() - at,
        forall|k: int|
            0 <= k < tree.preorder().len() ==> is_placed(placed, #[trigger] tree.preorder()[k]),
        tree.root_id() == placed[at].id,
    decreases tree, 0nat,
{
    match tree {
        JoinTree::Atom(id) => {
            assert(tree.preorder()[0] == placed[at].id);
        },
        JoinTree::Join(rest, last) => {
            let fewer = order.drop_last();
            assert forall|m: int| 0 <= m < fewer.len() implies at < #[trigger] fewer[m]
                < placed.len() by {
                assert(fewer[m] == order[m]);
            }
            lemma_arranged_parts(*rest, placed, at, fewer);
            let c = order.last() as int;
            assert(at < order[order.len() - 1] < placed.len());
            lemma_arrangement_parts(*last, placed, c);
            assert forall|k: int| 0 <= k < tree.preorder().len() implies is_placed(
                placed,
                #[trigger] tree.preorder()[k],
            ) by {
                if k < rest.preorder().len() {
                    assert(tree.preorder()[k] == rest.preorder()[k]);
                } else {
                    assert(tree.preorder()[k] == last.preorder()[k - rest.preorder().len()]);
                }
            }
        },
    }
}

/// All arrangements of the subtree at a position.
pub fn arrangements(placed: &Vec<Link>, at: usize) -> (trees: Vec<JoinTree>)
    requires
        at < placed.len(),
        forall|j: int| 1 <= j < placed@.len() ==> (#[trigger] placed@[j]).parent < j,
    ensures
        forall|tree: JoinTree| #[trigger]
            trees@.contains(tree) <==> is_arrangement(tree, placed@, at as int),
    decreases placed.len() - at, 1int,
{
    let ghost links = placed@;
    let mut below: Vec<usize> = Vec::new();
    let mut j: usize = 0;
    while j < placed.len()
        invariant
            j <= placed.len(),
            links == placed@,
            below@ == child_positions(links, at as int, j as nat),
        decreases placed.len() - j,
    {
        if j > 0 && placed[j].parent == at {
            below.push(j);
        }
        j += 1;
    }
    proof {
        lemma_child_positions(links, at as int, links.len());
        assert(below@.no_duplicates()) by {
            assert forall|a: int, b: int| 0 <= a < below@.len() && 0 <= b < below@.len() && a != b implies below@[a] != below@[b] by {
                if a < b {
                    assert(below@[a] < below@[b]);
                } else {
                    assert(below@[b] < below@[a]);
                }
            }
        }
    }
    let orders = permutations(&below);
    let mut trees: Vec<JoinTree> = Vec::new();
    let mut k: usize = 0;
    while k < orders.len()
        invariant
            k <= orders.len(),
            at < placed.len(),
            links == placed@,
            forall|j: int| 1 <= j < links.len() ==> (#[trigger] links[j]).parent < j,
            below@ == child_positions(links, at as int, links.len()),
            forall|c: usize| #[trigger] below@.contains(c) ==> at < c < links.len(),
            forall|m: int|
                0 <= m < orders@.len() ==> is_ordering((#[trigger] orders@[m])@, below@),
            forall|tree: JoinTree| #[trigger]
                trees@.contains(tree) <==> exists|m: int|
                    0 <= m < k && is_arranged(tree, links, at as int, (#[trigger] orders@[m])@),
        decreases orders.len() - k,
    {
        let order = &orders[k];
        let ghost found = trees@;
        proof {
            assert(is_ordering(orders@[k as int]@, below@));
            assert forall|m: int| 0 <= m < order@.len() implies at < #[trigger] order@[m] < links.len() by {
                assert(order@.to_set().contains(order@[m]));
                assert(below@.to_set().contains(order@[m]));
                assert(below@.contains(order@[m]));
            }
        }
        let more = in_order(placed, at, order);
        let ghost added = more@;
        let mut more = more;
        trees.append(&mut more);
        proof {
            assert forall|tree: JoinTree| #[trigger] trees@.contains(tree) <==> exists|m: int|
                0 <= m < k + 1 && is_arranged(tree, links, at as int, (#[trigger] orders@[m])@) by {
                assert(trees@.contains(tree) <==> found.contains(tree) || added.contains(tree)) by {
                    vstd::seq_lib::lemma_seq_concat_contains_all_elements(found, added, tree);
                }
                if added.contains(tree) {
                    assert(is_arranged(tree, links, at as int, orders@[k as int]@));
                }
                if exists|m: int|
                    0 <= m < k + 1 && is_arranged(tree, links, at as int, (#[trigger] orders@[m])@) {
                    let m = choose|m: int|
                        0 <= m < k + 1 && is_arranged(tree, links, at as int, (#[trigger] orders@[m])@);
                    if m < k {
                        assert(found.contains(tree));
                    } else {
                        assert(added.contains(tree));
                    }
                }
            }
        }
        k += 1;
    }
    proof {
        assert forall|tree: JoinTree| #[trigger] trees@.contains(tree) <==> is_arrangement(
            tree,
            links,
            at as int,
        ) by {
            reveal_with_fuel(is_arrangement, 2);
            reveal_with_fuel(is_arranged, 2);
            if trees@.contains(tree) {
                let m = choose|m: int|
                    0 <= m < orders@.len() && is_arranged(tree, links, at as int, (#[trigger] orders@[m])@);
                assert(is_ordering(orders@[m]@, below@));
            }
            if is_arrangement(tree, links, at as int) {
                let order = choose|order: Seq<usize>|
                    #[trigger] is_ordering(order, child_positions(links, at as int, links.len()))
                        && is_arranged(tree, links, at as int, order);
                assert(is_ordering(order, below@));
                let m = choose|m: int| 0 <= m < orders@.len() && (#[trigger] orders@[m])@ == order;
                assert(is_arranged(tree, links, at as int, orders@[m]@));
            }
        }
    }
    trees
}

/// All trees with the subtrees at `order` below the atom at `at`, in this order.
fn in_order(placed: &Vec<Link>, at: usize, order: &Vec<usize>) -> (trees: Vec<JoinTree>)
    requires
        at < placed.len(),
        forall|j: int| 1 <= j < placed@.len() ==> (#[trigger] placed@[j]).parent < j,
        forall|m: int| 0 <= m < order@.len() ==> at < #[trigger] order@[m] < placed@.len(),
    ensures
        forall|tree: JoinTree| #[trigger]
            trees@.contains(tree) <==> is_arranged(tree, placed@, at as int, order@),
    decreases placed.len() - at, 0int,
{
    broadcast use group_take;

    let ghost links = placed@;
    let mut trees: Vec<JoinTree> = Vec::new();
    trees.push(JoinTree::Atom(placed[at].id));
    proof {
        assert forall|tree: JoinTree| #[trigger] trees@.contains(tree) <==> is_arranged(
            tree,
            links,
            at as int,
            order@.take(0),
        ) by {
            assert(trees@[0] == JoinTree::Atom(links[at as int].id));
            if is_arranged(tree, links, at as int, order@.take(0)) {
                match tree {
                    JoinTree::Atom(_) => {},
                    JoinTree::Join(_, _) => {},
                }
            }
        }
    }
    let mut i: usize = 0;
    while i < order.len()
        invariant
            i <= order.len(),
            at < placed.len(),
            links == placed@,
            forall|j: int| 1 <= j < links.len() ==> (#[trigger] links[j]).parent < j,
            forall|m: int| 0 <= m < order@.len() ==> at < #[trigger] order@[m] < links.len(),
            forall|tree: JoinTree| #[trigger]
                trees@.contains(tree) <==> is_arranged(
                    tree,
                    links,
                    at as int,
                    order@.take(i as int),
                ),
        decreases order.len() - i,
    {
        let c: usize = order[i];
        assert(at < order@[i as int] < links.len());
        let subtrees = arrangements(placed, c);
        let next = joined(&trees, &subtrees);
        proof {
            let now = order@.take(i + 1);
            assert(now.drop_last() == order@.take(i as int));
            assert(now.last() == c);
            assert forall|tree: JoinTree| #[trigger] next@.contains(tree) <==> is_arranged(
                tree,
                links,
                at as int,
                now,
            ) by {
                match tree {
                    JoinTree::Atom(_) => {},
                    JoinTree::Join(rest, last) => {
                        assert(trees@.contains(*rest) <==> is_arranged(
                            *rest,
                            links,
                            at as int,
                            now.drop_last(),
                        ));
                        assert(subtrees@.contains(*last) <==> is_arrangement(*last, links, c as int));
                    },
                }
            }
        }
        trees = next;
        i += 1;
    }
    assert(order@.take(order@.len() as int) =~= order@);
    trees
}

/// Every tree of `rests` with every tree of `lasts` as its last subtree.
fn joined(rests: &Vec<JoinTree>, lasts: &Vec<JoinTree>) -> (trees: Vec<JoinTree>)
    ensures
        forall|tree: JoinTree| #[trigger]
            trees@.contains(tree) <==> (tree matches JoinTree::Join(rest, last) && rests@.contains(
                *rest,
            ) && lasts@.contains(*last)),
{
    let mut trees: Vec<JoinTree> = Vec::new();
    let mut i: usize = 0;
    while i < rests.len()
        invariant
            i <= rests.len(),
            forall|tree: JoinTree| #[trigger]
                trees@.contains(tree) <==> (tree matches JoinTree::Join(rest, last)
                    && rests@.take(i as int).contains(*rest) && lasts@.contains(*last)),
        decreases rests.len() - i,
    {
        let ghost found = trees@;
        let ghost shorter = rests@.take(i as int);
        let ghost longer = rests@.take(i + 1);
        assert(longer =~= shorter.push(rests@[i as int]));
        assert(forall|t: JoinTree| longer.contains(t) <==> shorter.contains(t) || t == rests@[i as int]) by {
            assert forall|t: JoinTree| longer.contains(t) <==> shorter.contains(t) || t
                == rests@[i as int] by {
                vstd::seq_lib::lemma_seq_contains_after_push(shorter, rests@[i as int], t);
            }
        }
        let mut j: usize = 0;
        assert(forall|t: JoinTree| !lasts@.take(0).contains(t));
        while j < lasts.len()
            invariant
                j <= lasts.len(),
                i < rests.len(),
                forall|tree: JoinTree| #[trigger]
                    trees@.contains(tree) <==> found.contains(tree) || (tree matches JoinTree::Join(
                        rest,
                        last,
                    ) && *rest == rests@[i as int] && lasts@.take(j as int).contains(*last)),
            decreases lasts.len() - j,
        {
            let ghost before = trees@;
            let tree = JoinTree::Join(Box::new(rests[i].copy()), Box::new(lasts[j].copy()));
            trees.push(tree);
            proof {
                let fewer = lasts@.take(j as int);
                assert(lasts@.take(j + 1) =~= fewer.push(lasts@[j as int]));
                assert forall|t: JoinTree| #[trigger] trees@.contains(t) <==> found.contains(t) || (
                t matches JoinTree::Join(rest, last) && *rest == rests@[i as int] && lasts@.take(
                    j + 1,
                ).contains(*last)) by {
                    vstd::seq_lib::lemma_seq_contains_after_push(before, tree, t);
                    match t {
                        JoinTree::Atom(_) => {},
                        JoinTree::Join(rest, last) => {
                            vstd::seq_lib::lemma_seq_contains_after_push(
                                fewer,
                                lasts@[j as int],
                                *last,
                            );
                        },
                    }
                }
            }
            j += 1;
        }
        assert(lasts@.take(lasts@.len() as int) =~= lasts@);
        i += 1;
    }
    assert(rests@.take(rests@.len() as int) =~= rests@);
    trees
}

} // verus!
