//! Paths in directed graphs, and what depth first search finds out about them.
use vstd::prelude::*;

verus! {

/// A directed graph: the successors of each vertex.
pub type Graph = Map<usize, Set<usize>>;

pub open spec fn edge(g: Graph, a: usize, b: usize) -> bool {
    g.contains_key(a) && g[a].contains(b)
}

/// Whether every edge stays among the vertices below `n`.
pub open spec fn bounded(g: Graph, n: nat) -> bool {
    forall|a: usize, b: usize| #[trigger] edge(g, a, b) ==> a < n && b < n
}

pub open spec fn is_path(g: Graph, p: Seq<usize>) -> bool {
    &&& p.len() > 0
    &&& forall|i: int| 0 <= i < p.len() - 1 ==> #[trigger] edge(g, p[i], p[i + 1])
}

/// Whether `p` leads from `a` to `b` without touching a blocked vertex.
pub open spec fn connects(g: Graph, blocked: Set<usize>, p: Seq<usize>, a: usize, b: usize) -> bool {
    &&& is_path(g, p)
    &&& p[0] == a
    &&& p[p.len() - 1] == b
    &&& forall|i: int| 0 <= i < p.len() ==> !blocked.contains(#[trigger] p[i])
}

/// Whether some path leads from `a` to `b` without touching a blocked vertex.
pub open spec fn reaches_avoiding(g: Graph, blocked: Set<usize>, a: usize, b: usize) -> bool {
    exists|p: Seq<usize>| connects(g, blocked, p, a, b)
}

/// Whether some path, possibly of no edge, leads from `a` to `b`.
pub open spec fn reaches(g: Graph, a: usize, b: usize) -> bool {
    reaches_avoiding(g, Set::empty(), a, b)
}

/// Whether two vertices lie on a common cycle, or are the same.
pub open spec fn mutual(g: Graph, a: usize, b: usize) -> bool {
    reaches(g, a, b) && reaches(g, b, a)
}

/// The graph with every edge turned round.
pub open spec fn is_transpose(g: Graph, t: Graph) -> bool {
    forall|a: usize, b: usize| #[trigger] edge(t, b, a) <==> edge(g, a, b)
}

pub proof fn lemma_reaches_self(g: Graph, blocked: Set<usize>, a: usize)
    requires
        !blocked.contains(a),
    ensures
        reaches_avoiding(g, blocked, a, a),
{
    assert(connects(g, blocked, seq![a], a, a));
}

pub proof fn lemma_reaches_edge(g: Graph, blocked: Set<usize>, a: usize, b: usize)
    requires
        edge(g, a, b),
        !blocked.contains(a),
        !blocked.contains(b),
    ensures
        reaches_avoiding(g, blocked, a, b),
{
    assert(connects(g, blocked, seq![a, b], a, b));
}

pub proof fn lemma_reaches_trans(g: Graph, blocked: Set<usize>, a: usize, b: usize, c: usize)
    requires
        reaches_avoiding(g, blocked, a, b),
        reaches_avoiding(g, blocked, b, c),
    ensures
        reaches_avoiding(g, blocked, a, c),
{
    let p = choose|p: Seq<usize>| connects(g, blocked, p, a, b);
    let q = choose|q: Seq<usize>| connects(g, blocked, q, b, c);
    let tail = q.subrange(1, q.len() as int);
    let r = p + tail;
    assert forall|i: int| 0 <= i < r.len() - 1 implies #[trigger] edge(g, r[i], r[i + 1]) by {
        if i < p.len() - 1 {
            assert(edge(g, p[i], p[i + 1]));
        } else {
            let j = i - (p.len() - 1);
            assert(edge(g, q[j], q[j + 1]));
            assert(r[i + 1] == q[j + 1]);
            assert(r[i] == q[j]);
        }
    }
    assert forall|i: int| 0 <= i < r.len() implies !blocked.contains(#[trigger] r[i]) by {
        if i < p.len() {
            assert(r[i] == p[i]);
        } else {
            assert(r[i] == q[i - (p.len() - 1)]);
        }
    }
    if tail.len() == 0 {
        assert(r[r.len() - 1] == p[p.len() - 1]);
    } else {
        assert(r[r.len() - 1] == q[q.len() - 1]);
    }
    assert(connects(g, blocked, r, a, c));
}

pub proof fn lemma_reaches_less_blocked(
    g: Graph,
    more: Set<usize>,
    less: Set<usize>,
    a: usize,
    b: usize,
)
    requires
        reaches_avoiding(g, more, a, b),
        forall|x: usize| less.contains(x) ==> more.contains(x),
    ensures
        reaches_avoiding(g, less, a, b),
{
    let p = choose|p: Seq<usize>| connects(g, more, p, a, b);
    assert(connects(g, less, p, a, b));
}

pub proof fn lemma_reaches_some(g: Graph, blocked: Set<usize>, a: usize, b: usize)
    requires
        reaches_avoiding(g, blocked, a, b),
    ensures
        reaches(g, a, b),
        !blocked.contains(a),
        !blocked.contains(b),
{
    lemma_reaches_less_blocked(g, blocked, Set::empty(), a, b);
    let p = choose|p: Seq<usize>| connects(g, blocked, p, a, b);
    assert(!blocked.contains(p[0]));
    assert(!blocked.contains(p[p.len() - 1]));
}

/// Two vertices on a common cycle with a third are on a common cycle.
pub proof fn lemma_mutual_trans(g: Graph, a: usize, b: usize, c: usize)
    requires
        mutual(g, a, b),
        mutual(g, b, c),
    ensures
        mutual(g, a, c),
        mutual(g, c, a),
{
    lemma_reaches_trans(g, Set::empty(), a, b, c);
    lemma_reaches_trans(g, Set::empty(), c, b, a);
}

pub proof fn lemma_mutual_self(g: Graph, a: usize)
    ensures
        mutual(g, a, a),
{
    lemma_reaches_self(g, Set::empty(), a);
}

/// The part of a path up to a position, and the part from there on.
pub proof fn lemma_path_parts(
    g: Graph,
    blocked: Set<usize>,
    p: Seq<usize>,
    a: usize,
    b: usize,
    i: int,
)
    requires
        connects(g, blocked, p, a, b),
        0 <= i < p.len(),
    ensures
        reaches_avoiding(g, blocked, a, p[i]),
        reaches_avoiding(g, blocked, p[i], b),
{
    let front = p.subrange(0, i + 1);
    let back = p.subrange(i, p.len() as int);
    assert forall|k: int| 0 <= k < front.len() - 1 implies #[trigger] edge(g, front[k], front[k + 1]) by {
        assert(edge(g, p[k], p[k + 1]));
    }
    assert forall|k: int| 0 <= k < back.len() - 1 implies #[trigger] edge(g, back[k], back[k + 1]) by {
        assert(edge(g, p[i + k], p[i + k + 1]));
    }
    assert forall|k: int| 0 <= k < front.len() implies !blocked.contains(#[trigger] front[k]) by {
        assert(!blocked.contains(p[k]));
    }
    assert forall|k: int| 0 <= k < back.len() implies !blocked.contains(#[trigger] back[k]) by {
        assert(!blocked.contains(p[i + k]));
    }
    assert(connects(g, blocked, front, a, p[i]));
    assert(connects(g, blocked, back, p[i], b));
}

/// A path that starts inside a set which unblocked edges do not leave ends inside it.
pub proof fn lemma_closed_set(g: Graph, blocked: Set<usize>, set: Set<usize>, a: usize, b: usize)
    requires
        set.contains(a),
        forall|x: usize, y: usize|
            set.contains(x) && #[trigger] edge(g, x, y) ==> set.contains(y) || blocked.contains(y),
        reaches_avoiding(g, blocked, a, b),
    ensures
        set.contains(b),
{
    let p = choose|p: Seq<usize>| connects(g, blocked, p, a, b);
    lemma_closed_set_along(g, blocked, set, p, p.len() - 1);
}

proof fn lemma_closed_set_along(
    g: Graph,
    blocked: Set<usize>,
    set: Set<usize>,
    p: Seq<usize>,
    i: int,
)
    requires
        is_path(g, p),
        forall|k: int| 0 <= k < p.len() ==> !blocked.contains(#[trigger] p[k]),
        set.contains(p[0]),
        forall|x: usize, y: usize|
            set.contains(x) && #[trigger] edge(g, x, y) ==> set.contains(y) || blocked.contains(y),
        0 <= i < p.len(),
    ensures
        set.contains(p[i]),
    decreases i,
{
    if i > 0 {
        lemma_closed_set_along(g, blocked, set, p, i - 1);
        assert(edge(g, p[i - 1], p[i - 1 + 1]));
        assert(!blocked.contains(p[i]));
    }
}

/// Turning the edges round turns the paths round.
pub proof fn lemma_transpose_reaches(g: Graph, t: Graph, blocked: Set<usize>, a: usize, b: usize)
    requires
        is_transpose(g, t),
    ensures
        reaches_avoiding(t, blocked, a, b) <==> reaches_avoiding(g, blocked, b, a),
{
    if reaches_avoiding(t, blocked, a, b) {
        let p = choose|p: Seq<usize>| connects(t, blocked, p, a, b);
        lemma_reverse_path(t, g, blocked, p, a, b);
    }
    if reaches_avoiding(g, blocked, b, a) {
        let p = choose|p: Seq<usize>| connects(g, blocked, p, b, a);
        lemma_reverse_path(g, t, blocked, p, b, a);
    }
}

proof fn lemma_reverse_path(
    g: Graph,
    t: Graph,
    blocked: Set<usize>,
    p: Seq<usize>,
    a: usize,
    b: usize,
)
    requires
        forall|x: usize, y: usize| edge(g, x, y) ==> #[trigger] edge(t, y, x),
        connects(g, blocked, p, a, b),
    ensures
        reaches_avoiding(t, blocked, b, a),
{
    let r = Seq::new(p.len(), |i: int| p[p.len() - 1 - i]);
    assert forall|i: int| 0 <= i < r.len() - 1 implies #[trigger] edge(t, r[i], r[i + 1]) by {
        let k = p.len() - 2 - i;
        assert(edge(g, p[k], p[k + 1]));
        assert(edge(t, p[k + 1], p[k]));
    }
    assert(connects(t, blocked, r, b, a));
}

// ---------------------------------------------------------------------------
// depth first search
// ---------------------------------------------------------------------------

/// What a depth first search that starts with the vertices of `before` visited
/// and ends with those of `after` visited has put into its post-order:
/// the newly visited vertices, each once, closed under edges, and so that
/// whatever a vertex reaches through new vertices comes no later than some
/// vertex on a common cycle with it.
pub open spec fn is_post_order(
    g: Graph,
    before: Set<usize>,
    after: Set<usize>,
    order: Seq<usize>,
) -> bool {
    &&& order.no_duplicates()
    &&& forall|x: usize| #[trigger] before.contains(x) ==> after.contains(x)
    &&& forall|x: usize|
        #[trigger] order.contains(x) <==> after.contains(x) && !before.contains(x)
    &&& forall|x: usize, y: usize|
        order.contains(x) && #[trigger] edge(g, x, y) ==> after.contains(y)
    &&& forall|i: int, j: int|
        #![trigger order[i], order[j]]
        0 <= i < order.len() && 0 <= j < order.len() && reaches_avoiding(
            g,
            before,
            order[i],
            order[j],
        ) ==> ends_later(g, order, order[i], j)
}

/// Whether a vertex on a common cycle with `x` stands at position `j` or later.
pub open spec fn ends_later(g: Graph, order: Seq<usize>, x: usize, j: int) -> bool {
    exists|k: int| j <= k < order.len() && mutual(g, x, #[trigger] order[k])
}

pub proof fn lemma_post_order_empty(g: Graph, before: Set<usize>)
    ensures
        is_post_order(g, before, before, Seq::empty()),
{
}

/// Two searches one after the other.
pub proof fn lemma_post_order_append(
    g: Graph,
    before: Set<usize>,
    between: Set<usize>,
    after: Set<usize>,
    first: Seq<usize>,
    second: Seq<usize>,
)
    requires
        is_post_order(g, before, between, first),
        is_post_order(g, between, after, second),
    ensures
        is_post_order(g, before, after, first + second),
{
    let order = first + second;
    assert forall|x: usize| #[trigger] order.contains(x) <==> after.contains(x)
        && !before.contains(x) by {
        if order.contains(x) {
            let i = choose|i: int| 0 <= i < order.len() && order[i] == x;
            if i < first.len() {
                assert(first[i] == x);
                assert(first.contains(x));
            } else {
                assert(second[i - first.len()] == x);
                assert(second.contains(x));
            }
        }
        if after.contains(x) && !before.contains(x) {
            if between.contains(x) {
                assert(first.contains(x));
                let i = choose|i: int| 0 <= i < first.len() && first[i] == x;
                assert(order[i] == x);
            } else {
                assert(second.contains(x));
                let i = choose|i: int| 0 <= i < second.len() && second[i] == x;
                assert(order[first.len() + i] == x);
            }
        }
    }
    assert forall|i: int, j: int| 0 <= i < j < order.len() implies order[i] != order[j] by {
        if i < first.len() && j >= first.len() {
            assert(first.contains(first[i]));
            assert(second.contains(second[j - first.len()]));
        } else if i < first.len() {
            assert(first[i] != first[j]);
        } else {
            assert(second[i - first.len()] != second[j - first.len()]);
        }
    }
    assert forall|x: usize, y: usize| order.contains(x) && #[trigger] edge(g, x, y) implies after.contains(y) by {
        if first.contains(x) {
            assert(between.contains(y));
        } else {
            assert(second.contains(x)) by {
                assert(after.contains(x) && !before.contains(x));
            }
        }
    }
    let firsts = Set::new(|x: usize| first.contains(x));
    assert forall|x: usize, y: usize| firsts.contains(x) && #[trigger] edge(g, x, y) implies firsts.contains(y) || before.contains(y) by {
        assert(between.contains(y));
        if !before.contains(y) {
            assert(first.contains(y));
        }
    }
    assert forall|i: int, j: int|
        #![trigger order[i], order[j]]
        0 <= i < order.len() && 0 <= j < order.len() && reaches_avoiding(
            g,
            before,
            order[i],
            order[j],
        ) implies ends_later(g, order, order[i], j) by {
        let x = order[i];
        let y = order[j];
        if i < first.len() {
            assert(first[i] == x);
            assert(firsts.contains(x));
            lemma_closed_set(g, before, firsts, x, y);
            if j >= first.len() {
                assert(second[j - first.len()] == y);
                assert(second.contains(y));
                assert(between.contains(y));
            }
            assert(first[j] == y);
            assert(ends_later(g, first, x, j));
            let k = choose|k: int| j <= k < first.len() && mutual(g, x, #[trigger] first[k]);
            assert(order[k] == first[k]);
        } else if j < first.len() {
            lemma_mutual_self(g, x);
            assert(mutual(g, x, order[i]));
        } else {
            let p = choose|p: Seq<usize>| connects(g, before, p, x, y);
            assert(second[i - first.len()] == x);
            assert(second[j - first.len()] == y);
            assert(second.contains(x) && second.contains(y));
            assert forall|k: int| 0 <= k < p.len() implies !between.contains(#[trigger] p[k]) by {
                if between.contains(p[k]) {
                    assert(!before.contains(p[k]));
                    assert(first.contains(p[k]));
                    lemma_path_parts(g, before, p, x, y, k);
                    lemma_closed_set(g, before, firsts, p[k], y);
                    assert(between.contains(y));
                }
            }
            assert(connects(g, between, p, x, y));
            assert(ends_later(g, second, x, j - first.len()));
            let k = choose|k: int|
                j - first.len() <= k < second.len() && mutual(g, x, #[trigger] second[k]);
            assert(order[first.len() + k] == second[k]);
        }
    }
}

/// The search below a vertex, followed by the vertex itself.
pub proof fn lemma_post_order_root(
    g: Graph,
    before: Set<usize>,
    after: Set<usize>,
    below: Seq<usize>,
    root: usize,
)
    requires
        !before.contains(root),
        is_post_order(g, before.insert(root), after, below),
        forall|y: usize| #[trigger] edge(g, root, y) ==> after.contains(y),
        forall|x: usize| #[trigger] below.contains(x) ==> reaches(g, root, x),
    ensures
        is_post_order(g, before, after, below.push(root)),
{
    let order = below.push(root);
    let inner = before.insert(root);
    let last = below.len() as int;
    assert(order[last] == root);
    assert(inner.contains(root));
    assert forall|x: usize| #[trigger] order.contains(x) <==> after.contains(x)
        && !before.contains(x) by {
        if order.contains(x) {
            let i = choose|i: int| 0 <= i < order.len() && order[i] == x;
            if i < below.len() {
                assert(below[i] == x);
                assert(below.contains(x));
                assert(!inner.contains(x));
            }
        }
        if after.contains(x) && !before.contains(x) && x != root {
            assert(!inner.contains(x));
            assert(below.contains(x));
            let i = choose|i: int| 0 <= i < below.len() && below[i] == x;
            assert(order[i] == x);
        }
    }
    assert forall|x: usize| #[trigger] before.contains(x) implies after.contains(x) by {
        assert(inner.contains(x));
    }
    assert forall|i: int, j: int| 0 <= i < j < order.len() implies order[i] != order[j] by {
        if j == last {
            assert(below.contains(below[i]));
        } else {
            assert(below[i] != below[j]);
        }
    }
    assert forall|x: usize, y: usize| order.contains(x) && #[trigger] edge(g, x, y) implies after.contains(y) by {
        if x != root {
            assert(after.contains(x) && !before.contains(x));
            assert(below.contains(x));
        }
    }
    assert forall|i: int, j: int|
        #![trigger order[i], order[j]]
        0 <= i < order.len() && 0 <= j < order.len() && reaches_avoiding(
            g,
            before,
            order[i],
            order[j],
        ) implies ends_later(g, order, order[i], j) by {
        let x = order[i];
        let y = order[j];
        if i == last {
            lemma_mutual_self(g, x);
            assert(mutual(g, x, order[last]));
        } else {
            assert(below[i] == x);
            assert(below.contains(x));
            let p = choose|p: Seq<usize>| connects(g, before, p, x, y);
            if exists|k: int| 0 <= k < p.len() && p[k] == root {
                let k = choose|k: int| 0 <= k < p.len() && p[k] == root;
                lemma_path_parts(g, before, p, x, y, k);
                lemma_reaches_some(g, before, x, root);
                assert(mutual(g, x, order[last]));
            } else {
                assert forall|k: int| 0 <= k < p.len() implies !inner.contains(#[trigger] p[k]) by {
                    assert(!before.contains(p[k]));
                }
                assert(connects(g, inner, p, x, y));
                assert(y != root) by {
                    assert(p[p.len() - 1] == y);
                }
                assert(below[j] == y);
                assert(ends_later(g, below, x, j));
                let k = choose|k: int| j <= k < below.len() && mutual(g, x, #[trigger] below[k]);
                assert(order[k] == below[k]);
            }
        }
    }
}

/// A search visits what its root reaches through unvisited vertices.
pub proof fn lemma_search_finds(
    g: Graph,
    before: Set<usize>,
    after: Set<usize>,
    order: Seq<usize>,
    root: usize,
    x: usize,
)
    requires
        is_post_order(g, before, after, order),
        order.contains(root),
        reaches_avoiding(g, before, root, x),
    ensures
        order.contains(x),
{
    let found = Set::new(|y: usize| order.contains(y));
    assert forall|a: usize, b: usize| found.contains(a) && #[trigger] edge(g, a, b) implies found.contains(b) || before.contains(b) by {
        assert(after.contains(b));
        if !before.contains(b) {
            assert(order.contains(b));
        }
    }
    lemma_closed_set(g, before, found, root, x);
}

// ---------------------------------------------------------------------------
// components and cycles
// ---------------------------------------------------------------------------

/// Whether a vertex lies on a cycle.
pub open spec fn cyclic(g: Graph, a: usize) -> bool {
    exists|y: usize| #[trigger] edge(g, a, y) && reaches(g, y, a)
}

/// Whether `members` are the vertices on a common cycle with their first one.
pub open spec fn is_component(g: Graph, members: Seq<usize>) -> bool {
    &&& members.len() > 0
    &&& members.no_duplicates()
    &&& forall|x: usize| #[trigger] members.contains(x) <==> mutual(g, members[0], x)
}

pub proof fn lemma_first_edge(g: Graph, a: usize, b: usize) -> (y: usize)
    requires
        reaches(g, a, b),
        a != b,
    ensures
        edge(g, a, y),
        reaches(g, y, b),
{
    let p = choose|p: Seq<usize>| connects(g, Set::empty(), p, a, b);
    lemma_path_parts(g, Set::empty(), p, a, b, 1);
    assert(edge(g, p[0], p[0int + 1]));
    p[1]
}

/// Being on a cycle is the same for all members of a component.
pub proof fn lemma_cyclic_mutual(g: Graph, a: usize, b: usize)
    requires
        mutual(g, a, b),
    ensures
        cyclic(g, a) <==> cyclic(g, b),
        a != b ==> cyclic(g, a),
{
    if a != b {
        let y = lemma_first_edge(g, a, b);
        lemma_reaches_trans(g, Set::empty(), y, b, a);
        let z = lemma_first_edge(g, b, a);
        lemma_reaches_trans(g, Set::empty(), z, a, b);
    }
}

} // verus!
