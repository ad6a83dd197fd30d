//! What join trees are measured by.
use vstd::prelude::*;
use vstd::string::*;
use crate::catalog::query::{head_vars, vars_of};
use crate::catalog::rule::atom_strs;
use crate::optimizing::drawing::{below_text, tree_text};
use crate::optimizing::growing::{
    link_from, links_overlap, node_vars, overlap, preferred, Link,
};
use crate::optimizing::join_tree::{common, width, JoinTree};
use crate::optimizing::optimizer::{beats, chain, chain_overlap, needed_vars};
use crate::parsing::arithmetic::{distinct, lemma_distinct};
use crate::parsing::rule::FLRuleModel;
use crate::text::nat_text;

verus! {

/// What two lists have in common stands in both. It keeps the order and the repetitions
/// of the first list.
pub proof fn law_common_items_stand_in_both(
    a: Seq<Seq<char>>,
    b: Seq<Seq<char>>,
    item: Seq<char>,
)
    ensures
        common(a, b).contains(item) <==> a.contains(item) && b.contains(item),
        a.no_duplicates() ==> common(a, b).no_duplicates(),
        common(a.push(item), b) == if b.contains(item) {
            common(a, b).push(item)
        } else {
            common(a, b)
        },
        common(a, a) == a,
    decreases a.len(),
{
    assert(a.push(item).drop_last() =~= a);
    lemma_within(a, a);
    if a.len() > 0 {
        let front = a.drop_last();
        let x = a.last();
        law_common_items_stand_in_both(front, b, item);
        law_common_items_stand_in_both(front, b, x);
        let before = common(front, b);
        let all = common(a, b);
        assert(a.contains(x)) by {
            assert(a[a.len() - 1] == x);
        }
        if b.contains(x) {
            assert(all.last() == x);
            assert(all.contains(x)) by {
                assert(all[all.len() - 1] == x);
            }
        }
        assert(before.contains(item) ==> all.contains(item)) by {
            if before.contains(item) {
                let i = choose|i: int| 0 <= i < before.len() && before[i] == item;
                assert(all[i] == item);
            }
        }
        assert(front.contains(item) ==> a.contains(item)) by {
            if front.contains(item) {
                let i = choose|i: int| 0 <= i < front.len() && front[i] == item;
                assert(a[i] == item);
            }
        }
        assert(all.contains(item) ==> item == x && b.contains(x) || before.contains(item)) by {
            if all.contains(item) {
                let i = choose|i: int| 0 <= i < all.len() && all[i] == item;
                if i < before.len() {
                    assert(before[i] == item);
                }
            }
        }
        assert(a.contains(item) ==> item == x || front.contains(item)) by {
            if a.contains(item) {
                let i = choose|i: int| 0 <= i < a.len() && a[i] == item;
                if i < front.len() {
                    assert(front[i] == item);
                }
            }
        }
        if a.no_duplicates() {
            assert(!front.contains(x)) by {
                if front.contains(x) {
                    let i = choose|i: int| 0 <= i < front.len() && front[i] == x;
                    assert(a[i] == a[a.len() - 1]);
                }
            }
            assert(front.no_duplicates());
            assert(!before.contains(x));
            assert(all.no_duplicates());
        }
    }
}

proof fn lemma_within(a: Seq<Seq<char>>, b: Seq<Seq<char>>)
    requires
        forall|i: int| 0 <= i < a.len() ==> b.contains(#[trigger] a[i]),
    ensures
        common(a, b) == a,
    decreases a.len(),
{
    if a.len() == 0 {
        assert(common(a, b) =~= a);
    } else {
        let front = a.drop_last();
        assert forall|i: int| 0 <= i < front.len() implies b.contains(#[trigger] front[i]) by {
            assert(front[i] == a[i]);
        }
        lemma_within(front, b);
        assert(b.contains(a[a.len() - 1]));
        assert(front.push(a.last()) =~= a);
    }
}

proof fn lemma_no_longer(a: Seq<Seq<char>>, b: Seq<Seq<char>>)
    requires
        a.no_duplicates(),
        forall|x: Seq<char>| #[trigger] a.contains(x) ==> b.contains(x),
    ensures
        a.len() <= b.len(),
{
    a.unique_seq_to_set();
    b.lemma_cardinality_of_set();
    assert forall|x: Seq<char>| a.to_set().contains(x) implies b.to_set().contains(x) by {
        assert(a.contains(x));
    }
    vstd::set_lib::lemma_len_subset(a.to_set(), b.to_set());
}

/// How many variables two atoms share does not depend on which of them comes first. They
/// share none exactly if no variable stands in both, and all with themselves.
pub proof fn law_shared_variables(rule: FLRuleModel, a: usize, b: usize)
    ensures
        overlap(rule, a, b) == overlap(rule, b, a),
        overlap(rule, a, b) == 0 <==> forall|var: Seq<char>|
            !(#[trigger] node_vars(rule, a as int).contains(var) && node_vars(
                rule,
                b as int,
            ).contains(var)),
        overlap(rule, a, a) == node_vars(rule, a as int).len(),
{
    let x = node_vars(rule, a as int);
    let y = node_vars(rule, b as int);
    lemma_node_vars(rule, a as int);
    lemma_node_vars(rule, b as int);
    law_common_items_stand_in_both(x, y, Seq::empty());
    law_common_items_stand_in_both(y, x, Seq::empty());
    law_common_items_stand_in_both(x, x, Seq::empty());
    assert forall|v: Seq<char>| #[trigger] common(x, y).contains(v) implies common(
        y,
        x,
    ).contains(v) by {
        law_common_items_stand_in_both(x, y, v);
        law_common_items_stand_in_both(y, x, v);
    }
    assert forall|v: Seq<char>| #[trigger] common(y, x).contains(v) implies common(
        x,
        y,
    ).contains(v) by {
        law_common_items_stand_in_both(x, y, v);
        law_common_items_stand_in_both(y, x, v);
    }
    lemma_no_longer(common(x, y), common(y, x));
    lemma_no_longer(common(y, x), common(x, y));
    if overlap(rule, a, b) == 0 {
        assert forall|v: Seq<char>| !(#[trigger] x.contains(v) && y.contains(v)) by {
            law_common_items_stand_in_both(x, y, v);
        }
    } else {
        let v = common(x, y)[0];
        assert(common(x, y).contains(v));
        law_common_items_stand_in_both(x, y, v);
    }
}

proof fn lemma_node_vars(rule: FLRuleModel, i: int)
    ensures
        node_vars(rule, i).no_duplicates(),
{
    lemma_distinct(atom_strs(rule, true, i));
}

/// A chain of atoms joins them one by one from the first to the last, and is read off
/// from the last to the first.
pub proof fn law_chains_join_in_order(ids: Seq<usize>)
    requires
        ids.len() > 0,
    ensures
        chain(ids).preorder() == ids.reverse(),
        chain(ids).root_id() == ids.last(),
        chain(ids).depth() == ids.len() - 1,
    decreases ids.len(),
{
    if ids.len() == 1 {
        assert(seq![ids[0]] =~= ids.reverse());
    } else {
        law_chains_join_in_order(ids.drop_last());
        let one = JoinTree::Atom(ids.last());
        assert(one.preorder() == seq![ids.last()]);
        assert(one.root_id() == ids.last());
        assert(one.depth() == 0);
        assert(seq![ids.last()] + ids.drop_last().reverse() =~= ids.reverse());
    }
}

/// Of two join trees that differ in width the narrower one beats the other, and of two
/// trees of the same width the one of less depth; no tree beats itself or one that beats
/// it, and what beats a tree beats what that tree beats.
pub proof fn law_narrow_trees_beat_wide_ones(
    rule: FLRuleModel,
    a: JoinTree,
    b: JoinTree,
    c: JoinTree,
)
    ensures
        !beats(rule, a, a),
        beats(rule, a, b) ==> !beats(rule, b, a),
        beats(rule, a, b) && beats(rule, b, c) ==> beats(rule, a, c),
        !beats(rule, a, b) && !beats(rule, b, a) ==> a.depth() == b.depth(),
        ({
            let needed = needed_vars(rule);
            &&& width(rule, a, needed) < width(rule, b, needed) ==> beats(rule, a, b)
            &&& width(rule, a, needed) == width(rule, b, needed) ==> (beats(rule, a, b)
                <==> a.depth() < b.depth())
        }),
{
}

pub proof fn lemma_vars_of_both(rule: FLRuleModel, a: Seq<usize>, b: Seq<usize>)
    ensures
        vars_of(rule, true, a + b) == vars_of(rule, true, a) + vars_of(rule, true, b),
    decreases b.len(),
{
    if b.len() == 0 {
        assert(a + b =~= a);
        assert(vars_of(rule, true, a) + vars_of(rule, true, b) =~= vars_of(rule, true, a));
    } else {
        lemma_vars_of_both(rule, a, b.drop_last());
        assert((a + b).drop_last() =~= a + b.drop_last());
        assert(vars_of(rule, true, a + b) =~= vars_of(rule, true, a) + vars_of(rule, true, b));
    }
}

/// Whether a variable has to be carried out of a join of two trees: it stands in one of
/// them, and is needed above the join or stands in the other one too.
pub open spec fn is_carried(
    rule: FLRuleModel,
    rest: JoinTree,
    last: JoinTree,
    needed: Seq<Seq<char>>,
    var: Seq<char>,
) -> bool {
    let left = vars_of(rule, true, rest.preorder());
    let right = vars_of(rule, true, last.preorder());
    (left.contains(var) || right.contains(var)) && (needed.contains(var) || (left.contains(var)
        && right.contains(var)))
}

proof fn lemma_carried(
    rule: FLRuleModel,
    rest: JoinTree,
    last: JoinTree,
    needed: Seq<Seq<char>>,
    var: Seq<char>,
)
    ensures
        ({
            let last_vars = distinct(vars_of(rule, true, last.preorder()));
            let rest_vars = distinct(vars_of(rule, true, rest.preorder()));
            let from_last = common(last_vars, rest_vars + needed);
            let from_rest = common(rest_vars, last_vars + needed);
            distinct(from_last + from_rest).contains(var) <==> is_carried(
                rule,
                rest,
                last,
                needed,
                var,
            )
        }),
{
    let last_vars = distinct(vars_of(rule, true, last.preorder()));
    let rest_vars = distinct(vars_of(rule, true, rest.preorder()));
    let from_last = common(last_vars, rest_vars + needed);
    let from_rest = common(rest_vars, last_vars + needed);
    lemma_distinct(vars_of(rule, true, last.preorder()));
    lemma_distinct(vars_of(rule, true, rest.preorder()));
    lemma_distinct(from_last + from_rest);
    law_common_items_stand_in_both(last_vars, rest_vars + needed, var);
    law_common_items_stand_in_both(rest_vars, last_vars + needed, var);
    lemma_either(from_last, from_rest, var);
    lemma_either(rest_vars, needed, var);
    lemma_either(last_vars, needed, var);
}

proof fn lemma_either(a: Seq<Seq<char>>, b: Seq<Seq<char>>, var: Seq<char>)
    ensures
        (a + b).contains(var) <==> a.contains(var) || b.contains(var),
{
    if (a + b).contains(var) {
        let i = choose|i: int| 0 <= i < (a + b).len() && (a + b)[i] == var;
        if i < a.len() {
            assert(a[i] == var);
        } else {
            assert(b[i - a.len()] == var);
        }
    }
    if a.contains(var) {
        let i = choose|i: int| 0 <= i < a.len() && a[i] == var;
        assert((a + b)[i] == var);
    }
    if b.contains(var) {
        let i = choose|i: int| 0 <= i < b.len() && b[i] == var;
        assert((a + b)[a.len() + i] == var);
    }
}

/// The width of a join tree is the greatest number of variables that have to be carried
/// out of one of its joins: no join carries more, and where it is not the width of a tree
/// below, the join at the top carries as many. A single atom has no width.
pub proof fn law_width_counts_carried_variables(
    rule: FLRuleModel,
    rest: JoinTree,
    last: JoinTree,
    needed: Seq<Seq<char>>,
    vars: Seq<Seq<char>>,
    id: usize,
)
    requires
        vars.no_duplicates(),
    ensures
        width(rule, JoinTree::Atom(id), needed) == 0,
        (forall|var: Seq<char>| #[trigger]
            vars.contains(var) ==> is_carried(rule, rest, last, needed, var)) ==> vars.len()
            <= width(rule, JoinTree::Join(Box::new(rest), Box::new(last)), needed),
        (forall|var: Seq<char>|
            is_carried(rule, rest, last, needed, var) ==> #[trigger] vars.contains(var))
            ==> width(rule, JoinTree::Join(Box::new(rest), Box::new(last)), needed) <= vars.len()
            || exists|part: JoinTree, above: Seq<Seq<char>>|
            (part == rest || part == last) && width(
                rule,
                JoinTree::Join(Box::new(rest), Box::new(last)),
                needed,
            ) == #[trigger] width(rule, part, above),
{
    let last_vars = distinct(vars_of(rule, true, last.preorder()));
    let rest_vars = distinct(vars_of(rule, true, rest.preorder()));
    let from_last = common(last_vars, rest_vars + needed);
    let from_rest = common(rest_vars, last_vars + needed);
    let here = distinct(from_last + from_rest);
    lemma_distinct(from_last + from_rest);
    let tree = JoinTree::Join(Box::new(rest), Box::new(last));
    assert forall|var: Seq<char>| #[trigger] here.contains(var) <==> is_carried(
        rule,
        rest,
        last,
        needed,
        var,
    ) by {
        lemma_carried(rule, rest, last, needed, var);
    }
    if forall|var: Seq<char>| #[trigger]
        vars.contains(var) ==> is_carried(rule, rest, last, needed, var) {
        assert forall|var: Seq<char>| #[trigger] vars.contains(var) implies here.contains(var) by {
            assert(is_carried(rule, rest, last, needed, var));
        }
        lemma_no_longer(vars, here);
    }
    if forall|var: Seq<char>|
        is_carried(rule, rest, last, needed, var) ==> #[trigger] vars.contains(var) {
        assert forall|var: Seq<char>| #[trigger] here.contains(var) implies vars.contains(var) by {
            assert(is_carried(rule, rest, last, needed, var));
        }
        lemma_no_longer(here, vars);
        if width(rule, tree, needed) > vars.len() {
            let below_last = width(rule, last, from_last);
            let below_rest = width(rule, rest, from_rest);
            assert(width(rule, tree, needed) == below_last || width(rule, tree, needed)
                == below_rest);
        }
    }
}

/// No join tree is wider than the number of variables of its atoms.
pub proof fn law_no_wider_than_all_variables(
    rule: FLRuleModel,
    tree: JoinTree,
    needed: Seq<Seq<char>>,
)
    ensures
        width(rule, tree, needed) <= distinct(vars_of(rule, true, tree.preorder())).len(),
    decreases tree,
{
    if let JoinTree::Join(rest, last) = tree {
        let all = distinct(vars_of(rule, true, tree.preorder()));
        let last_vars = distinct(vars_of(rule, true, last.preorder()));
        let rest_vars = distinct(vars_of(rule, true, rest.preorder()));
        let from_last = common(last_vars, rest_vars + needed);
        let from_rest = common(rest_vars, last_vars + needed);
        let here = distinct(from_last + from_rest);
        law_no_wider_than_all_variables(rule, *rest, from_rest);
        law_no_wider_than_all_variables(rule, *last, from_last);
        lemma_vars_of_both(rule, rest.preorder(), last.preorder());
        lemma_distinct(from_last + from_rest);
        lemma_distinct(vars_of(rule, true, tree.preorder()));
        lemma_distinct(vars_of(rule, true, last.preorder()));
        lemma_distinct(vars_of(rule, true, rest.preorder()));
        assert forall|v: Seq<char>| #[trigger] here.contains(v) implies all.contains(v) by {
            lemma_carried(rule, *rest, *last, needed, v);
            lemma_either(
                vars_of(rule, true, rest.preorder()),
                vars_of(rule, true, last.preorder()),
                v,
            );
        }
        assert forall|v: Seq<char>| #[trigger] last_vars.contains(v) implies all.contains(v) by {
            lemma_either(
                vars_of(rule, true, rest.preorder()),
                vars_of(rule, true, last.preorder()),
                v,
            );
        }
        assert forall|v: Seq<char>| #[trigger] rest_vars.contains(v) implies all.contains(v) by {
            lemma_either(
                vars_of(rule, true, rest.preorder()),
                vars_of(rule, true, last.preorder()),
                v,
            );
        }
        lemma_no_longer(here, all);
        lemma_no_longer(last_vars, all);
        lemma_no_longer(rest_vars, all);
    }
}

/// An atom is linked where it shares most variables; of links that share as many, the one
/// that stands higher is preferred, and then the one with the greater numbers. Of two
/// different links one is always preferred.
pub proof fn law_preferred_links(placed: Seq<Link>, a: Link, b: Link)
    ensures
        a.overlap > b.overlap ==> preferred(placed, a, b),
        a.overlap == b.overlap && a.depth < b.depth ==> preferred(placed, a, b),
        preferred(placed, a, b) ==> !preferred(placed, b, a),
        !preferred(placed, a, b) && !preferred(placed, b, a) ==> a.id == b.id && a.overlap
            == b.overlap && a.depth == b.depth && placed[a.parent as int].id
            == placed[b.parent as int].id,
        a.overlap == b.overlap && a.depth == b.depth && placed[a.parent as int].id
            > placed[b.parent as int].id ==> preferred(placed, a, b),
        a.overlap == b.overlap && a.depth == b.depth && placed[a.parent as int].id
            == placed[b.parent as int].id && a.id > b.id ==> preferred(placed, a, b),
{
}

/// An atom that shares variables with one that is placed hangs below it, and one that
/// shares none below the root.
pub proof fn law_links_hang_below_what_they_share(
    rule: FLRuleModel,
    placed: Seq<Link>,
    i: int,
    v: usize,
)
    requires
        0 <= i < placed.len() <= usize::MAX,
        placed[i].depth < usize::MAX,
        overlap(rule, placed[i].id, v) <= usize::MAX,
    ensures
        ({
            let link = link_from(rule, placed, i, v);
            let shared = overlap(rule, placed[i].id, v);
            &&& link.id == v
            &&& link.overlap == shared
            &&& shared > 0 ==> link.parent == i && link.depth == placed[i].depth + 1
            &&& shared == 0 ==> link.parent == 0 && link.depth == 1
        }),
{
}

/// The overlaps of links add up.
pub proof fn law_overlaps_add_up(rule: FLRuleModel, placed: Seq<Link>, link: Link)
    requires
        placed.len() > 0,
    ensures
        links_overlap(rule, placed.push(link)) == links_overlap(rule, placed) + link.overlap,
        placed.len() == 1 ==> links_overlap(rule, placed) == 0,
{
    assert(placed.push(link).drop_last() =~= placed);
}

/// A chain shares what each atom shares with the one before it.
pub proof fn law_chain_overlaps_add_up(rule: FLRuleModel, ids: Seq<usize>, id: usize)
    requires
        ids.len() > 0,
    ensures
        chain_overlap(rule, ids.push(id)) == chain_overlap(rule, ids) + overlap(
            rule,
            id,
            ids[ids.len() - 1],
        ),
        ids.len() == 1 ==> chain_overlap(rule, ids) == 0,
{
    assert(ids.push(id).drop_last() =~= ids);
}

/// A tree is drawn line by line: its root on a line of its own, and below it the trees
/// that are joined to it, from the first to the last, of which only the last closes the
/// branch.
pub proof fn law_trees_are_drawn(
    id: usize,
    rest: JoinTree,
    last: JoinTree,
    prefix: Seq<char>,
    is_last: bool,
)
    ensures
        tree_text(JoinTree::Atom(id), prefix, is_last) == prefix + (if is_last {
            "└── "@
        } else {
            "├── "@
        }) + nat_text(id as nat) + "\n"@,
        below_text(JoinTree::Join(Box::new(rest), Box::new(last)), prefix, is_last)
            == below_text(rest, prefix, false) + tree_text(last, prefix, is_last),
        tree_text(JoinTree::Join(Box::new(rest), Box::new(last)), prefix, is_last) == prefix + (
        if is_last {
            "└── "@
        } else {
            "├── "@
        }) + nat_text(rest.root_id() as nat) + "\n"@ + below_text(
            rest,
            prefix + (if is_last {
                "    "@
            } else {
                "│   "@
            }),
            false,
        ) + tree_text(
            last,
            prefix + (if is_last {
                "    "@
            } else {
                "│   "@
            }),
            true,
        ),
{
    let one = JoinTree::Atom(id);
    let below = prefix + (if is_last {
        "    "@
    } else {
        "│   "@
    });
    assert(below_text(one, below, true) =~= Seq::empty());
    assert(one.root_id() == id);
    assert(tree_text(one, prefix, is_last) =~= prefix + (if is_last {
        "└── "@
    } else {
        "├── "@
    }) + nat_text(id as nat) + "\n"@);
    let join = JoinTree::Join(Box::new(rest), Box::new(last));
    assert(join.root_id() == rest.root_id());
    assert(below_text(join, below, true) == below_text(rest, below, false) + tree_text(
        last,
        below,
        true,
    ));
    assert(tree_text(join, prefix, is_last) =~= prefix + (if is_last {
        "└── "@
    } else {
        "├── "@
    }) + nat_text(rest.root_id() as nat) + "\n"@ + below_text(rest, below, false) + tree_text(
        last,
        below,
        true,
    ));
}

proof fn lemma_root_there(tree: JoinTree)
    ensures
        tree.preorder().len() > 0,
        tree.preorder()[0] == tree.root_id(),
    decreases tree,
{
    if let JoinTree::Join(rest, last) = tree {
        lemma_root_there(*rest);
    }
}

proof fn lemma_in_both(a: Seq<usize>, b: Seq<usize>, id: usize)
    ensures
        (a + b).contains(id) <==> a.contains(id) || b.contains(id),
{
    if (a + b).contains(id) {
        let i = choose|i: int| 0 <= i < (a + b).len() && (a + b)[i] == id;
        if i < a.len() {
            assert(a[i] == id);
        } else {
            assert(b[i - a.len()] == id);
        }
    }
    if a.contains(id) {
        let i = choose|i: int| 0 <= i < a.len() && a[i] == id;
        assert((a + b)[i] == id);
    }
    if b.contains(id) {
        let i = choose|i: int| 0 <= i < b.len() && b[i] == id;
        assert((a + b)[a.len() + i] == id);
    }
}

/// The maps of a tree know each of its atoms and no others: what hangs directly below it,
/// and which atoms its own tree holds. For the root these are the roots of the trees that
/// were joined to it, in order, and all atoms.
pub proof fn law_maps_know_the_atoms_of_trees(tree: JoinTree, id: usize)
    ensures
        tree.tree_map().contains_key(id) <==> tree.preorder().contains(id),
        tree.sub_map().contains_key(id) <==> tree.preorder().contains(id),
        tree.tree_map()[tree.root_id()] == tree.child_ids(),
        tree.sub_map()[tree.root_id()] == tree.preorder(),
        tree.preorder()[0] == tree.root_id(),
    decreases tree,
{
    lemma_root_there(tree);
    match tree {
        JoinTree::Atom(x) => {
            assert(seq![x][0] == x);
            assert(seq![x].contains(x));
        },
        JoinTree::Join(rest, last) => {
            law_maps_know_the_atoms_of_trees(*rest, id);
            law_maps_know_the_atoms_of_trees(*last, id);
            lemma_in_both(rest.preorder(), last.preorder(), id);
            lemma_root_there(*rest);
            assert(rest.preorder().contains(rest.root_id()));
        },
    }
}

/// Joining a tree to another one hangs its root below the root of the other one, behind
/// what hangs there, and leaves everything else as it is in both.
pub proof fn law_joined_trees_stay_as_they_are(rest: JoinTree, last: JoinTree, id: usize)
    ensures
        ({
            let tree = JoinTree::Join(Box::new(rest), Box::new(last));
            &&& tree.root_id() == rest.root_id()
            &&& tree.child_ids() == rest.child_ids().push(last.root_id())
            &&& tree.preorder() == rest.preorder() + last.preorder()
            &&& id != rest.root_id() && last.preorder().contains(id) ==> tree.tree_map()[id]
                == last.tree_map()[id] && tree.sub_map()[id] == last.sub_map()[id]
            &&& id != rest.root_id() && !last.preorder().contains(id) && rest.preorder().contains(
                id,
            ) ==> tree.tree_map()[id] == rest.tree_map()[id] && tree.sub_map()[id]
                == rest.sub_map()[id]
            &&& tree.depth() >= rest.depth()
            &&& tree.depth() >= last.depth() + 1
            &&& tree.depth() == rest.depth() || tree.depth() == last.depth() + 1
        }),
        JoinTree::Atom(id).child_ids() == Seq::<usize>::empty(),
        JoinTree::Atom(id).preorder() == seq![id],
        JoinTree::Atom(id).depth() == 0,
{
    law_maps_know_the_atoms_of_trees(rest, id);
    law_maps_know_the_atoms_of_trees(last, id);
}

/// What a tree has to carry to its top are the variables of the head, each once.
pub proof fn law_heads_need_their_variables(rule: FLRuleModel, var: Seq<char>)
    ensures
        needed_vars(rule).no_duplicates(),
        needed_vars(rule).contains(var) <==> head_vars(rule.head.head_arguments).contains(var),
{
    lemma_distinct(head_vars(rule.head.head_arguments));
}

} // verus!
