//! The order in which the steps of plans are carried out, each shared step once.
use vstd::prelude::*;
use crate::lists::{contains_same, empty, extend, lemma_entries_finite, push};
use crate::parsing::rule::FLRuleModel;
use crate::planning::collections::{CollectionSignature, CollectionSignatureModel};
use crate::planning::linking::{is_fed, is_leaf, is_link, is_linked, is_linked_to};
use crate::planning::steps::{StepsModel, TransformationTree};
use crate::planning::transformations::{
    is_join_step, is_row_step, Transformation, TransformationModel,
};

verus! {

/// What a step puts out.
pub open spec fn put_out(step: TransformationModel) -> CollectionSignatureModel {
    step.output.signature
}

/// The number of collections that steps of a tree put out and that are not seen.
pub open spec fn unseen(
    tree: Map<TransformationModel, (TransformationModel, TransformationModel)>,
    seen: Set<CollectionSignatureModel>,
) -> nat {
    tree.dom().map(|step: TransformationModel| put_out(step)).difference(seen).len()
}

pub proof fn lemma_unseen(
    tree: Map<TransformationModel, (TransformationModel, TransformationModel)>,
    step: TransformationModel,
    seen: Set<CollectionSignatureModel>,
    more: Set<CollectionSignatureModel>,
)
    requires
        tree.dom().finite(),
        tree.contains_key(step),
        !seen.contains(put_out(step)),
        seen.insert(put_out(step)).subset_of(more),
    ensures
        unseen(tree, more) < unseen(tree, seen),
{
    let f = |step: TransformationModel| put_out(step);
    let all = tree.dom().map(f);
    tree.dom().lemma_map_finite(f);
    assert(all.contains(put_out(step))) by {
        assert(tree.dom().contains(step));
        assert(f(step) == put_out(step));
    }
    let before = all.difference(seen);
    let after = all.difference(more);
    assert(before.contains(put_out(step)));
    assert(after.subset_of(before.remove(put_out(step))));
    vstd::set_lib::lemma_len_subset(after, before.remove(put_out(step)));
}

/// The steps from a root downwards that put out what has not been seen, each
/// behind the steps that it needs, and what has been seen after them.
pub open spec fn plan_of(
    tree: Map<TransformationModel, (TransformationModel, TransformationModel)>,
    root: TransformationModel,
    seen: Set<CollectionSignatureModel>,
) -> (Seq<TransformationModel>, Set<CollectionSignatureModel>)
    decreases unseen(tree, seen),
    when tree.dom().finite()
    via plan_of_ends
{
    if seen.contains(put_out(root)) {
        (Seq::empty(), seen)
    } else {
        let marked = seen.insert(put_out(root));
        if !tree.contains_key(root) {
            (seq![root], marked)
        } else {
            let left = plan_of(tree, tree[root].0, marked);
            let right = plan_of(tree, tree[root].1, marked.union(left.1));
            (left.0 + right.0 + seq![root], marked.union(left.1).union(right.1))
        }
    }
}

#[via_fn]
proof fn plan_of_ends(
    tree: Map<TransformationModel, (TransformationModel, TransformationModel)>,
    root: TransformationModel,
    seen: Set<CollectionSignatureModel>,
) {
    if !seen.contains(put_out(root)) && tree.contains_key(root) {
        let marked = seen.insert(put_out(root));
        assert forall|more: Set<CollectionSignatureModel>| marked.subset_of(
            more,
        ) implies #[trigger] unseen(tree, more) < unseen(tree, seen) by {
            lemma_unseen(tree, root, seen, more);
        }
    }
}

pub proof fn lemma_plan_grows(
    tree: Map<TransformationModel, (TransformationModel, TransformationModel)>,
    root: TransformationModel,
    seen: Set<CollectionSignatureModel>,
)
    requires
        tree.dom().finite(),
    ensures
        seen.subset_of(plan_of(tree, root, seen).1),
{
}

/// What steps put out.
pub open spec fn outputs(plan: Seq<TransformationModel>) -> Set<CollectionSignatureModel> {
    Set::new(|s: CollectionSignatureModel| exists|i: int|
        0 <= i < plan.len() && put_out(#[trigger] plan[i]) == s)
}

/// The same inside a recursive group: what was seen outside is not computed again
/// but brought in, and so are the relations that are read. Gives the steps, what
/// is brought in, and what has been seen inside.
pub open spec fn nested_plan_of(
    tree: Map<TransformationModel, (TransformationModel, TransformationModel)>,
    root: TransformationModel,
    seen: Set<CollectionSignatureModel>,
    nested: Set<CollectionSignatureModel>,
) -> (
    Seq<TransformationModel>,
    Set<CollectionSignatureModel>,
    Set<CollectionSignatureModel>,
)
    decreases unseen(tree, nested),
    when tree.dom().finite()
    via nested_plan_of_ends
{
    if seen.contains(put_out(root)) {
        (Seq::empty(), set![put_out(root)], nested)
    } else if nested.contains(put_out(root)) {
        (Seq::empty(), Set::empty(), nested)
    } else {
        let marked = nested.insert(put_out(root));
        if !tree.contains_key(root) {
            (seq![root], set![root.input.signature], marked)
        } else {
            let left = nested_plan_of(tree, tree[root].0, seen, marked);
            let right = nested_plan_of(tree, tree[root].1, seen, marked.union(left.2));
            (
                left.0 + right.0 + seq![root],
                left.1.union(right.1),
                marked.union(left.2).union(right.2),
            )
        }
    }
}

#[via_fn]
proof fn nested_plan_of_ends(
    tree: Map<TransformationModel, (TransformationModel, TransformationModel)>,
    root: TransformationModel,
    seen: Set<CollectionSignatureModel>,
    nested: Set<CollectionSignatureModel>,
) {
    if !seen.contains(put_out(root)) && !nested.contains(put_out(root)) && tree.contains_key(
        root,
    ) {
        let marked = nested.insert(put_out(root));
        assert forall|more: Set<CollectionSignatureModel>| marked.subset_of(
            more,
        ) implies #[trigger] unseen(tree, more) < unseen(tree, nested) by {
            lemma_unseen(tree, root, nested, more);
        }
    }
}

pub proof fn lemma_nested_grows(
    tree: Map<TransformationModel, (TransformationModel, TransformationModel)>,
    root: TransformationModel,
    seen: Set<CollectionSignatureModel>,
    nested: Set<CollectionSignatureModel>,
)
    requires
        tree.dom().finite(),
    ensures
        nested.subset_of(nested_plan_of(tree, root, seen, nested).2),
{
}

/// Inside a recursive group the steps are those that are left where both what was
/// seen outside and what was seen inside is not computed again.
pub proof fn lemma_nested_is_plain(
    tree: Map<TransformationModel, (TransformationModel, TransformationModel)>,
    root: TransformationModel,
    seen: Set<CollectionSignatureModel>,
    nested: Set<CollectionSignatureModel>,
)
    requires
        tree.dom().finite(),
    ensures
        nested_plan_of(tree, root, seen, nested).0 == plan_of(tree, root, seen.union(nested)).0,
        seen.union(nested_plan_of(tree, root, seen, nested).2) == plan_of(
            tree,
            root,
            seen.union(nested),
        ).1,
    decreases unseen(tree, nested),
{
    let all = seen.union(nested);
    if !seen.contains(put_out(root)) && !nested.contains(put_out(root)) {
        let marked = nested.insert(put_out(root));
        assert(seen.union(marked) =~= all.insert(put_out(root)));
        if tree.contains_key(root) {
            let left = nested_plan_of(tree, tree[root].0, seen, marked);
            let both = marked.union(left.2);
            lemma_unseen(tree, root, nested, marked);
            lemma_unseen(tree, root, nested, both);
            lemma_nested_is_plain(tree, tree[root].0, seen, marked);
            assert(seen.union(both) =~= seen.union(marked).union(
                plan_of(tree, tree[root].0, seen.union(marked)).1,
            ));
            lemma_nested_is_plain(tree, tree[root].1, seen, both);
            let right = nested_plan_of(tree, tree[root].1, seen, both);
            assert(seen.union(both.union(right.2)) =~= seen.union(both).union(
                plan_of(tree, tree[root].1, seen.union(both)).1,
            ));
        }
    }
}

/// The items of a list as a set.
pub open spec fn set_of(list: Vec<CollectionSignature>) -> Set<CollectionSignatureModel> {
    list.deep_view().to_set()
}

/// Enters a signature into a list, if it is not there.
pub fn enter(list: &mut Vec<CollectionSignature>, signature: CollectionSignature)
    ensures
        set_of(*final(list)) == set_of(*old(list)).insert(signature.deep_view()),
        old(list).deep_view().no_duplicates() ==> final(list).deep_view().no_duplicates(),
{
    let ghost before = list.deep_view();
    let ghost item = signature.deep_view();
    if !contains_same(list, &signature) {
        push(list, signature);
        assert(list.deep_view().to_set() =~= before.to_set().insert(item)) by {
            assert forall|s: CollectionSignatureModel| before.to_set().insert(item).contains(
                s,
            ) implies list.deep_view().to_set().contains(s) by {
                if s == item {
                    assert(list.deep_view()[before.len() as int] == item);
                } else {
                    let k = choose|k: int| 0 <= k < before.len() && before[k] == s;
                    assert(list.deep_view()[k] == s);
                }
            }
        }
    } else {
        assert(before.to_set() =~= before.to_set().insert(item));
    }
}

/// The steps from a root downwards, without those whose output has been seen.
pub fn construct_non_recursive(
    seen: &mut Vec<CollectionSignature>,
    root: &Transformation,
    transformation_tree: &TransformationTree,
) -> (plan: Vec<Transformation>)
    ensures
        (plan.deep_view(), set_of(*final(seen))) == plan_of(
            transformation_tree.deep_view(),
            root.deep_view(),
            set_of(*old(seen)),
        ),
        old(seen).deep_view().no_duplicates() ==> final(seen).deep_view().no_duplicates(),
    decreases unseen(transformation_tree.deep_view(), set_of(*old(seen))),
{
    let ghost tree = transformation_tree.deep_view();
    let ghost before = set_of(*seen);
    proof {
        lemma_entries_finite(transformation_tree.entries.deep_view());
    }
    let output_signature = root.output().signature();
    if contains_same(seen, output_signature) {
        assert(before.contains(put_out(root.deep_view())));
        return empty();
    }
    assert(!before.contains(put_out(root.deep_view())));
    enter(seen, output_signature.clone());
    let ghost marked = set_of(*seen);
    let mut plan: Vec<Transformation> = empty();
    match transformation_tree.get(root) {
        None => {
            push(&mut plan, root.clone());
            assert(plan.deep_view() =~= seq![root.deep_view()]);
        },
        Some(below) => {
            assert(tree[root.deep_view()] == below.deep_view());
            proof {
                lemma_unseen(tree, root.deep_view(), before, marked);
            }
            extend(&mut plan, construct_non_recursive(seen, &below.0, transformation_tree));
            let ghost left = plan_of(tree, tree[root.deep_view()].0, marked);
            proof {
                lemma_plan_grows(tree, tree[root.deep_view()].0, marked);
                assert(marked.union(left.1) =~= left.1);
                lemma_unseen(tree, root.deep_view(), before, left.1);
                lemma_plan_grows(tree, tree[root.deep_view()].1, left.1);
                let right = plan_of(tree, tree[root.deep_view()].1, left.1);
                assert(left.1.union(right.1) =~= right.1);
                assert(Seq::<TransformationModel>::empty() + left.0 =~= left.0);
            }
            extend(&mut plan, construct_non_recursive(seen, &below.1, transformation_tree));
            push(&mut plan, root.clone());
            proof {
                let right = plan_of(tree, tree[root.deep_view()].1, left.1);
                assert(plan.deep_view() =~= left.0 + right.0 + seq![root.deep_view()]);
            }
        },
    }
    plan
}

/// Whether every step that is reached reads a relation or has steps below it.
pub open spec fn is_closed(
    tree: Map<TransformationModel, (TransformationModel, TransformationModel)>,
    root: TransformationModel,
) -> bool {
    &&& tree.contains_key(root) || root.is_unary()
    &&& forall|step: TransformationModel| #[trigger]
        tree.contains_key(step) ==> {
            &&& tree.contains_key(tree[step].0) || tree[step].0.is_unary()
            &&& tree.contains_key(tree[step].1) || tree[step].1.is_unary()
        }
}

/// The same inside a recursive group; gives what is to be brought in, too.
pub fn construct_recursive(
    seen: &Vec<CollectionSignature>,
    nested_seen: &mut Vec<CollectionSignature>,
    root: &Transformation,
    transformation_tree: &TransformationTree,
) -> (plan: (Vec<Transformation>, Vec<CollectionSignature>))
    requires
        is_closed(transformation_tree.deep_view(), root.deep_view()),
    ensures
        (plan.0.deep_view(), set_of(plan.1), set_of(*final(nested_seen))) == nested_plan_of(
            transformation_tree.deep_view(),
            root.deep_view(),
            set_of(*seen),
            set_of(*old(nested_seen)),
        ),
        plan.1.deep_view().no_duplicates(),
    decreases unseen(transformation_tree.deep_view(), set_of(*old(nested_seen))),
{
    let ghost tree = transformation_tree.deep_view();
    let ghost before = set_of(*nested_seen);
    let ghost outside = set_of(*seen);
    proof {
        lemma_entries_finite(transformation_tree.entries.deep_view());
    }
    let output_signature = root.output().signature();
    let mut scope: Vec<CollectionSignature> = empty();
    assert(set_of(scope) =~= Set::empty());
    if contains_same(seen, output_signature) {
        assert(outside.contains(put_out(root.deep_view())));
        enter(&mut scope, output_signature.clone());
        assert(set_of(scope) =~= set![put_out(root.deep_view())]);
        return (empty(), scope);
    }
    assert(!outside.contains(put_out(root.deep_view())));
    if contains_same(nested_seen, output_signature) {
        assert(before.contains(put_out(root.deep_view())));
        return (empty(), scope);
    }
    assert(!before.contains(put_out(root.deep_view())));
    enter(nested_seen, output_signature.clone());
    let ghost marked = set_of(*nested_seen);
    let mut plan: Vec<Transformation> = empty();
    match transformation_tree.get(root) {
        None => {
            push(&mut plan, root.clone());
            assert(plan.deep_view() =~= seq![root.deep_view()]);
            enter(&mut scope, root.unary().signature().clone());
            assert(set_of(scope) =~= set![root.deep_view().input.signature]);
            (plan, scope)
        },
        Some(below) => {
            assert(tree[root.deep_view()] == below.deep_view());
            proof {
                lemma_unseen(tree, root.deep_view(), before, marked);
            }
            let (left_plan, left_scope) = construct_recursive(
                seen,
                nested_seen,
                &below.0,
                transformation_tree,
            );
            let ghost left = nested_plan_of(tree, tree[root.deep_view()].0, outside, marked);
            proof {
                lemma_nested_grows(tree, tree[root.deep_view()].0, outside, marked);
                assert(marked.union(left.2) =~= left.2);
                lemma_unseen(tree, root.deep_view(), before, left.2);
                lemma_nested_grows(tree, tree[root.deep_view()].1, outside, left.2);
                let right = nested_plan_of(tree, tree[root.deep_view()].1, outside, left.2);
                assert(left.2.union(right.2) =~= right.2);
            }
            let (right_plan, right_scope) = construct_recursive(
                seen,
                nested_seen,
                &below.1,
                transformation_tree,
            );
            let ghost right = nested_plan_of(tree, tree[root.deep_view()].1, outside, left.2);
            extend(&mut plan, left_plan);
            extend(&mut plan, right_plan);
            push(&mut plan, root.clone());
            assert(plan.deep_view() =~= left.0 + right.0 + seq![root.deep_view()]);
            scope = left_scope;
            enter_all(&mut scope, right_scope);
            (plan, scope)
        },
    }
}

/// Enters all signatures of one list into another.
pub fn enter_all(list: &mut Vec<CollectionSignature>, more: Vec<CollectionSignature>)
    ensures
        set_of(*final(list)) == set_of(*old(list)).union(set_of(more)),
        old(list).deep_view().no_duplicates() ==> final(list).deep_view().no_duplicates(),
{
    let ghost before = set_of(*list);
    let ghost all = more.deep_view();
    assert(before.union(all.take(0).to_set()) =~= before);
    let mut i: usize = 0;
    while i < more.len()
        invariant
            i <= more.len(),
            all == more.deep_view(),
            set_of(*list) == before.union(all.take(i as int).to_set()),
            old(list).deep_view().no_duplicates() ==> list.deep_view().no_duplicates(),
        decreases more.len() - i,
    {
        enter(list, more[i].clone());
        proof {
            let front = all.take(i as int);
            let next = all.take(i + 1);
            assert(next =~= front.push(all[i as int]));
            assert forall|s: CollectionSignatureModel| front.to_set().insert(
                all[i as int],
            ).contains(s) implies next.to_set().contains(s) by {
                if s == all[i as int] {
                    assert(next[i as int] == s);
                } else {
                    let k = choose|k: int| 0 <= k < front.len() && front[k] == s;
                    assert(next[k] == s);
                }
            }
            assert(set_of(*list) =~= before.union(next.to_set()));
        }
        i += 1;
    }
    assert(all.take(all.len() as int) =~= all);
}

/// Whether the inputs of a step are at hand.
pub open spec fn is_ready(step: TransformationModel, done: Set<CollectionSignatureModel>) -> bool {
    step.is_binary() ==> done.contains(step.input.signature) && done.contains(
        step.second->0.signature,
    )
}

/// Whether steps can be carried out one after the other.
pub open spec fn is_ordered(
    plan: Seq<TransformationModel>,
    done: Set<CollectionSignatureModel>,
) -> bool {
    forall|i: int|
        0 <= i < plan.len() ==> is_ready(#[trigger] plan[i], done.union(outputs(plan.take(i))))
}

/// Whether no two steps put out the same, and none puts out what has been seen.
pub open spec fn is_fresh(
    plan: Seq<TransformationModel>,
    seen: Set<CollectionSignatureModel>,
) -> bool {
    &&& forall|i: int| 0 <= i < plan.len() ==> !seen.contains(put_out(#[trigger] plan[i]))
    &&& forall|i: int, j: int|
        0 <= i < j < plan.len() ==> put_out(#[trigger] plan[i]) != put_out(#[trigger] plan[j])
}

pub proof fn lemma_outputs_add(a: Seq<TransformationModel>, b: Seq<TransformationModel>)
    ensures
        outputs(a + b) == outputs(a).union(outputs(b)),
{
    let all = a + b;
    assert forall|s: CollectionSignatureModel| outputs(a).union(outputs(b)).contains(
        s,
    ) implies outputs(all).contains(s) by {
        if outputs(a).contains(s) {
            let i = choose|i: int| 0 <= i < a.len() && put_out(#[trigger] a[i]) == s;
            assert(put_out(all[i]) == s);
        } else {
            let i = choose|i: int| 0 <= i < b.len() && put_out(#[trigger] b[i]) == s;
            assert(put_out(all[a.len() + i]) == s);
        }
    }
    assert forall|s: CollectionSignatureModel| outputs(all).contains(s) implies outputs(a).union(
        outputs(b),
    ).contains(s) by {
        let i = choose|i: int| 0 <= i < all.len() && put_out(#[trigger] all[i]) == s;
        if i < a.len() {
            assert(put_out(a[i]) == s);
        } else {
            assert(put_out(b[i - a.len()]) == s);
        }
    }
    assert(outputs(all) =~= outputs(a).union(outputs(b)));
}

proof fn lemma_outputs_one(step: TransformationModel)
    ensures
        outputs(seq![step]) == set![put_out(step)],
{
    let one = seq![step];
    assert(put_out(one[0]) == put_out(step));
    assert(outputs(one) =~= set![put_out(step)]);
}

pub proof fn lemma_ordered_add(
    a: Seq<TransformationModel>,
    b: Seq<TransformationModel>,
    done: Set<CollectionSignatureModel>,
)
    requires
        is_ordered(a, done),
        is_ordered(b, done.union(outputs(a))),
    ensures
        is_ordered(a + b, done),
{
    let all = a + b;
    assert forall|i: int| 0 <= i < all.len() implies is_ready(
        #[trigger] all[i],
        done.union(outputs(all.take(i))),
    ) by {
        if i < a.len() {
            assert(all.take(i) =~= a.take(i));
            assert(all[i] == a[i]);
        } else {
            let j = i - a.len();
            assert(all.take(i) =~= a + b.take(j));
            lemma_outputs_add(a, b.take(j));
            assert(all[i] == b[j]);
            assert(done.union(outputs(a)).union(outputs(b.take(j))) =~= done.union(
                outputs(all.take(i)),
            ));
        }
    }
}

proof fn lemma_fresh_add(
    a: Seq<TransformationModel>,
    b: Seq<TransformationModel>,
    seen: Set<CollectionSignatureModel>,
)
    requires
        is_fresh(a, seen),
        is_fresh(b, seen.union(outputs(a))),
    ensures
        is_fresh(a + b, seen),
{
    let all = a + b;
    assert forall|i: int| 0 <= i < all.len() implies !seen.contains(put_out(#[trigger] all[i])) by {
        if i < a.len() {
            assert(all[i] == a[i]);
        } else {
            assert(all[i] == b[i - a.len()]);
        }
    }
    assert forall|i: int, j: int| 0 <= i < j < all.len() implies put_out(#[trigger] all[i])
        != put_out(#[trigger] all[j]) by {
        if j < a.len() {
            assert(all[i] == a[i] && all[j] == a[j]);
        } else if i < a.len() {
            assert(all[i] == a[i] && all[j] == b[j - a.len()]);
            assert(outputs(a).contains(put_out(a[i])));
        } else {
            assert(all[i] == b[i - a.len()] && all[j] == b[j - a.len()]);
        }
    }
}

/// Whether everything seen is done, but for collections with longer names.
spec fn is_done_below(
    seen: Set<CollectionSignatureModel>,
    done: Set<CollectionSignatureModel>,
    length: nat,
) -> bool {
    &&& done.subset_of(seen)
    &&& forall|s: CollectionSignatureModel| #[trigger]
        seen.contains(s) ==> done.contains(s) || s.name().len() > length
}

proof fn lemma_plan_order(
    rule: FLRuleModel,
    tree: Map<TransformationModel, (TransformationModel, TransformationModel)>,
    root: TransformationModel,
    seen: Set<CollectionSignatureModel>,
    done: Set<CollectionSignatureModel>,
)
    requires
        is_linked_to(rule, tree, Set::empty()),
        is_fed(rule, tree, Set::empty(), root),
        is_done_below(seen, done, put_out(root).name().len()),
    ensures
        plan_of(tree, root, seen).1 == seen.union(outputs(plan_of(tree, root, seen).0)),
        is_ordered(plan_of(tree, root, seen).0, done),
        is_fresh(plan_of(tree, root, seen).0, seen),
        done.union(outputs(plan_of(tree, root, seen).0)).contains(put_out(root)),
    decreases unseen(tree, seen),
{
    let (plan, after) = plan_of(tree, root, seen);
    if seen.contains(put_out(root)) {
        assert(plan =~= Seq::empty());
        assert(outputs(plan) =~= Set::empty());
    } else {
        let marked = seen.insert(put_out(root));
        lemma_outputs_one(root);
        if !tree.contains_key(root) {
            assert(is_leaf(rule, root));
        } else {
            let (l, r) = tree[root];
            assert(is_link(rule, tree, Set::empty(), root));
            lemma_unseen(tree, root, seen, marked);
            lemma_plan_order(rule, tree, l, marked, done);
            let left = plan_of(tree, l, marked);
            assert(marked.union(left.1) =~= left.1);
            lemma_unseen(tree, root, seen, left.1);
            let done_left = done.union(outputs(left.0));
            lemma_plan_order(rule, tree, r, left.1, done_left);
            let right = plan_of(tree, r, left.1);
            lemma_outputs_add(left.0, right.0);
            lemma_outputs_add(left.0 + right.0, seq![root]);
            lemma_ordered_add(left.0, right.0, done);
            let both = done.union(outputs(left.0 + right.0));
            assert(is_ordered(seq![root], both)) by {
                assert(seq![root].take(0) =~= Seq::empty());
                assert(both.contains(put_out(l)));
                assert(both.contains(put_out(r)));
            }
            lemma_ordered_add(left.0 + right.0, seq![root], done);
            assert(is_fresh(left.0, seen)) by {
                assert forall|i: int| 0 <= i < left.0.len() implies !seen.contains(
                    put_out(#[trigger] left.0[i]),
                ) by {
                    assert(!marked.contains(put_out(left.0[i])));
                }
            }
            assert(is_fresh(right.0, seen.union(outputs(left.0)))) by {
                assert forall|i: int| 0 <= i < right.0.len() implies !seen.union(
                    outputs(left.0),
                ).contains(put_out(#[trigger] right.0[i])) by {
                    assert(!left.1.contains(put_out(right.0[i])));
                }
            }
            lemma_fresh_add(left.0, right.0, seen);
            assert(is_fresh(seq![root], seen.union(outputs(left.0 + right.0)))) by {
                if outputs(left.0).contains(put_out(root)) {
                    let i = choose|i: int|
                        0 <= i < left.0.len() && put_out(#[trigger] left.0[i]) == put_out(root);
                    assert(!marked.contains(put_out(left.0[i])));
                }
                if outputs(right.0).contains(put_out(root)) {
                    let i = choose|i: int|
                        0 <= i < right.0.len() && put_out(#[trigger] right.0[i]) == put_out(root);
                    assert(!left.1.contains(put_out(right.0[i])));
                }
            }
            lemma_fresh_add(left.0 + right.0, seq![root], seen);
            assert(after =~= seen.union(outputs(plan)));
        }
    }
}

/// The steps of a plan come in an order in which they can be carried out, on top
/// of what has been seen; none is carried out twice or again, and after them the
/// result is at hand.
pub proof fn law_steps_come_in_order(
    rule: FLRuleModel,
    steps: StepsModel,
    seen: Set<CollectionSignatureModel>,
)
    requires
        is_linked(rule, steps),
    ensures
        is_ordered(plan_of(steps.tree, steps.last, seen).0, seen),
        is_fresh(plan_of(steps.tree, steps.last, seen).0, seen),
        plan_of(steps.tree, steps.last, seen).1 == seen.union(
            outputs(plan_of(steps.tree, steps.last, seen).0),
        ),
        plan_of(steps.tree, steps.last, seen).1.contains(put_out(steps.last)),
{
    lemma_plan_order(rule, steps.tree, steps.last, seen, seen);
}

proof fn lemma_nested_order(
    rule: FLRuleModel,
    tree: Map<TransformationModel, (TransformationModel, TransformationModel)>,
    root: TransformationModel,
    seen: Set<CollectionSignatureModel>,
    nested: Set<CollectionSignatureModel>,
    done: Set<CollectionSignatureModel>,
)
    requires
        is_linked_to(rule, tree, Set::empty()),
        is_fed(rule, tree, Set::empty(), root),
        is_done_below(nested, done, put_out(root).name().len()),
    ensures
        ({
            let (plan, scope, after) = nested_plan_of(tree, root, seen, nested);
            &&& after == nested.union(outputs(plan))
            &&& is_ordered(plan, scope.union(done))
            &&& is_fresh(plan, seen.union(nested))
            &&& scope.union(done).union(outputs(plan)).contains(put_out(root))
            &&& forall|i: int|
                0 <= i < plan.len() && !(#[trigger] plan[i]).is_binary() ==> scope.contains(
                    plan[i].input.signature,
                )
        }),
    decreases unseen(tree, nested),
{
    let (plan, scope, after) = nested_plan_of(tree, root, seen, nested);
    if seen.contains(put_out(root)) || nested.contains(put_out(root)) {
        assert(plan =~= Seq::empty());
        assert(outputs(plan) =~= Set::empty());
        assert(after =~= nested.union(outputs(plan)));
    } else {
        let marked = nested.insert(put_out(root));
        lemma_outputs_one(root);
        if !tree.contains_key(root) {
            assert(is_leaf(rule, root));
            assert(after =~= nested.union(outputs(plan)));
        } else {
            let (l, r) = tree[root];
            assert(is_link(rule, tree, Set::empty(), root));
            lemma_unseen(tree, root, nested, marked);
            lemma_nested_order(rule, tree, l, seen, marked, done);
            let left = nested_plan_of(tree, l, seen, marked);
            assert(marked.union(left.2) =~= left.2);
            lemma_unseen(tree, root, nested, left.2);
            let done_left = done.union(outputs(left.0));
            lemma_nested_order(rule, tree, r, seen, left.2, done_left);
            let right = nested_plan_of(tree, r, seen, left.2);
            lemma_outputs_add(left.0, right.0);
            lemma_outputs_add(left.0 + right.0, seq![root]);
            lemma_ordered_more(left.0, left.1.union(done), scope.union(done));
            lemma_ordered_more(
                right.0,
                right.1.union(done_left),
                scope.union(done).union(outputs(left.0)),
            );
            lemma_ordered_add(left.0, right.0, scope.union(done));
            let both = scope.union(done).union(outputs(left.0 + right.0));
            assert(is_ordered(seq![root], both)) by {
                assert(seq![root].take(0) =~= Seq::empty());
                assert(both.contains(put_out(l)));
                assert(both.contains(put_out(r)));
            }
            lemma_ordered_add(left.0 + right.0, seq![root], scope.union(done));
            let known = seen.union(nested);
            assert(is_fresh(left.0, known)) by {
                assert forall|i: int| 0 <= i < left.0.len() implies !known.contains(
                    put_out(#[trigger] left.0[i]),
                ) by {
                    assert(!seen.union(marked).contains(put_out(left.0[i])));
                }
            }
            assert(is_fresh(right.0, known.union(outputs(left.0)))) by {
                assert forall|i: int| 0 <= i < right.0.len() implies !known.union(
                    outputs(left.0),
                ).contains(put_out(#[trigger] right.0[i])) by {
                    assert(!seen.union(left.2).contains(put_out(right.0[i])));
                }
            }
            lemma_fresh_add(left.0, right.0, known);
            assert(is_fresh(seq![root], known.union(outputs(left.0 + right.0)))) by {
                if outputs(left.0).contains(put_out(root)) {
                    let i = choose|i: int|
                        0 <= i < left.0.len() && put_out(#[trigger] left.0[i]) == put_out(root);
                    assert(!seen.union(marked).contains(put_out(left.0[i])));
                }
                if outputs(right.0).contains(put_out(root)) {
                    let i = choose|i: int|
                        0 <= i < right.0.len() && put_out(#[trigger] right.0[i]) == put_out(root);
                    assert(!seen.union(left.2).contains(put_out(right.0[i])));
                }
            }
            lemma_fresh_add(left.0 + right.0, seq![root], known);
            assert(after =~= nested.union(outputs(plan)));
            assert forall|i: int|
                0 <= i < plan.len() && !(#[trigger] plan[i]).is_binary() implies scope.contains(
                plan[i].input.signature,
            ) by {
                if i < left.0.len() {
                    assert(plan[i] == left.0[i]);
                } else if i < left.0.len() + right.0.len() {
                    assert(plan[i] == right.0[i - left.0.len()]);
                } else {
                    assert(plan[i] == root);
                }
            }
        }
    }
}

pub proof fn lemma_ordered_more(
    plan: Seq<TransformationModel>,
    done: Set<CollectionSignatureModel>,
    more: Set<CollectionSignatureModel>,
)
    requires
        is_ordered(plan, done),
        done.subset_of(more),
    ensures
        is_ordered(plan, more),
{
    assert forall|i: int| 0 <= i < plan.len() implies is_ready(
        #[trigger] plan[i],
        more.union(outputs(plan.take(i))),
    ) by {
        assert(is_ready(plan[i], done.union(outputs(plan.take(i)))));
    }
}

/// Inside a recursive group the steps of a plan come in an order in which they can
/// be carried out, on top of what is brought in and of what has been seen inside.
/// The relations that they read are brought in.
pub proof fn law_nested_steps_come_in_order(
    rule: FLRuleModel,
    steps: StepsModel,
    seen: Set<CollectionSignatureModel>,
    nested: Set<CollectionSignatureModel>,
)
    requires
        is_linked(rule, steps),
    ensures
        ({
            let (plan, scope, after) = nested_plan_of(steps.tree, steps.last, seen, nested);
            &&& is_ordered(plan, scope.union(nested))
            &&& is_fresh(plan, seen.union(nested))
            &&& after == nested.union(outputs(plan))
            &&& scope.union(after).contains(put_out(steps.last))
            &&& forall|i: int|
                0 <= i < plan.len() && !(#[trigger] plan[i]).is_binary() ==> scope.contains(
                    plan[i].input.signature,
                )
        }),
{
    lemma_nested_order(rule, steps.tree, steps.last, seen, nested, nested);
}

/// Steps that reach down to relations without a gap are closed.
pub proof fn lemma_linked_is_closed(rule: FLRuleModel, steps: StepsModel)
    requires
        is_linked(rule, steps),
    ensures
        is_closed(steps.tree, steps.last),
{
    assert forall|step: TransformationModel| #[trigger] steps.tree.contains_key(step) implies {
        &&& steps.tree.contains_key(steps.tree[step].0) || steps.tree[step].0.is_unary()
        &&& steps.tree.contains_key(steps.tree[step].1) || steps.tree[step].1.is_unary()
    } by {
        assert(is_link(rule, steps.tree, Set::empty(), step));
    }
}

/// Whether every step reads rows or joins two collections.
pub open spec fn are_runnable(plan: Seq<TransformationModel>) -> bool {
    forall|i: int|
        0 <= i < plan.len() ==> is_row_step(#[trigger] plan[i]) || is_join_step(plan[i])
}

proof fn lemma_runnable_add(
    a: Seq<TransformationModel>,
    b: Seq<TransformationModel>,
    c: Seq<TransformationModel>,
)
    requires
        are_runnable(a),
        are_runnable(b),
        are_runnable(c),
    ensures
        are_runnable(a + b + c),
{
    let all = a + b + c;
    assert forall|i: int| 0 <= i < all.len() implies is_row_step(
        #[trigger] all[i],
    ) || is_join_step(all[i]) by {
        if i < a.len() {
            assert(all[i] == a[i]);
        } else if i < a.len() + b.len() {
            assert(all[i] == b[i - a.len()]);
        } else {
            assert(all[i] == c[i - a.len() - b.len()]);
        }
    }
}

pub proof fn lemma_plan_runnable(
    rule: FLRuleModel,
    tree: Map<TransformationModel, (TransformationModel, TransformationModel)>,
    root: TransformationModel,
    seen: Set<CollectionSignatureModel>,
)
    requires
        is_linked_to(rule, tree, Set::empty()),
        is_fed(rule, tree, Set::empty(), root),
    ensures
        are_runnable(plan_of(tree, root, seen).0),
    decreases unseen(tree, seen),
{
    if !seen.contains(put_out(root)) && tree.contains_key(root) {
        assert(is_link(rule, tree, Set::empty(), root));
        let marked = seen.insert(put_out(root));
        lemma_unseen(tree, root, seen, marked);
        lemma_plan_runnable(rule, tree, tree[root].0, marked);
        let left = plan_of(tree, tree[root].0, marked);
        lemma_unseen(tree, root, seen, marked.union(left.1));
        lemma_plan_runnable(rule, tree, tree[root].1, marked.union(left.1));
        let right = plan_of(tree, tree[root].1, marked.union(left.1));
        lemma_runnable_add(left.0, right.0, seq![root]);
    }
}

pub proof fn lemma_nested_runnable(
    rule: FLRuleModel,
    tree: Map<TransformationModel, (TransformationModel, TransformationModel)>,
    root: TransformationModel,
    seen: Set<CollectionSignatureModel>,
    nested: Set<CollectionSignatureModel>,
)
    requires
        is_linked_to(rule, tree, Set::empty()),
        is_fed(rule, tree, Set::empty(), root),
    ensures
        are_runnable(nested_plan_of(tree, root, seen, nested).0),
    decreases unseen(tree, nested),
{
    if !seen.contains(put_out(root)) && !nested.contains(put_out(root)) && tree.contains_key(
        root,
    ) {
        assert(is_link(rule, tree, Set::empty(), root));
        let marked = nested.insert(put_out(root));
        lemma_unseen(tree, root, nested, marked);
        lemma_nested_runnable(rule, tree, tree[root].0, seen, marked);
        let left = nested_plan_of(tree, tree[root].0, seen, marked);
        lemma_unseen(tree, root, nested, marked.union(left.2));
        lemma_nested_runnable(rule, tree, tree[root].1, seen, marked.union(left.2));
        let right = nested_plan_of(tree, tree[root].1, seen, marked.union(left.2));
        lemma_runnable_add(left.0, right.0, seq![root]);
    }
}

} // verus!
