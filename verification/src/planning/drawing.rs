//! Plans of rules drawn with lines.
use vstd::prelude::*;
use vstd::string::*;
use crate::lists::{contains_same, empty, lemma_entries_finite, push};
use crate::optimizing::drawing::{branch, branch_str, tree_text, trunk, trunk_str};
use crate::planning::rule::RuleQueryPlan;
use crate::planning::steps::TransformationTree;
use crate::planning::transformations::{Transformation, TransformationModel};
use crate::text::{nat_text, usize_to_text, Render, Written};

verus! {

/// The number of steps with steps below them that are not drawn yet.
pub open spec fn undrawn(
    tree: Map<TransformationModel, (TransformationModel, TransformationModel)>,
    drawn: Set<TransformationModel>,
) -> nat {
    tree.dom().difference(drawn).len()
}

proof fn lemma_undrawn(
    tree: Map<TransformationModel, (TransformationModel, TransformationModel)>,
    step: TransformationModel,
    drawn: Set<TransformationModel>,
    more: Set<TransformationModel>,
)
    requires
        tree.dom().finite(),
        tree.contains_key(step),
        !drawn.contains(step),
        drawn.insert(step).subset_of(more),
    ensures
        undrawn(tree, more) < undrawn(tree, drawn),
{
    let before = tree.dom().difference(drawn);
    let after = tree.dom().difference(more);
    assert(before.contains(step));
    assert(after.subset_of(before.remove(step)));
    vstd::set_lib::lemma_len_subset(after, before.remove(step));
}

/// A step on a line of its own, above the steps that it needs: the right one, then
/// the left one. A step is drawn once. Gives the drawn steps, too.
pub open spec fn step_text(
    tree: Map<TransformationModel, (TransformationModel, TransformationModel)>,
    step: TransformationModel,
    drawn: Set<TransformationModel>,
    indent: Seq<char>,
    is_last: bool,
) -> (Seq<char>, Set<TransformationModel>)
    decreases undrawn(tree, drawn),
    when tree.dom().finite()
    via step_text_ends
{
    if drawn.contains(step) {
        (Seq::empty(), drawn)
    } else {
        let line = indent + branch(is_last) + step.text() + "\n"@;
        let marked = drawn.insert(step);
        if !tree.contains_key(step) {
            (line, marked)
        } else {
            let below = indent + trunk(is_last);
            let right = step_text(tree, tree[step].1, marked, below, false);
            let left = step_text(tree, tree[step].0, marked.union(right.1), below, true);
            (line + right.0 + left.0, marked.union(right.1).union(left.1))
        }
    }
}

#[via_fn]
proof fn step_text_ends(
    tree: Map<TransformationModel, (TransformationModel, TransformationModel)>,
    step: TransformationModel,
    drawn: Set<TransformationModel>,
    indent: Seq<char>,
    is_last: bool,
) {
    if !drawn.contains(step) && tree.contains_key(step) {
        let marked = drawn.insert(step);
        assert forall|more: Set<TransformationModel>| marked.subset_of(more) implies #[trigger] undrawn(
            tree,
            more,
        ) < undrawn(tree, drawn) by {
            lemma_undrawn(tree, step, drawn, more);
        }
    }
}

proof fn lemma_drawn_grows(
    tree: Map<TransformationModel, (TransformationModel, TransformationModel)>,
    step: TransformationModel,
    drawn: Set<TransformationModel>,
    indent: Seq<char>,
    is_last: bool,
)
    requires
        tree.dom().finite(),
    ensures
        drawn.subset_of(step_text(tree, step, drawn, indent, is_last).1),
{
}

fn draw_step(
    tree: &TransformationTree,
    step: &Transformation,
    drawn: &mut Vec<Transformation>,
    indent: &str,
    is_last: bool,
) -> (out: String)
    ensures
        (out@, final(drawn).deep_view().to_set()) == step_text(
            tree.deep_view(),
            step.deep_view(),
            old(drawn).deep_view().to_set(),
            indent@,
            is_last,
        ),
    decreases undrawn(tree.deep_view(), old(drawn).deep_view().to_set()),
{
    let ghost map = tree.deep_view();
    let ghost model = step.deep_view();
    let ghost before = drawn.deep_view().to_set();
    proof {
        lemma_entries_finite(tree.entries.deep_view());
    }
    let mut out = String::new();
    if contains_same(drawn, step) {
        assert(before.contains(model));
        assert(out@ =~= Seq::empty());
        return out;
    }
    assert(!before.contains(model));
    out = indent.to_owned();
    out.append(branch_str(is_last));
    out.append(step.to_string().as_str());
    out.append("\n");
    let ghost list = drawn.deep_view();
    push(drawn, step.clone());
    let ghost marked = drawn.deep_view().to_set();
    proof {
        let longer = drawn.deep_view();
        assert forall|s: TransformationModel| before.insert(model).contains(s) implies marked.contains(
            s,
        ) by {
            if s == model {
                assert(longer[list.len() as int] == s);
            } else {
                let k = choose|k: int| 0 <= k < list.len() && list[k] == s;
                assert(longer[k] == s);
            }
        }
        assert(marked =~= before.insert(model));
    }
    match tree.get(step) {
        None => {},
        Some(below) => {
            assert(map[model] == below.deep_view());
            let mut new_indent = indent.to_owned();
            new_indent.append(trunk_str(is_last));
            let ghost ind = new_indent@;
            proof {
                lemma_undrawn(map, model, before, marked);
            }
            let right_text = draw_step(tree, &below.1, drawn, new_indent.as_str(), false);
            let ghost right = step_text(map, map[model].1, marked, ind, false);
            proof {
                lemma_drawn_grows(map, map[model].1, marked, ind, false);
                assert(marked.union(right.1) =~= right.1);
                lemma_undrawn(map, model, before, right.1);
                lemma_drawn_grows(map, map[model].0, right.1, ind, true);
                let left = step_text(map, map[model].0, right.1, ind, true);
                assert(right.1.union(left.1) =~= left.1);
            }
            let left_text = draw_step(tree, &below.0, drawn, new_indent.as_str(), true);
            out.append(right_text.as_str());
            out.append(left_text.as_str());
        },
    }
    out
}

/// A plan written out: the rule, its join tree, and its steps.
pub open spec fn rule_plan_text(plan: RuleQueryPlan) -> Seq<char> {
    plan.rule.deep_view().text() + "\n"@ + "tw ("@ + nat_text(plan.plan.tree_width as nat) + ")\n"@
        + tree_text(plan.plan.shape, ""@, true) + "\n"@ + "plan\n"@ + step_text(
        plan.steps.tree.deep_view(),
        plan.steps.last.deep_view(),
        Set::empty(),
        ""@,
        true,
    ).0
}

impl RuleQueryPlan {
    /// The plan written out.
    pub fn to_string(&self) -> (out: String)
        ensures
            out@ == rule_plan_text(*self),
    {
        let mut out = self.rule.to_string();
        out.append("\n");
        out.append("tw (");
        out.append(usize_to_text(self.plan.tree_width).as_str());
        out.append(")\n");
        out.append(self.plan.to_string().as_str());
        out.append("\n");
        out.append("plan\n");
        let mut drawn: Vec<Transformation> = empty();
        assert(drawn.deep_view().to_set() =~= Set::empty());
        out.append(draw_step(&self.steps.tree, &self.steps.last, &mut drawn, "", true).as_str());
        out
    }
}

} // verus!
