//! Join trees drawn with lines.
use vstd::prelude::*;
use vstd::string::*;
use crate::optimizing::join_tree::JoinTree;
use crate::optimizing::optimizer::PlanTree;
use crate::text::{nat_text, usize_to_text};

verus! {

/// The line to an item: the last one of its level, or one with others below it.
pub open spec fn branch(is_last: bool) -> Seq<char> {
    if is_last {
        "└── "@
    } else {
        "├── "@
    }
}

/// What goes before the lines below an item.
pub open spec fn trunk(is_last: bool) -> Seq<char> {
    if is_last {
        "    "@
    } else {
        "│   "@
    }
}

/// An atom on a line of its own, above the subtrees below it.
pub open spec fn tree_text(tree: JoinTree, prefix: Seq<char>, is_last: bool) -> Seq<char>
    decreases tree, 1int,
{
    prefix + branch(is_last) + nat_text(tree.root_id() as nat) + "\n"@ + below_text(
        tree,
        prefix + trunk(is_last),
        true,
    )
}

/// The subtrees below the root; `ends` says whether the last of them ends its level.
pub open spec fn below_text(tree: JoinTree, prefix: Seq<char>, ends: bool) -> Seq<char>
    decreases tree, 0int,
{
    match tree {
        JoinTree::Atom(id) => Seq::empty(),
        JoinTree::Join(rest, last) => below_text(*rest, prefix, false) + tree_text(
            *last,
            prefix,
            ends,
        ),
    }
}

pub fn branch_str(is_last: bool) -> (out: &'static str)
    ensures
        out@ == branch(is_last),
{
    if is_last {
        "└── "
    } else {
        "├── "
    }
}

pub fn trunk_str(is_last: bool) -> (out: &'static str)
    ensures
        out@ == trunk(is_last),
{
    if is_last {
        "    "
    } else {
        "│   "
    }
}

fn draw_tree(tree: &JoinTree, prefix: &str, is_last: bool) -> (out: String)
    ensures
        out@ == tree_text(*tree, prefix@, is_last),
    decreases tree, 1int,
{
    let mut out = prefix.to_owned();
    out.append(branch_str(is_last));
    out.append(usize_to_text(tree.root()).as_str());
    out.append("\n");
    let mut below_prefix = prefix.to_owned();
    below_prefix.append(trunk_str(is_last));
    out.append(draw_below(tree, below_prefix.as_str(), true).as_str());
    out
}

fn draw_below(tree: &JoinTree, prefix: &str, ends: bool) -> (out: String)
    ensures
        out@ == below_text(*tree, prefix@, ends),
    decreases tree, 0int,
{
    match tree {
        JoinTree::Atom(_) => {
            let out = String::new();
            assert(out@ =~= Seq::empty());
            out
        },
        JoinTree::Join(rest, last) => {
            let mut out = draw_below(rest, prefix, false);
            out.append(draw_tree(last, prefix, ends).as_str());
            out
        },
    }
}

impl PlanTree {
    /// The tree drawn with lines.
    pub fn to_string(&self) -> (out: String)
        ensures
            out@ == tree_text(self.shape, ""@, true),
    {
        draw_tree(&self.shape, "", true)
    }
}

} // verus!
