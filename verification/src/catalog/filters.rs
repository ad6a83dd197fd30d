//! The filters that the arguments of a rule body ask for.
use vstd::prelude::*;
use vstd::string::*;
use crate::catalog::atoms::AtomArgumentSignature;
use crate::catalog::body::{alias_of, const_of, is_placeholder};
use crate::lists::{contains_same, find, lookup};
use crate::parsing::rule::{Const, FLRuleModel};
use crate::text::{Render, Written};

verus! {

/// Repeated variables with their first occurrence, constants, and placeholders.
#[derive(Debug)]
pub struct BaseFilters {
    pub var_eq_map: Vec<(AtomArgumentSignature, AtomArgumentSignature)>,
    pub const_map: Vec<(AtomArgumentSignature, Const)>,
    pub placeholder_set: Vec<AtomArgumentSignature>,
}

impl BaseFilters {
    /// Whether these are the filters of a rule.
    pub open spec fn describes(&self, rule: FLRuleModel) -> bool {
        &&& forall|s: AtomArgumentSignature| #[trigger]
            lookup(self.var_eq_map.deep_view(), s) == alias_of(rule, s)
        &&& forall|s: AtomArgumentSignature| #[trigger]
            lookup(self.const_map.deep_view(), s) == const_of(rule, s)
        &&& forall|s: AtomArgumentSignature| #[trigger]
            self.placeholder_set.deep_view().contains(s) <==> is_placeholder(rule, s)
    }

    pub fn new(
        var_eq_map: Vec<(AtomArgumentSignature, AtomArgumentSignature)>,
        const_map: Vec<(AtomArgumentSignature, Const)>,
        placeholder_set: Vec<AtomArgumentSignature>,
    ) -> (filters: Self)
        ensures
            filters.var_eq_map == var_eq_map,
            filters.const_map == const_map,
            filters.placeholder_set == placeholder_set,
    {
        BaseFilters { var_eq_map, const_map, placeholder_set }
    }

    pub fn var_eq_map(&self) -> (map: &Vec<(AtomArgumentSignature, AtomArgumentSignature)>)
        ensures
            *map == self.var_eq_map,
    {
        &self.var_eq_map
    }

    pub fn const_map(&self) -> (map: &Vec<(AtomArgumentSignature, Const)>)
        ensures
            *map == self.const_map,
    {
        &self.const_map
    }

    pub fn placeholder_set(&self) -> (set: &Vec<AtomArgumentSignature>)
        ensures
            *set == self.placeholder_set,
    {
        &self.placeholder_set
    }

    /// Whether an argument is filtered: a repeated variable, a constant or a placeholder.
    pub fn is_const_or_var_eq_or_placeholder(&self, arg: &AtomArgumentSignature) -> (answer: bool)
        ensures
            answer == (lookup(self.var_eq_map.deep_view(), *arg) is Some || lookup(
                self.const_map.deep_view(),
                *arg,
            ) is Some || self.placeholder_set.deep_view().contains(*arg)),
    {
        find(&self.var_eq_map, arg).is_some() || find(&self.const_map, arg).is_some()
            || contains_same(&self.placeholder_set, arg)
    }

    pub fn is_empty(&self) -> (answer: bool)
        ensures
            answer == (self.var_eq_map@.len() == 0 && self.const_map@.len() == 0
                && self.placeholder_set@.len() == 0),
    {
        self.var_eq_map.len() == 0 && self.const_map.len() == 0 && self.placeholder_set.len() == 0
    }
}

/// Pairs written as `a -> b`, one on an indented line.
pub open spec fn pair_lines<A: Written, B: Written>(pairs: Seq<(A, B)>) -> Seq<char>
    decreases pairs.len(),
{
    if pairs.len() == 0 {
        Seq::empty()
    } else {
        pair_lines(pairs.drop_last()) + "  "@ + pairs.last().0.text() + " -> "@
            + pairs.last().1.text() + "\n"@
    }
}

/// Items, one on an indented line.
pub open spec fn item_lines<A: Written>(items: Seq<A>) -> Seq<char>
    decreases items.len(),
{
    if items.len() == 0 {
        Seq::empty()
    } else {
        item_lines(items.drop_last()) + "  "@ + items.last().text() + "\n"@
    }
}

pub fn render_pairs<A: Render, B: Render>(pairs: &Vec<(A, B)>) -> (out: String) where
    <A as DeepView>::V: Written,
    <B as DeepView>::V: Written,

    ensures
        out@ == pair_lines(pairs.deep_view()),
{
    broadcast use crate::lists::group_take;

    let mut out = String::new();
    let ghost model = pairs.deep_view();
    let mut i: usize = 0;
    while i < pairs.len()
        invariant
            i <= pairs.len(),
            model == pairs.deep_view(),
            out@ == pair_lines(model.take(i as int)),
        decreases pairs.len() - i,
    {
        assert(model.take(i + 1).drop_last() == model.take(i as int));
        assert(model[i as int] == pairs[i as int].deep_view());
        out.append("  ");
        out.append(pairs[i].0.to_string().as_str());
        out.append(" -> ");
        out.append(pairs[i].1.to_string().as_str());
        out.append("\n");
        i += 1;
    }
    out
}

pub fn render_items<A: Render>(items: &Vec<A>) -> (out: String) where <A as DeepView>::V: Written
    ensures
        out@ == item_lines(items.deep_view()),
{
    broadcast use crate::lists::group_take;

    let mut out = String::new();
    let ghost model = items.deep_view();
    let mut i: usize = 0;
    while i < items.len()
        invariant
            i <= items.len(),
            model == items.deep_view(),
            out@ == item_lines(model.take(i as int)),
        decreases items.len() - i,
    {
        assert(model.take(i + 1).drop_last() == model.take(i as int));
        assert(model[i as int] == items[i as int].deep_view());
        out.append("  ");
        out.append(items[i].to_string().as_str());
        out.append("\n");
        i += 1;
    }
    out
}

/// The listing of the filters.
pub open spec fn filters_text(filters: BaseFilters) -> Seq<char> {
    "Variable Eq Constraints Map:\n"@ + pair_lines(filters.var_eq_map.deep_view())
        + "\nConstant Map:\n"@ + pair_lines(filters.const_map.deep_view())
        + "\nPlaceholder Set:\n"@ + item_lines(filters.placeholder_set.deep_view())
}

impl BaseFilters {
    /// The listing of the filters.
    pub fn to_string(&self) -> (out: String)
        ensures
            out@ == filters_text(*self),
    {
        let mut out = "Variable Eq Constraints Map:\n".to_owned();
        out.append(render_pairs(&self.var_eq_map).as_str());
        out.append("\nConstant Map:\n");
        out.append(render_pairs(&self.const_map).as_str());
        out.append("\nPlaceholder Set:\n");
        out.append(render_items(&self.placeholder_set).as_str());
        out
    }
}

} // verus!
