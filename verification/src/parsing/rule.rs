//! Atoms, predicates and rules.
use vstd::prelude::*;
use vstd::string::*;
use crate::lists::{clone_list, empty, push, Same};
use crate::parsing::compare::{comparison_reading, ComparisonExpr, ComparisonExprModel};
use crate::parsing::head::{head_reading, Head, HeadModel};
use crate::parsing::parser::{Lexeme, ParseNode, Rule};
use crate::text::{
    i32_to_text, i32_value, int_text, join, join_text, parse_i32, render_all, same_text, texts, Render,
    Written,
};

verus! {


/// A constant of a program.
#[derive(Debug, Hash)]
pub enum Const {
    Integer(i32),
    Text(String),
}

/// What a constant is.
#[verifier::ext_equal]
pub enum ConstModel {
    Integer(i32),
    Text(Seq<char>),
}

impl DeepView for Const {
    type V = ConstModel;

    open spec fn deep_view(&self) -> ConstModel {
        match self {
            Const::Integer(number) => ConstModel::Integer(*number),
            Const::Text(text) => ConstModel::Text(text@),
        }
    }
}

impl Written for ConstModel {
    open spec fn text(self) -> Seq<char> {
        match self {
            ConstModel::Integer(number) => int_text(number as int),
            ConstModel::Text(text) => text,
        }
    }
}

impl Render for Const {
    fn to_string(&self) -> (out: String) {
        match self {
            Const::Integer(number) => i32_to_text(*number),
            Const::Text(text) => text.clone(),
        }
    }
}

impl Clone for Const {
    fn clone(&self) -> (copy: Self)
        ensures
            copy.deep_view() == self.deep_view(),
    {
        match self {
            Const::Integer(number) => Const::Integer(*number),
            Const::Text(text) => Const::Text(text.clone()),
        }
    }
}

/// What a parse node denotes as a `Const`.
pub open spec fn const_reading(node: ParseNode) -> Option<ConstModel> {
    if node.inner@.len() == 0 {
        None
    } else {
        let inner = node.inner@[0];
        match inner.rule {
            Rule::Integer => match i32_value(inner.text@) {
                Some(number) => Some(ConstModel::Integer(number)),
                None => None,
            },
            Rule::Text => Some(ConstModel::Text(inner.text@)),
            _ => None,
        }
    }
}

impl Const {
    /// The number of an integer constant.
    pub fn integer(&self) -> (number: i32)
        requires
            self.deep_view() is Integer,
        ensures
            self.deep_view() == ConstModel::Integer(number),
    {
        match self {
            Const::Integer(number) => *number,
            Const::Text(_) => vstd::pervasive::unreached(),
        }
    }
}

impl Same for Const {
    fn same(&self, other: &Const) -> (same: bool) {
        match (self, other) {
            (Const::Integer(a), Const::Integer(b)) => *a == *b,
            (Const::Text(a), Const::Text(b)) => *a == *b,
            _ => false,
        }
    }
}

impl Lexeme for Const {
    open spec fn readable(node: ParseNode) -> bool {
        const_reading(node) is Some
    }

    open spec fn is_reading_of(&self, node: ParseNode) -> bool {
        const_reading(node) == Some(self.deep_view())
    }

    fn read(node: &ParseNode) -> (value: Option<Self>)
        ensures
            value.deep_view() == const_reading(*node),
            value is Some <==> Self::readable(*node),
            value is Some ==> value->0.is_reading_of(*node),
    {
        if node.inner.len() == 0 {
            None
        } else {
            let inner = &node.inner[0];
            match inner.rule {
                Rule::Integer => match parse_i32(inner.text.as_str()) {
                    Some(number) => Some(Const::Integer(number)),
                    None => None,
                },
                Rule::Text => Some(Const::Text(inner.text.clone())),
                _ => None,
            }
        }
    }
}

/// An argument of an atom: a variable, a constant or a placeholder.
#[derive(Debug)]
pub enum AtomArg {
    Var(String),
    Const(Const),
    Placeholder,
}

#[verifier::ext_equal]
pub enum AtomArgModel {
    Var(Seq<char>),
    Const(ConstModel),
    Placeholder,
}

impl DeepView for AtomArg {
    type V = AtomArgModel;

    open spec fn deep_view(&self) -> AtomArgModel {
        match self {
            AtomArg::Var(var) => AtomArgModel::Var(var@),
            AtomArg::Const(constant) => AtomArgModel::Const(constant.deep_view()),
            AtomArg::Placeholder => AtomArgModel::Placeholder,
        }
    }
}

impl Written for AtomArgModel {
    open spec fn text(self) -> Seq<char> {
        match self {
            AtomArgModel::Var(var) => var,
            AtomArgModel::Const(constant) => constant.text(),
            AtomArgModel::Placeholder => "_"@,
        }
    }
}

impl Render for AtomArg {
    fn to_string(&self) -> (out: String) {
        match self {
            AtomArg::Var(var) => var.clone(),
            AtomArg::Const(constant) => constant.to_string(),
            AtomArg::Placeholder => "_".to_owned(),
        }
    }
}

impl Clone for AtomArg {
    fn clone(&self) -> (copy: Self)
        ensures
            copy.deep_view() == self.deep_view(),
    {
        match self {
            AtomArg::Var(var) => AtomArg::Var(var.clone()),
            AtomArg::Const(constant) => AtomArg::Const(constant.clone()),
            AtomArg::Placeholder => AtomArg::Placeholder,
        }
    }
}

impl AtomArg {
    pub fn is_var(&self) -> (answer: bool)
        ensures
            answer == (self.deep_view() is Var),
    {
        match self {
            AtomArg::Var(_) => true,
            _ => false,
        }
    }

    pub fn is_const(&self) -> (answer: bool)
        ensures
            answer == (self.deep_view() is Const),
    {
        match self {
            AtomArg::Const(_) => true,
            _ => false,
        }
    }

    pub fn is_placeholder(&self) -> (answer: bool)
        ensures
            answer == (self.deep_view() is Placeholder),
    {
        match self {
            AtomArg::Placeholder => true,
            _ => false,
        }
    }

    /// The name of a variable.
    pub fn as_var(&self) -> (var: &String)
        requires
            self.deep_view() is Var,
        ensures
            self.deep_view() == AtomArgModel::Var(var@),
    {
        match self {
            AtomArg::Var(var) => var,
            _ => vstd::pervasive::unreached(),
        }
    }
}

/// What a parse node denotes as a `AtomArg`.
pub open spec fn atom_arg_reading(node: ParseNode) -> Option<AtomArgModel> {
    match node.rule {
        Rule::Variable => Some(AtomArgModel::Var(node.text@)),
        Rule::Constant => match const_reading(node) {
            Some(constant) => Some(AtomArgModel::Const(constant)),
            None => None,
        },
        Rule::Placeholder => Some(AtomArgModel::Placeholder),
        _ => None,
    }
}

impl Lexeme for AtomArg {
    open spec fn readable(node: ParseNode) -> bool {
        atom_arg_reading(node) is Some
    }

    open spec fn is_reading_of(&self, node: ParseNode) -> bool {
        atom_arg_reading(node) == Some(self.deep_view())
    }

    fn read(node: &ParseNode) -> (value: Option<Self>)
        ensures
            value.deep_view() == atom_arg_reading(*node),
            value is Some <==> Self::readable(*node),
            value is Some ==> value->0.is_reading_of(*node),
    {
        match node.rule {
            Rule::Variable => Some(AtomArg::Var(node.text.clone())),
            Rule::Constant => match Const::read(node) {
                Some(constant) => Some(AtomArg::Const(constant)),
                None => None,
            },
            Rule::Placeholder => Some(AtomArg::Placeholder),
            _ => None,
        }
    }
}

/// A relation and its arguments.
#[derive(Debug)]
pub struct Atom {
    pub name: String,
    pub arguments: Vec<AtomArg>,
}

#[verifier::ext_equal]
pub struct AtomModel {
    pub name: Seq<char>,
    pub arguments: Seq<AtomArgModel>,
}

impl DeepView for Atom {
    type V = AtomModel;

    open spec fn deep_view(&self) -> AtomModel {
        AtomModel { name: self.name@, arguments: self.arguments.deep_view() }
    }
}

impl Written for AtomModel {
    open spec fn text(self) -> Seq<char> {
        self.name + "("@ + join_text(texts(self.arguments), ", "@) + ")"@
    }
}

impl Render for Atom {
    fn to_string(&self) -> (out: String) {
        let mut out = self.name.clone();
        out.append("(");
        out.append(join(&render_all(&self.arguments), ", ").as_str());
        out.append(")");
        out
    }
}

impl Clone for Atom {
    fn clone(&self) -> (copy: Self)
        ensures
            copy.deep_view() == self.deep_view(),
    {
        Atom { name: self.name.clone(), arguments: clone_list(&self.arguments) }
    }
}

impl Atom {
    pub fn from_str(name: &str, arguments: Vec<AtomArg>) -> (atom: Self)
        ensures
            atom.deep_view() == (AtomModel { name: name@, arguments: arguments.deep_view() }),
    {
        Atom { name: name.to_owned(), arguments }
    }

    pub fn push_arg(&mut self, arg: AtomArg)
        ensures
            final(self).deep_view() == (AtomModel {
                name: old(self).deep_view().name,
                arguments: old(self).deep_view().arguments.push(arg.deep_view()),
            }),
    {
        push(&mut self.arguments, arg);
    }

    pub fn name(&self) -> (name: &str)
        ensures
            name@ == self.deep_view().name,
    {
        self.name.as_str()
    }

    pub fn arguments(&self) -> (arguments: &Vec<AtomArg>)
        ensures
            arguments.deep_view() == self.deep_view().arguments,
    {
        &self.arguments
    }

    pub fn arity(&self) -> (arity: usize)
        ensures
            arity == self.deep_view().arguments.len(),
    {
        self.arguments.len()
    }
}

/// The argument inside a node that wraps one.
pub open spec fn wrapped_arg_reading(node: ParseNode) -> Option<AtomArgModel> {
    if node.inner@.len() == 0 {
        None
    } else {
        atom_arg_reading(node.inner@[0])
    }
}

/// What a parse node denotes as a `Atom`.
pub open spec fn atom_reading(node: ParseNode) -> Option<AtomModel> {
    let inner = node.inner@;
    if inner.len() == 0 {
        None
    } else if exists|i: int|
        1 <= i < inner.len() && wrapped_arg_reading(#[trigger] inner[i]) is None {
        None
    } else {
        Some(
            AtomModel {
                name: inner[0].text@,
                arguments: Seq::new(
                    (inner.len() - 1) as nat,
                    |i: int| wrapped_arg_reading(inner[i + 1])->0,
                ),
            },
        )
    }
}

impl Lexeme for Atom {
    open spec fn readable(node: ParseNode) -> bool {
        atom_reading(node) is Some
    }

    open spec fn is_reading_of(&self, node: ParseNode) -> bool {
        atom_reading(node) == Some(self.deep_view())
    }

    fn read(node: &ParseNode) -> (value: Option<Self>)
        ensures
            value.deep_view() == atom_reading(*node),
            value is Some <==> Self::readable(*node),
            value is Some ==> value->0.is_reading_of(*node),
    {
        if node.inner.len() == 0 {
            return None;
        }
        let mut arguments: Vec<AtomArg> = empty();
        let mut i: usize = 1;
        while i < node.inner.len()
            invariant
                1 <= i <= node.inner.len(),
                arguments.len() == i - 1,
                forall|k: int|
                    1 <= k < i ==> wrapped_arg_reading(#[trigger] node.inner@[k]) is Some,
                forall|k: int|
                    0 <= k < i - 1 ==> wrapped_arg_reading(node.inner@[k + 1]) == Some(
                        (#[trigger] arguments@[k]).deep_view(),
                    ),
            decreases node.inner.len() - i,
        {
            if node.inner[i].inner.len() == 0 {
                assert(wrapped_arg_reading(node.inner@[i as int]) is None);
                return None;
            }
            match AtomArg::read(&node.inner[i].inner[0]) {
                Some(argument) => arguments.push(argument),
                None => {
                    assert(wrapped_arg_reading(node.inner@[i as int]) is None);
                    return None;
                },
            }
            i += 1;
        }
        let value = Some(Atom { name: node.inner[0].text.clone(), arguments });
        assert(value.deep_view() =~~= atom_reading(*node));
        value
    }
}

/// A condition in the body of a rule.
#[derive(Debug)]
pub enum Predicate {
    AtomPredicate(Atom),
    NegatedAtomPredicate(Atom),
    ComparePredicate(ComparisonExpr),
}

#[verifier::ext_equal]
pub enum PredicateModel {
    AtomPredicate(AtomModel),
    NegatedAtomPredicate(AtomModel),
    ComparePredicate(ComparisonExprModel),
}

impl PredicateModel {
    /// The atom of a predicate that has one.
    pub open spec fn atom(self) -> Option<AtomModel> {
        match self {
            PredicateModel::AtomPredicate(atom) => Some(atom),
            PredicateModel::NegatedAtomPredicate(atom) => Some(atom),
            PredicateModel::ComparePredicate(_) => None,
        }
    }
}

impl DeepView for Predicate {
    type V = PredicateModel;

    open spec fn deep_view(&self) -> PredicateModel {
        match self {
            Predicate::AtomPredicate(atom) => PredicateModel::AtomPredicate(atom.deep_view()),
            Predicate::NegatedAtomPredicate(atom) => PredicateModel::NegatedAtomPredicate(
                atom.deep_view(),
            ),
            Predicate::ComparePredicate(expr) => PredicateModel::ComparePredicate(expr.deep_view()),
        }
    }
}

impl Written for PredicateModel {
    open spec fn text(self) -> Seq<char> {
        match self {
            PredicateModel::AtomPredicate(atom) => atom.text(),
            PredicateModel::NegatedAtomPredicate(atom) => "!"@ + atom.text(),
            PredicateModel::ComparePredicate(expr) => expr.text(),
        }
    }
}

impl Render for Predicate {
    fn to_string(&self) -> (out: String) {
        match self {
            Predicate::AtomPredicate(atom) => atom.to_string(),
            Predicate::NegatedAtomPredicate(atom) => {
                let mut out = "!".to_owned();
                out.append(atom.to_string().as_str());
                out
            },
            Predicate::ComparePredicate(expr) => expr.to_string(),
        }
    }
}

impl Clone for Predicate {
    fn clone(&self) -> (copy: Self)
        ensures
            copy.deep_view() == self.deep_view(),
    {
        match self {
            Predicate::AtomPredicate(atom) => Predicate::AtomPredicate(atom.clone()),
            Predicate::NegatedAtomPredicate(atom) => Predicate::NegatedAtomPredicate(atom.clone()),
            Predicate::ComparePredicate(expr) => Predicate::ComparePredicate(expr.clone()),
        }
    }
}

impl Predicate {
    /// The atom of a positive or negated atom.
    pub fn atom(&self) -> (atom: Option<&Atom>)
        ensures
            atom.deep_view() == self.deep_view().atom(),
    {
        match self {
            Predicate::AtomPredicate(atom) => Some(atom),
            Predicate::NegatedAtomPredicate(atom) => Some(atom),
            Predicate::ComparePredicate(_) => None,
        }
    }

    /// The arguments of a positive or negated atom.
    pub fn arguments(&self) -> (arguments: Vec<&AtomArg>)
        requires
            self.deep_view().atom() is Some,
        ensures
            arguments.deep_view() == self.deep_view().atom()->0.arguments,
    {
        let atom = self.atom().unwrap();
        let mut arguments: Vec<&AtomArg> = Vec::new();
        let mut i: usize = 0;
        while i < atom.arguments.len()
            invariant
                i <= atom.arguments.len(),
                arguments.len() == i,
                forall|k: int|
                    0 <= k < i ==> *(#[trigger] arguments[k]) == atom.arguments[k],
            decreases atom.arguments.len() - i,
        {
            arguments.push(&atom.arguments[i]);
            i += 1;
        }
        assert(arguments.deep_view() =~= atom.arguments.deep_view());
        arguments
    }

    /// The relation of a positive or negated atom.
    pub fn name(&self) -> (name: &str)
        requires
            self.deep_view().atom() is Some,
        ensures
            name@ == self.deep_view().atom()->0.name,
    {
        self.atom().unwrap().name()
    }
}

/// What a parse node denotes as a `Predicate`.
pub open spec fn predicate_reading(node: ParseNode) -> Option<PredicateModel> {
    match node.rule {
        Rule::Atom => match atom_reading(node) {
            Some(atom) => Some(PredicateModel::AtomPredicate(atom)),
            None => None,
        },
        Rule::NegAtom => if node.inner@.len() == 0 {
            None
        } else {
            match atom_reading(node.inner@[0]) {
                Some(atom) => Some(PredicateModel::NegatedAtomPredicate(atom)),
                None => None,
            }
        },
        Rule::CompareExpr => match comparison_reading(node) {
            Some(expr) => Some(PredicateModel::ComparePredicate(expr)),
            None => None,
        },
        _ => None,
    }
}

impl Lexeme for Predicate {
    open spec fn readable(node: ParseNode) -> bool {
        predicate_reading(node) is Some
    }

    open spec fn is_reading_of(&self, node: ParseNode) -> bool {
        predicate_reading(node) == Some(self.deep_view())
    }

    fn read(node: &ParseNode) -> (value: Option<Self>)
        ensures
            value.deep_view() == predicate_reading(*node),
            value is Some <==> Self::readable(*node),
            value is Some ==> value->0.is_reading_of(*node),
    {
        match node.rule {
            Rule::Atom => match Atom::read(node) {
                Some(atom) => Some(Predicate::AtomPredicate(atom)),
                None => None,
            },
            Rule::NegAtom => {
                if node.inner.len() == 0 {
                    return None;
                }
                match Atom::read(&node.inner[0]) {
                    Some(atom) => Some(Predicate::NegatedAtomPredicate(atom)),
                    None => None,
                }
            },
            Rule::CompareExpr => match ComparisonExpr::read(node) {
                Some(expr) => Some(Predicate::ComparePredicate(expr)),
                None => None,
            },
            _ => None,
        }
    }
}

/// A rule: what is derived, from which conditions, and how it is to be planned.
#[derive(Debug)]
pub struct FLRule {
    pub head: Head,
    pub rhs: Vec<Predicate>,
    pub is_planning: bool,
    pub is_sip: bool,
}

#[verifier::ext_equal]
pub struct FLRuleModel {
    pub head: HeadModel,
    pub rhs: Seq<PredicateModel>,
    pub is_planning: bool,
    pub is_sip: bool,
}

impl DeepView for FLRule {
    type V = FLRuleModel;

    open spec fn deep_view(&self) -> FLRuleModel {
        FLRuleModel {
            head: self.head.deep_view(),
            rhs: self.rhs.deep_view(),
            is_planning: self.is_planning,
            is_sip: self.is_sip,
        }
    }
}

impl Written for FLRuleModel {
    open spec fn text(self) -> Seq<char> {
        self.head.text() + " :- "@ + join_text(texts(self.rhs), ", "@) + "."@
    }
}

impl Render for FLRule {
    fn to_string(&self) -> (out: String) {
        let mut out = self.head.to_string();
        out.append(" :- ");
        out.append(join(&render_all(&self.rhs), ", ").as_str());
        out.append(".");
        out
    }
}

impl Clone for FLRule {
    fn clone(&self) -> (copy: Self)
        ensures
            copy.deep_view() == self.deep_view(),
    {
        FLRule {
            head: self.head.clone(),
            rhs: clone_list(&self.rhs),
            is_planning: self.is_planning,
            is_sip: self.is_sip,
        }
    }
}

impl FLRule {
    pub fn new(head: Head, rhs: Vec<Predicate>, is_planning: bool, is_sip: bool) -> (rule: Self)
        ensures
            rule.deep_view() == (FLRuleModel {
                head: head.deep_view(),
                rhs: rhs.deep_view(),
                is_planning,
                is_sip,
            }),
    {
        FLRule { head, rhs, is_planning, is_sip }
    }

    pub fn head(&self) -> (head: &Head)
        ensures
            head.deep_view() == self.deep_view().head,
    {
        &self.head
    }

    pub fn rhs(&self) -> (rhs: &Vec<Predicate>)
        ensures
            rhs.deep_view() == self.deep_view().rhs,
    {
        &self.rhs
    }

    pub fn is_planning(&self) -> (answer: bool)
        ensures
            answer == self.deep_view().is_planning,
    {
        self.is_planning
    }

    pub fn is_sip(&self) -> (answer: bool)
        ensures
            answer == self.deep_view().is_sip,
    {
        self.is_sip
    }

    pub fn get(&self, i: usize) -> (predicate: &Predicate)
        requires
            i < self.deep_view().rhs.len(),
        ensures
            predicate.deep_view() == self.deep_view().rhs[i as int],
    {
        &self.rhs[i]
    }
}

/// The planning directions that a mark behind a rule gives: whether the join
/// order is optimised and whether information is passed sideways.
pub open spec fn marks(mark: Seq<char>) -> Option<(bool, bool)> {
    if mark == ".plan"@ {
        Some((true, false))
    } else if mark == ".sip"@ {
        Some((false, true))
    } else if mark == ".optimize"@ {
        Some((true, true))
    } else {
        None
    }
}

fn read_marks(mark: &str) -> (directions: Option<(bool, bool)>)
    ensures
        directions == marks(mark@),
{
    if same_text(mark, ".plan") {
        Some((true, false))
    } else if same_text(mark, ".sip") {
        Some((false, true))
    } else if same_text(mark, ".optimize") {
        Some((true, true))
    } else {
        None
    }
}

/// The predicate inside a node that wraps one.
pub open spec fn wrapped_predicate_reading(node: ParseNode) -> Option<PredicateModel> {
    if node.inner@.len() == 0 {
        None
    } else {
        predicate_reading(node.inner@[0])
    }
}

/// What a parse node denotes as a `FLRule`.
pub open spec fn rule_reading(node: ParseNode) -> Option<FLRuleModel> {
    let inner = node.inner@;
    if inner.len() < 2 {
        None
    } else {
        let body = inner[1].inner@;
        let directions = if inner.len() > 2 { marks(inner[2].text@) } else { Some((false, false)) };
        if head_reading(inner[0]) is None || directions is None || exists|i: int|
            0 <= i < body.len() && wrapped_predicate_reading(#[trigger] body[i]) is None {
            None
        } else {
            Some(
                FLRuleModel {
                    head: head_reading(inner[0])->0,
                    rhs: Seq::new(body.len(), |i: int| wrapped_predicate_reading(body[i])->0),
                    is_planning: (directions->0).0,
                    is_sip: (directions->0).1,
                },
            )
        }
    }
}

impl Lexeme for FLRule {
    open spec fn readable(node: ParseNode) -> bool {
        rule_reading(node) is Some
    }

    open spec fn is_reading_of(&self, node: ParseNode) -> bool {
        rule_reading(node) == Some(self.deep_view())
    }

    fn read(node: &ParseNode) -> (value: Option<Self>)
        ensures
            value.deep_view() == rule_reading(*node),
            value is Some <==> Self::readable(*node),
            value is Some ==> value->0.is_reading_of(*node),
    {
        if node.inner.len() < 2 {
            return None;
        }
        let head = match Head::read(&node.inner[0]) {
            Some(head) => head,
            None => return None,
        };
        let directions = if node.inner.len() > 2 {
            match read_marks(node.inner[2].text.as_str()) {
                Some(directions) => directions,
                None => return None,
            }
        } else {
            (false, false)
        };
        let body = &node.inner[1].inner;
        let mut rhs: Vec<Predicate> = empty();
        let mut i: usize = 0;
        while i < body.len()
            invariant
                i <= body.len(),
                node.inner@.len() >= 2,
                *body == node.inner@[1].inner,
                rhs.len() == i,
                forall|k: int|
                    0 <= k < i ==> wrapped_predicate_reading(#[trigger] body@[k]) is Some,
                forall|k: int|
                    0 <= k < i ==> wrapped_predicate_reading(body@[k]) == Some(
                        (#[trigger] rhs@[k]).deep_view(),
                    ),
            decreases body.len() - i,
        {
            if body[i].inner.len() == 0 {
                assert(wrapped_predicate_reading(body@[i as int]) is None);
                return None;
            }
            match Predicate::read(&body[i].inner[0]) {
                Some(predicate) => rhs.push(predicate),
                None => {
                    assert(wrapped_predicate_reading(body@[i as int]) is None);
                    return None;
                },
            }
            i += 1;
        }
        let value = Some(FLRule { head, rhs, is_planning: directions.0, is_sip: directions.1 });
        assert(value.deep_view() =~~= rule_reading(*node));
        value
    }
}

} // verus!
