//! Heads of rules.
use vstd::prelude::*;
use vstd::string::*;
use crate::lists::{clone_list, empty, push};
use crate::parsing::aggregation::{aggregation_reading, Aggregation, AggregationModel};
use crate::parsing::arithmetic::{arithmetic_reading, Arithmetic, ArithmeticModel, Factor, FactorModel};
use crate::parsing::parser::{read_from, Lexeme, ParseNode, Rule};
use crate::text::{join, join_text, render_all, texts, Render, Written};

verus! {

/// An argument of a head: a variable, an expression or an aggregation.
#[derive(Debug)]
pub enum HeadArg {
    Var(String),
    Arith(Arithmetic),
    Aggregation(Aggregation),
}

#[verifier::ext_equal]
pub enum HeadArgModel {
    Var(Seq<char>),
    Arith(ArithmeticModel),
    Aggregation(AggregationModel),
}

impl HeadArgModel {
    /// The variables that the argument needs.
    pub open spec fn vars(self) -> Seq<Seq<char>> {
        match self {
            HeadArgModel::Var(var) => seq![var],
            HeadArgModel::Arith(arithmetic) => arithmetic.vars(),
            HeadArgModel::Aggregation(aggregation) => aggregation.arithmetic.vars(),
        }
    }
}

impl DeepView for HeadArg {
    type V = HeadArgModel;

    open spec fn deep_view(&self) -> HeadArgModel {
        match self {
            HeadArg::Var(var) => HeadArgModel::Var(var@),
            HeadArg::Arith(arithmetic) => HeadArgModel::Arith(arithmetic.deep_view()),
            HeadArg::Aggregation(aggregation) => HeadArgModel::Aggregation(aggregation.deep_view()),
        }
    }
}

impl Written for HeadArgModel {
    open spec fn text(self) -> Seq<char> {
        match self {
            HeadArgModel::Var(var) => var,
            HeadArgModel::Arith(arithmetic) => arithmetic.text(),
            HeadArgModel::Aggregation(aggregation) => aggregation.text(),
        }
    }
}

impl Render for HeadArg {
    fn to_string(&self) -> (out: String) {
        match self {
            HeadArg::Var(var) => var.clone(),
            HeadArg::Arith(arithmetic) => arithmetic.to_string(),
            HeadArg::Aggregation(aggregation) => aggregation.to_string(),
        }
    }
}

impl Clone for HeadArg {
    fn clone(&self) -> (copy: Self)
        ensures
            copy.deep_view() == self.deep_view(),
    {
        match self {
            HeadArg::Var(var) => HeadArg::Var(var.clone()),
            HeadArg::Arith(arithmetic) => HeadArg::Arith(arithmetic.clone()),
            HeadArg::Aggregation(aggregation) => HeadArg::Aggregation(aggregation.clone()),
        }
    }
}

impl HeadArg {
    /// The variables that the argument needs, from left to right.
    pub fn vars(&self) -> (vars: Vec<&String>)
        ensures
            vars.deep_view() == self.deep_view().vars(),
    {
        match self {
            HeadArg::Var(var) => {
                let mut vars: Vec<&String> = empty();
                push(&mut vars, var);
                assert(vars.deep_view() =~= seq![var@]);
                vars
            },
            HeadArg::Arith(arithmetic) => arithmetic.vars(),
            HeadArg::Aggregation(aggregation) => aggregation.vars(),
        }
    }
}

/// What a parse node denotes as a `HeadArg`.
pub open spec fn head_arg_reading(node: ParseNode) -> Option<HeadArgModel> {
    match node.rule {
        Rule::Arithmics => match arithmetic_reading(node) {
            // a lone variable counts as a variable, not as an expression
            Some(arithmetic) => match arithmetic.init {
                FactorModel::Var(var) if arithmetic.rest.len() == 0 => Some(HeadArgModel::Var(var)),
                _ => Some(HeadArgModel::Arith(arithmetic)),
            },
            None => None,
        },
        Rule::Aggregate => match aggregation_reading(node) {
            Some(aggregation) => Some(HeadArgModel::Aggregation(aggregation)),
            None => None,
        },
        _ => None,
    }
}

impl Lexeme for HeadArg {
    open spec fn readable(node: ParseNode) -> bool {
        head_arg_reading(node) is Some
    }

    open spec fn is_reading_of(&self, node: ParseNode) -> bool {
        head_arg_reading(node) == Some(self.deep_view())
    }

    fn read(node: &ParseNode) -> (value: Option<Self>)
        ensures
            value.deep_view() == head_arg_reading(*node),
            value is Some <==> Self::readable(*node),
            value is Some ==> value->0.is_reading_of(*node),
    {
        match node.rule {
            Rule::Arithmics => match Arithmetic::read(node) {
                Some(arithmetic) => {
                    if arithmetic.rest.len() == 0 {
                        match &arithmetic.init {
                            Factor::Var(var) => {
                                return Some(HeadArg::Var(var.clone()));
                            },
                            Factor::Const(_) => {},
                        }
                    }
                    Some(HeadArg::Arith(arithmetic))
                },
                None => None,
            },
            Rule::Aggregate => match Aggregation::read(node) {
                Some(aggregation) => Some(HeadArg::Aggregation(aggregation)),
                None => None,
            },
            _ => None,
        }
    }
}

/// The conclusion of a rule: a relation and what is derived for it.
#[derive(Debug)]
pub struct Head {
    pub name: String,
    pub head_arguments: Vec<HeadArg>,
}

#[verifier::ext_equal]
pub struct HeadModel {
    pub name: Seq<char>,
    pub head_arguments: Seq<HeadArgModel>,
}

impl DeepView for Head {
    type V = HeadModel;

    open spec fn deep_view(&self) -> HeadModel {
        HeadModel { name: self.name@, head_arguments: self.head_arguments.deep_view() }
    }
}

impl Written for HeadModel {
    open spec fn text(self) -> Seq<char> {
        self.name + "("@ + join_text(texts(self.head_arguments), ", "@) + ")"@
    }
}

impl Render for Head {
    fn to_string(&self) -> (out: String) {
        let mut out = self.name.clone();
        out.append("(");
        out.append(join(&render_all(&self.head_arguments), ", ").as_str());
        out.append(")");
        out
    }
}

impl Clone for Head {
    fn clone(&self) -> (copy: Self)
        ensures
            copy.deep_view() == self.deep_view(),
    {
        Head { name: self.name.clone(), head_arguments: clone_list(&self.head_arguments) }
    }
}

impl Head {
    pub fn new(name: String, head_arguments: Vec<HeadArg>) -> (head: Self)
        ensures
            head.deep_view() == (HeadModel {
                name: name@,
                head_arguments: head_arguments.deep_view(),
            }),
    {
        Head { name, head_arguments }
    }

    pub fn name(&self) -> (name: &String)
        ensures
            name@ == self.deep_view().name,
    {
        &self.name
    }

    pub fn head_arguments(&self) -> (arguments: &Vec<HeadArg>)
        ensures
            arguments.deep_view() == self.deep_view().head_arguments,
    {
        &self.head_arguments
    }

    pub fn arity(&self) -> (arity: usize)
        ensures
            arity == self.deep_view().head_arguments.len(),
    {
        self.head_arguments.len()
    }
}

/// What a parse node denotes as a `Head`.
pub open spec fn head_reading(node: ParseNode) -> Option<HeadModel> {
    let inner = node.inner@;
    if inner.len() == 0 {
        None
    } else if exists|i: int| 1 <= i < inner.len() && head_arg_reading(#[trigger] inner[i]) is None {
        None
    } else {
        Some(
            HeadModel {
                name: inner[0].text@,
                head_arguments: Seq::new(
                    (inner.len() - 1) as nat,
                    |i: int| head_arg_reading(inner[i + 1])->0,
                ),
            },
        )
    }
}

impl Lexeme for Head {
    open spec fn readable(node: ParseNode) -> bool {
        head_reading(node) is Some
    }

    open spec fn is_reading_of(&self, node: ParseNode) -> bool {
        head_reading(node) == Some(self.deep_view())
    }

    fn read(node: &ParseNode) -> (value: Option<Self>)
        ensures
            value.deep_view() == head_reading(*node),
            value is Some <==> Self::readable(*node),
            value is Some ==> value->0.is_reading_of(*node),
    {
        if node.inner.len() == 0 {
            return None;
        }
        let head_arguments: Vec<HeadArg> = match read_from(&node.inner, 1) {
            Some(head_arguments) => head_arguments,
            None => return None,
        };
        let value = Some(Head { name: node.inner[0].text.clone(), head_arguments });
        assert(value.deep_view() =~~= head_reading(*node));
        value
    }
}

} // verus!
