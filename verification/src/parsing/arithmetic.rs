//! Arithmetic expressions: factors joined by operators, read from left to right.
use vstd::prelude::*;
use vstd::string::*;
use crate::lists::{empty, extend, group_take, push};
use crate::parsing::parser::{Lexeme, ParseNode, Rule};
use crate::parsing::rule::{const_reading, Const, ConstModel};
use crate::text::{Render, Written};

verus! {

#[derive(Debug, Clone, Copy, Hash, PartialEq, Eq, Structural)]
pub enum ArithmeticOperator {
    Plus,
    Minus,
    Multiply,
    Divide,
    Modulo,
}

impl DeepView for ArithmeticOperator {
    type V = ArithmeticOperator;

    open spec fn deep_view(&self) -> ArithmeticOperator {
        *self
    }
}

impl Written for ArithmeticOperator {
    open spec fn text(self) -> Seq<char> {
        match self {
            ArithmeticOperator::Plus => "+"@,
            ArithmeticOperator::Minus => "-"@,
            ArithmeticOperator::Multiply => "*"@,
            ArithmeticOperator::Divide => "/"@,
            ArithmeticOperator::Modulo => "%"@,
        }
    }
}

impl Render for ArithmeticOperator {
    fn to_string(&self) -> (out: String) {
        let text: &str = match self {
            ArithmeticOperator::Plus => "+",
            ArithmeticOperator::Minus => "-",
            ArithmeticOperator::Multiply => "*",
            ArithmeticOperator::Divide => "/",
            ArithmeticOperator::Modulo => "%",
        };
        text.to_owned()
    }
}

/// What a parse node denotes as a `ArithmeticOperator`.
pub open spec fn operator_reading(node: ParseNode) -> Option<ArithmeticOperator> {
    if node.inner@.len() == 0 {
        None
    } else {
        match node.inner@[0].rule {
            Rule::Plus => Some(ArithmeticOperator::Plus),
            Rule::Minus => Some(ArithmeticOperator::Minus),
            Rule::Times => Some(ArithmeticOperator::Multiply),
            Rule::Divide => Some(ArithmeticOperator::Divide),
            Rule::Modulo => Some(ArithmeticOperator::Modulo),
            _ => None,
        }
    }
}

impl Lexeme for ArithmeticOperator {
    open spec fn readable(node: ParseNode) -> bool {
        operator_reading(node) is Some
    }

    open spec fn is_reading_of(&self, node: ParseNode) -> bool {
        operator_reading(node) == Some(self.deep_view())
    }

    fn read(node: &ParseNode) -> (value: Option<Self>)
        ensures
            value.deep_view() == operator_reading(*node),
            value is Some <==> Self::readable(*node),
            value is Some ==> value->0.is_reading_of(*node),
    {
        if node.inner.len() == 0 {
            None
        } else {
            match node.inner[0].rule {
                Rule::Plus => Some(ArithmeticOperator::Plus),
                Rule::Minus => Some(ArithmeticOperator::Minus),
                Rule::Times => Some(ArithmeticOperator::Multiply),
                Rule::Divide => Some(ArithmeticOperator::Divide),
                Rule::Modulo => Some(ArithmeticOperator::Modulo),
                _ => None,
            }
        }
    }
}

/// A variable or a constant.
#[derive(Debug, Hash)]
pub enum Factor {
    Var(String),
    Const(Const),
}

#[verifier::ext_equal]
pub enum FactorModel {
    Var(Seq<char>),
    Const(ConstModel),
}

impl FactorModel {
    /// The variables of the factor: its own name, or none.
    pub open spec fn vars(self) -> Seq<Seq<char>> {
        match self {
            FactorModel::Var(var) => seq![var],
            FactorModel::Const(_) => Seq::empty(),
        }
    }
}

impl DeepView for Factor {
    type V = FactorModel;

    open spec fn deep_view(&self) -> FactorModel {
        match self {
            Factor::Var(var) => FactorModel::Var(var@),
            Factor::Const(constant) => FactorModel::Const(constant.deep_view()),
        }
    }
}

impl Written for FactorModel {
    open spec fn text(self) -> Seq<char> {
        match self {
            FactorModel::Var(var) => var,
            FactorModel::Const(constant) => constant.text(),
        }
    }
}

impl Render for Factor {
    fn to_string(&self) -> (out: String) {
        match self {
            Factor::Var(var) => var.clone(),
            Factor::Const(constant) => constant.to_string(),
        }
    }
}

impl Clone for Factor {
    fn clone(&self) -> (copy: Self)
        ensures
            copy.deep_view() == self.deep_view(),
    {
        match self {
            Factor::Var(var) => Factor::Var(var.clone()),
            Factor::Const(constant) => Factor::Const(constant.clone()),
        }
    }
}

impl Factor {
    pub fn is_var(&self) -> (answer: bool)
        ensures
            answer == (self.deep_view() is Var),
    {
        match self {
            Factor::Var(_) => true,
            _ => false,
        }
    }

    /// The variables of the factor, each once.
    pub fn vars_set(&self) -> (vars: Vec<&String>)
        ensures
            vars.deep_view() == self.deep_view().vars(),
            vars.deep_view().no_duplicates(),
    {
        self.vars()
    }

    pub fn vars(&self) -> (vars: Vec<&String>)
        ensures
            vars.deep_view() == self.deep_view().vars(),
    {
        let mut vars: Vec<&String> = empty();
        match self {
            Factor::Var(var) => {
                push(&mut vars, var);
                assert(vars.deep_view() =~= self.deep_view().vars());
            },
            _ => {},
        }
        vars
    }
}

/// What a parse node denotes as a `Factor`.
pub open spec fn factor_reading(node: ParseNode) -> Option<FactorModel> {
    if node.inner@.len() == 0 {
        None
    } else {
        let inner = node.inner@[0];
        match inner.rule {
            Rule::Variable => Some(FactorModel::Var(inner.text@)),
            Rule::Constant => match const_reading(inner) {
                Some(constant) => Some(FactorModel::Const(constant)),
                None => None,
            },
            _ => None,
        }
    }
}

impl Lexeme for Factor {
    open spec fn readable(node: ParseNode) -> bool {
        factor_reading(node) is Some
    }

    open spec fn is_reading_of(&self, node: ParseNode) -> bool {
        factor_reading(node) == Some(self.deep_view())
    }

    fn read(node: &ParseNode) -> (value: Option<Self>)
        ensures
            value.deep_view() == factor_reading(*node),
            value is Some <==> Self::readable(*node),
            value is Some ==> value->0.is_reading_of(*node),
    {
        if node.inner.len() == 0 {
            None
        } else {
            let inner = &node.inner[0];
            match inner.rule {
                Rule::Variable => Some(Factor::Var(inner.text.clone())),
                Rule::Constant => match Const::read(inner) {
                    Some(constant) => Some(Factor::Const(constant)),
                    None => None,
                },
                _ => None,
            }
        }
    }
}

/// A factor followed by operators and further factors.
#[derive(Debug)]
pub struct Arithmetic {
    pub init: Factor,
    pub rest: Vec<(ArithmeticOperator, Factor)>,
}

#[verifier::ext_equal]
pub struct ArithmeticModel {
    pub init: FactorModel,
    pub rest: Seq<(ArithmeticOperator, FactorModel)>,
}

/// The variables of the factors behind the operators, in order.
pub open spec fn rest_vars(rest: Seq<(ArithmeticOperator, FactorModel)>) -> Seq<Seq<char>>
    decreases rest.len(),
{
    if rest.len() == 0 {
        Seq::empty()
    } else {
        rest_vars(rest.drop_last()) + rest.last().1.vars()
    }
}

/// The operators and factors, each with a blank in front.
pub open spec fn rest_text<F: Written>(rest: Seq<(ArithmeticOperator, F)>) -> Seq<char>
    decreases rest.len(),
{
    if rest.len() == 0 {
        Seq::empty()
    } else {
        rest_text(rest.drop_last()) + " "@ + rest.last().0.text() + " "@ + rest.last().1.text()
    }
}

impl ArithmeticModel {
    /// All variables from left to right, repetitions included.
    pub open spec fn vars(self) -> Seq<Seq<char>> {
        self.init.vars() + rest_vars(self.rest)
    }

    pub open spec fn is_var(self) -> bool {
        self.init is Var && self.rest.len() == 0
    }
}

impl DeepView for Arithmetic {
    type V = ArithmeticModel;

    open spec fn deep_view(&self) -> ArithmeticModel {
        ArithmeticModel { init: self.init.deep_view(), rest: self.rest.deep_view() }
    }
}

impl Written for ArithmeticModel {
    open spec fn text(self) -> Seq<char> {
        self.init.text() + rest_text(self.rest)
    }
}

/// Writes a first factor and what follows it.
pub fn render_arithmetic<F: Render>(init: &F, rest: &Vec<(ArithmeticOperator, F)>) -> (out:
    String) where <F as DeepView>::V: Written
    ensures
        out@ == init.deep_view().text() + rest_text(rest.deep_view()),
{
    broadcast use group_take;

    let mut out = init.to_string();
    let mut i: usize = 0;
    assert(out@ =~= init.deep_view().text() + rest_text(rest.deep_view().take(0)));
    while i < rest.len()
        invariant
            i <= rest.len(),
            out@ == init.deep_view().text() + rest_text(rest.deep_view().take(i as int)),
        decreases rest.len() - i,
    {
        let ghost done = rest.deep_view().take(i as int);
        let ghost item = rest.deep_view()[i as int];
        assert(rest.deep_view().take(i + 1).drop_last() == done);
        let op = rest[i].0.to_string();
        let factor = rest[i].1.to_string();
        out.append(" ");
        out.append(op.as_str());
        out.append(" ");
        out.append(factor.as_str());
        assert(out@ =~= init.deep_view().text() + rest_text(rest.deep_view().take(i + 1)));
        i += 1;
    }
    out
}

impl Render for Arithmetic {
    fn to_string(&self) -> (out: String) {
        render_arithmetic(&self.init, &self.rest)
    }
}

impl Clone for Arithmetic {
    fn clone(&self) -> (copy: Self)
        ensures
            copy.deep_view() == self.deep_view(),
    {
        let mut rest: Vec<(ArithmeticOperator, Factor)> = Vec::new();
        let mut i: usize = 0;
        while i < self.rest.len()
            invariant
                i <= self.rest.len(),
                rest.len() == i,
                forall|k: int|
                    0 <= k < i ==> (#[trigger] rest[k]).deep_view() == self.rest[k].deep_view(),
            decreases self.rest.len() - i,
        {
            rest.push((self.rest[i].0, self.rest[i].1.clone()));
            i += 1;
        }
        assert(rest.deep_view() =~= self.rest.deep_view());
        Arithmetic { init: self.init.clone(), rest }
    }
}

impl Arithmetic {
    pub fn init(&self) -> (init: &Factor)
        ensures
            init.deep_view() == self.deep_view().init,
    {
        &self.init
    }

    pub fn rest(&self) -> (rest: &Vec<(ArithmeticOperator, Factor)>)
        ensures
            rest.deep_view() == self.deep_view().rest,
    {
        &self.rest
    }

    /// The variables of the expression, each once, in order of first occurrence.
    pub fn vars_set(&self) -> (vars: Vec<&String>)
        ensures
            vars.deep_view() == distinct(self.deep_view().vars()),
            vars.deep_view().no_duplicates(),
            vars.deep_view().to_set() == self.deep_view().vars().to_set(),
    {
        distinct_refs(&self.vars())
    }

    /// The variables of the expression from left to right.
    pub fn vars(&self) -> (vars: Vec<&String>)
        ensures
            vars.deep_view() == self.deep_view().vars(),
    {
        broadcast use group_take;

        let mut vars: Vec<&String> = self.init.vars();
        let mut i: usize = 0;
        let ghost rest = self.rest.deep_view();
        assert(vars.deep_view() =~= self.init.deep_view().vars() + rest_vars(rest.take(0)));
        while i < self.rest.len()
            invariant
                i <= self.rest.len(),
                rest == self.rest.deep_view(),
                vars.deep_view() == self.init.deep_view().vars() + rest_vars(rest.take(i as int)),
            decreases self.rest.len() - i,
        {
            let ghost before = vars.deep_view();
            assert(rest.take(i + 1).drop_last() == rest.take(i as int));
            assert(rest[i as int].1 == self.rest[i as int].1.deep_view());
            extend(&mut vars, self.rest[i].1.vars());
            assert(vars.deep_view() =~= self.init.deep_view().vars() + rest_vars(rest.take(i + 1)));
            i += 1;
        }
        vars
    }

    pub fn is_var(&self) -> (answer: bool)
        ensures
            answer == self.deep_view().is_var(),
    {
        self.init.is_var() && self.rest.len() == 0
    }
}

/// What the first `pairs` operators and factors behind the first factor denote.
pub open spec fn rest_reading(inner: Seq<ParseNode>, pairs: nat) -> Option<
    Seq<(ArithmeticOperator, FactorModel)>,
>
    decreases pairs,
{
    if pairs == 0 {
        Some(Seq::empty())
    } else {
        match (
            rest_reading(inner, (pairs - 1) as nat),
            operator_reading(inner[2 * pairs - 1]),
            factor_reading(inner[2 * pairs as int]),
        ) {
            (Some(front), Some(op), Some(factor)) => Some(front.push((op, factor))),
            _ => None,
        }
    }
}

proof fn lemma_rest_reading_none(inner: Seq<ParseNode>, some: nat, pairs: nat)
    requires
        some <= pairs,
        rest_reading(inner, some) is None,
    ensures
        rest_reading(inner, pairs) is None,
    decreases pairs,
{
    if some < pairs {
        lemma_rest_reading_none(inner, some, (pairs - 1) as nat);
    }
}

/// What a parse node denotes as a `Arithmetic`.
pub open spec fn arithmetic_reading(node: ParseNode) -> Option<ArithmeticModel> {
    let inner = node.inner@;
    if inner.len() % 2 == 0 {
        None
    } else {
        match (factor_reading(inner[0]), rest_reading(inner, ((inner.len() - 1) / 2) as nat)) {
            (Some(init), Some(rest)) => Some(ArithmeticModel { init, rest }),
            _ => None,
        }
    }
}

impl Lexeme for Arithmetic {
    open spec fn readable(node: ParseNode) -> bool {
        arithmetic_reading(node) is Some
    }

    open spec fn is_reading_of(&self, node: ParseNode) -> bool {
        arithmetic_reading(node) == Some(self.deep_view())
    }

    fn read(node: &ParseNode) -> (value: Option<Self>)
        ensures
            value.deep_view() == arithmetic_reading(*node),
            value is Some <==> Self::readable(*node),
            value is Some ==> value->0.is_reading_of(*node),
    {
        let len: usize = node.inner.len();
        if len % 2 == 0 {
            return None;
        }
        let init = match Factor::read(&node.inner[0]) {
            Some(init) => init,
            None => return None,
        };
        let pairs: usize = (len - 1) / 2;
        let mut rest: Vec<(ArithmeticOperator, Factor)> = empty();
        let mut i: usize = 0;
        while i < pairs
            invariant
                i <= pairs,
                pairs == (len - 1) / 2,
                len == node.inner@.len(),
                len % 2 == 1,
                rest_reading(node.inner@, i as nat) == Some(rest.deep_view()),
                factor_reading(node.inner@[0]) is Some,
            decreases pairs - i,
        {
            let op = ArithmeticOperator::read(&node.inner[2 * i + 1]);
            let factor = Factor::read(&node.inner[2 * i + 2]);
            proof {
                if rest_reading(node.inner@, (i + 1) as nat) is None {
                    lemma_rest_reading_none(node.inner@, (i + 1) as nat, pairs as nat);
                }
            }
            match (op, factor) {
                (Some(op), Some(factor)) => {
                    push(&mut rest, (op, factor));
                },
                _ => return None,
            }
            i += 1;
        }
        Some(Arithmetic { init, rest })
    }
}

/// The items of a sequence, each once, in order of first occurrence.
pub open spec fn distinct<A>(items: Seq<A>) -> Seq<A>
    decreases items.len(),
{
    if items.len() == 0 {
        Seq::empty()
    } else {
        let front = distinct(items.drop_last());
        if front.contains(items.last()) {
            front
        } else {
            front.push(items.last())
        }
    }
}

/// Dropping repetitions keeps every item and leaves no repetition.
pub proof fn lemma_distinct<A>(items: Seq<A>)
    ensures
        distinct(items).no_duplicates(),
        distinct(items).to_set() == items.to_set(),
        forall|x: A| distinct(items).contains(x) <==> items.contains(x),
    decreases items.len(),
{
    if items.len() > 0 {
        let front = items.drop_last();
        lemma_distinct(front);
        assert(items =~= front.push(items.last()));
        assert forall|x: A| distinct(items).contains(x) <==> items.contains(x) by {
            if items.contains(x) {
                if x == items.last() {
                    if !distinct(front).contains(x) {
                        assert(distinct(items)[distinct(front).len() as int] == x);
                    }
                } else {
                    let i = choose|i: int| 0 <= i < items.len() && items[i] == x;
                    assert(front[i] == x);
                    assert(front.contains(x));
                    assert(distinct(front).contains(x));
                    let j = choose|j: int| 0 <= j < distinct(front).len() && distinct(front)[j] == x;
                    assert(distinct(items)[j] == x);
                }
            }
            if distinct(items).contains(x) {
                let j = choose|j: int| 0 <= j < distinct(items).len() && distinct(items)[j] == x;
                if j < distinct(front).len() {
                    assert(distinct(front)[j] == x);
                    assert(front.contains(x));
                    let i = choose|i: int| 0 <= i < front.len() && front[i] == x;
                    assert(items[i] == x);
                } else {
                    assert(items[items.len() - 1] == x);
                }
            }
        }
        assert(distinct(items).to_set() =~= items.to_set());
    } else {
        assert(distinct(items) =~= items);
    }
}

/// Drops repeated texts from a list of references.
pub fn distinct_refs<'a>(items: &Vec<&'a String>) -> (out: Vec<&'a String>)
    ensures
        out.deep_view() == distinct(items.deep_view()),
        out.deep_view().no_duplicates(),
        out.deep_view().to_set() == items.deep_view().to_set(),
{
    broadcast use group_take;

    let mut out: Vec<&'a String> = empty();
    let mut i: usize = 0;
    while i < items.len()
        invariant
            i <= items.len(),
            out.deep_view() == distinct(items.deep_view().take(i as int)),
        decreases items.len() - i,
    {
        let item: &'a String = items[i];
        assert(items.deep_view().take(i + 1).drop_last() == items.deep_view().take(i as int));
        if !contains_ref(&out, item) {
            push(&mut out, item);
        }
        i += 1;
    }
    proof {
        lemma_distinct(items.deep_view());
    }
    out
}

/// Whether a list of references holds a text.
pub fn contains_ref(list: &Vec<&String>, item: &String) -> (found: bool)
    ensures
        found == list.deep_view().contains(item@),
{
    let mut i: usize = 0;
    while i < list.len()
        invariant
            i <= list.len(),
            forall|k: int| 0 <= k < i ==> list.deep_view()[k] != item@,
        decreases list.len() - i,
    {
        if *list[i] == *item {
            assert(list.deep_view()[i as int] == item@);
            return true;
        }
        i += 1;
    }
    false
}

} // verus!
