//! Parse nodes and whole programs.
use vstd::prelude::*;
use vstd::string::*;
use crate::lists::{clone_list, empty, extend, group_take, push};
use crate::parsing::decl::{rel_decl_reading, RelDecl, RelDeclModel};
use crate::parsing::rule::{rule_reading, FLRule, FLRuleModel};
use crate::text::{join, join_text, render_all, texts, Render, Written};

verus! {

/// The grammar rule that a parse node was made by. `Other` stands for the
/// rules whose identity does not matter to the reader.
#[derive(Debug, Clone, Copy, PartialEq, Eq, Structural)]
pub enum Rule {
    EdbDecl,
    IdbDecl,
    RuleDecl,
    Variable,
    Constant,
    Placeholder,
    Integer,
    Text,
    Atom,
    NegAtom,
    CompareExpr,
    Arithmics,
    Aggregate,
    Plus,
    Minus,
    Times,
    Divide,
    Modulo,
    Equals,
    NotEquals,
    GreaterThan,
    GreaterEqualThan,
    LessThan,
    LessEqualThan,
    Min,
    Max,
    Count,
    Sum,
    Other,
}

/// A node of a parse tree: the rule, the text it covers and its inner nodes.
#[derive(Debug)]
pub struct ParseNode {
    pub rule: Rule,
    pub text: String,
    pub inner: Vec<ParseNode>,
}

/// A value that is read off a parse node.
pub trait Lexeme: Sized {
    /// Whether the node has the shape of such a value.
    spec fn readable(node: ParseNode) -> bool;

    /// Whether `self` is the value that a readable node denotes.
    spec fn is_reading_of(&self, node: ParseNode) -> bool;

    /// The value of the node; `None` for a node of another shape.
    fn read(node: &ParseNode) -> (value: Option<Self>)
        ensures
            value is Some <==> Self::readable(*node),
            value is Some ==> value->0.is_reading_of(*node),
    ;

    fn from_parsed_rule(node: &ParseNode) -> (value: Self)
        requires
            Self::readable(*node),
        ensures
            value.is_reading_of(*node),
    {
        Self::read(node).unwrap()
    }
}

/// Reads every node of `nodes` from position `from` on.
pub fn read_from<T: Lexeme>(nodes: &Vec<ParseNode>, from: usize) -> (values: Option<Vec<T>>)
    requires
        from <= nodes.len(),
    ensures
        values is Some <==> (forall|i: int|
            from <= i < nodes.len() ==> T::readable(#[trigger] nodes[i])),
        values matches Some(list) ==> list.len() == nodes.len() - from && forall|i: int|
            0 <= i < list.len() ==> (#[trigger] list[i]).is_reading_of(nodes[i + from]),
{
    let mut list: Vec<T> = Vec::new();
    let mut i: usize = from;
    while i < nodes.len()
        invariant
            from <= i <= nodes.len(),
            list.len() == i - from,
            forall|k: int| from <= k < i ==> T::readable(#[trigger] nodes[k]),
            forall|k: int|
                0 <= k < list.len() ==> (#[trigger] list[k]).is_reading_of(nodes[k + from]),
        decreases nodes.len() - i,
    {
        match T::read(&nodes[i]) {
            Some(value) => list.push(value),
            None => {
                assert(!T::readable(nodes[i as int]));
                return None;
            },
        }
        i += 1;
    }
    Some(list)
}

/// Reads programs off parse trees.
pub struct FlowLogParser;

impl FlowLogParser {
    /// The program that a parse tree denotes, if it denotes one.
    pub fn program(root: &ParseNode) -> (program: Option<Program>)
        ensures
            program.deep_view() == program_reading(*root),
    {
        Program::read(root)
    }
}

/// A program: the relations that are given, those that are derived, and the rules.
#[derive(Debug)]
pub struct Program {
    pub edbs: Vec<RelDecl>,
    pub idbs: Vec<RelDecl>,
    pub rules: Vec<FLRule>,
}

#[verifier::ext_equal]
pub struct ProgramModel {
    pub edbs: Seq<RelDeclModel>,
    pub idbs: Seq<RelDeclModel>,
    pub rules: Seq<FLRuleModel>,
}

impl DeepView for Program {
    type V = ProgramModel;

    open spec fn deep_view(&self) -> ProgramModel {
        ProgramModel {
            edbs: self.edbs.deep_view(),
            idbs: self.idbs.deep_view(),
            rules: self.rules.deep_view(),
        }
    }
}

impl Written for ProgramModel {
    open spec fn text(self) -> Seq<char> {
        ".in \n"@ + join_text(texts(self.edbs), "\n"@) + "\n.printsize \n"@ + join_text(
            texts(self.idbs),
            "\n"@,
        ) + "\n.rule \n"@ + join_text(texts(self.rules), "\n"@)
    }
}

impl Render for Program {
    fn to_string(&self) -> (out: String) {
        let mut out = ".in \n".to_owned();
        out.append(join(&render_all(&self.edbs), "\n").as_str());
        out.append("\n.printsize \n");
        out.append(join(&render_all(&self.idbs), "\n").as_str());
        out.append("\n.rule \n");
        out.append(join(&render_all(&self.rules), "\n").as_str());
        out
    }
}

impl Clone for Program {
    fn clone(&self) -> (copy: Self)
        ensures
            copy.deep_view() == self.deep_view(),
    {
        Program {
            edbs: clone_list(&self.edbs),
            idbs: clone_list(&self.idbs),
            rules: clone_list(&self.rules),
        }
    }
}

impl Program {
    pub fn new(edbs: Vec<RelDecl>, idbs: Vec<RelDecl>, rules: Vec<FLRule>) -> (program: Self)
        ensures
            program.deep_view() == (ProgramModel {
                edbs: edbs.deep_view(),
                idbs: idbs.deep_view(),
                rules: rules.deep_view(),
            }),
    {
        Program { edbs, idbs, rules }
    }

    pub fn edbs(&self) -> (edbs: &Vec<RelDecl>)
        ensures
            edbs.deep_view() == self.deep_view().edbs,
    {
        &self.edbs
    }

    pub fn idbs(&self) -> (idbs: &Vec<RelDecl>)
        ensures
            idbs.deep_view() == self.deep_view().idbs,
    {
        &self.idbs
    }

    pub fn rules(&self) -> (rules: &Vec<FLRule>)
        ensures
            rules.deep_view() == self.deep_view().rules,
    {
        &self.rules
    }
}

/// What the declarations inside a node denote.
pub open spec fn rel_decls_reading(node: ParseNode) -> Option<Seq<RelDeclModel>> {
    let inner = node.inner@;
    if exists|i: int| 0 <= i < inner.len() && rel_decl_reading(#[trigger] inner[i]) is None {
        None
    } else {
        Some(Seq::new(inner.len(), |i: int| rel_decl_reading(inner[i])->0))
    }
}

/// What the rules inside a node denote.
pub open spec fn rules_reading(node: ParseNode) -> Option<Seq<FLRuleModel>> {
    let inner = node.inner@;
    if exists|i: int| 0 <= i < inner.len() && rule_reading(#[trigger] inner[i]) is None {
        None
    } else {
        Some(Seq::new(inner.len(), |i: int| rule_reading(inner[i])->0))
    }
}

fn read_rel_decls(node: &ParseNode) -> (value: Option<Vec<RelDecl>>)
    ensures
        value.deep_view() == rel_decls_reading(*node),
{
    let value: Option<Vec<RelDecl>> = read_from(&node.inner, 0);
    assert(value.deep_view() =~~= rel_decls_reading(*node));
    value
}

fn read_rules(node: &ParseNode) -> (value: Option<Vec<FLRule>>)
    ensures
        value.deep_view() == rules_reading(*node),
{
    let value: Option<Vec<FLRule>> = read_from(&node.inner, 0);
    assert(value.deep_view() =~~= rules_reading(*node));
    value
}

/// The program that a sequence of sections denotes. Sections other than
/// declarations and rules are passed over.
pub open spec fn sections_reading(sections: Seq<ParseNode>) -> Option<ProgramModel>
    decreases sections.len(),
{
    if sections.len() == 0 {
        Some(ProgramModel { edbs: Seq::empty(), idbs: Seq::empty(), rules: Seq::empty() })
    } else {
        let section = sections.last();
        match sections_reading(sections.drop_last()) {
            None => None,
            Some(front) => match section.rule {
                Rule::EdbDecl => match rel_decls_reading(section) {
                    Some(more) => Some(ProgramModel { edbs: front.edbs + more, ..front }),
                    None => None,
                },
                Rule::IdbDecl => match rel_decls_reading(section) {
                    Some(more) => Some(ProgramModel { idbs: front.idbs + more, ..front }),
                    None => None,
                },
                Rule::RuleDecl => match rules_reading(section) {
                    Some(more) => Some(ProgramModel { rules: front.rules + more, ..front }),
                    None => None,
                },
                _ => Some(front),
            },
        }
    }
}

proof fn lemma_sections_none(sections: Seq<ParseNode>, n: int)
    requires
        0 <= n <= sections.len(),
        sections_reading(sections.take(n)) is None,
    ensures
        sections_reading(sections) is None,
    decreases sections.len() - n,
{
    broadcast use group_take;

    if n < sections.len() {
        assert(sections.take(n + 1).drop_last() == sections.take(n));
        lemma_sections_none(sections, n + 1);
    }
}

/// What a parse node denotes as a `Program`.
pub open spec fn program_reading(node: ParseNode) -> Option<ProgramModel> {
    sections_reading(node.inner@)
}

impl Lexeme for Program {
    open spec fn readable(node: ParseNode) -> bool {
        program_reading(node) is Some
    }

    open spec fn is_reading_of(&self, node: ParseNode) -> bool {
        program_reading(node) == Some(self.deep_view())
    }

    fn read(node: &ParseNode) -> (value: Option<Self>)
        ensures
            value.deep_view() == program_reading(*node),
            value is Some <==> Self::readable(*node),
            value is Some ==> value->0.is_reading_of(*node),
    {
        broadcast use group_take;

        let mut edbs: Vec<RelDecl> = empty();
        let mut idbs: Vec<RelDecl> = empty();
        let mut rules: Vec<FLRule> = empty();
        let mut i: usize = 0;
        while i < node.inner.len()
            invariant
                i <= node.inner.len(),
                sections_reading(node.inner@.take(i as int)) == Some(
                    ProgramModel {
                        edbs: edbs.deep_view(),
                        idbs: idbs.deep_view(),
                        rules: rules.deep_view(),
                    },
                ),
            decreases node.inner.len() - i,
        {
            let section = &node.inner[i];
            let ghost upto = node.inner@.take(i + 1);
            assert(upto.drop_last() == node.inner@.take(i as int));
            assert(upto.last() == *section);
            match section.rule {
                Rule::EdbDecl => match read_rel_decls(section) {
                    Some(more) => extend(&mut edbs, more),
                    None => {
                        proof {
                            lemma_sections_none(node.inner@, i + 1);
                        }
                        return None;
                    },
                },
                Rule::IdbDecl => match read_rel_decls(section) {
                    Some(more) => extend(&mut idbs, more),
                    None => {
                        proof {
                            lemma_sections_none(node.inner@, i + 1);
                        }
                        return None;
                    },
                },
                Rule::RuleDecl => match read_rules(section) {
                    Some(more) => extend(&mut rules, more),
                    None => {
                        proof {
                            lemma_sections_none(node.inner@, i + 1);
                        }
                        return None;
                    },
                },
                _ => {},
            }
            i += 1;
        }
        Some(Program { edbs, idbs, rules })
    }
}

} // verus!
