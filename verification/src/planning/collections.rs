//! Collections of tuples: relations and what is computed from them on the way.
use vstd::prelude::*;
use vstd::string::*;
use crate::catalog::atoms::AtomArgumentSignature;
use crate::catalog::body::var_of;
use crate::catalog::rule::Catalog;
use crate::lists::{clone_list, empty, find, group_take, lookup, push, same_list, Same};
use crate::parsing::rule::FLRuleModel;
use crate::text::{join, join_text, render_all, texts, Render, Written};

verus! {

/// What a collection is: a relation, or the output of a transformation whose
/// name tells how it came about.
#[derive(Debug, Hash)]
pub enum CollectionSignature {
    Atom { name: String },
    UnaryTransformationOutput { name: String },
    JnOutput { name: String },
    NegJnOutput { name: String },
}

#[verifier::ext_equal]
pub enum CollectionSignatureModel {
    Atom { name: Seq<char> },
    UnaryTransformationOutput { name: Seq<char> },
    JnOutput { name: Seq<char> },
    NegJnOutput { name: Seq<char> },
}

impl CollectionSignatureModel {
    pub open spec fn name(self) -> Seq<char> {
        match self {
            CollectionSignatureModel::Atom { name } => name,
            CollectionSignatureModel::UnaryTransformationOutput { name } => name,
            CollectionSignatureModel::JnOutput { name } => name,
            CollectionSignatureModel::NegJnOutput { name } => name,
        }
    }
}

impl DeepView for CollectionSignature {
    type V = CollectionSignatureModel;

    open spec fn deep_view(&self) -> CollectionSignatureModel {
        match self {
            CollectionSignature::Atom { name } => CollectionSignatureModel::Atom { name: name@ },
            CollectionSignature::UnaryTransformationOutput { name } =>
            CollectionSignatureModel::UnaryTransformationOutput { name: name@ },
            CollectionSignature::JnOutput { name } => CollectionSignatureModel::JnOutput {
                name: name@,
            },
            CollectionSignature::NegJnOutput { name } => CollectionSignatureModel::NegJnOutput {
                name: name@,
            },
        }
    }
}

impl Written for CollectionSignatureModel {
    open spec fn text(self) -> Seq<char> {
        self.name()
    }
}

impl Render for CollectionSignature {
    fn to_string(&self) -> (out: String) {
        self.name().to_owned()
    }
}

impl Same for CollectionSignature {
    fn same(&self, other: &Self) -> (same: bool) {
        match (self, other) {
            (CollectionSignature::Atom { name: a }, CollectionSignature::Atom { name: b }) => *a
                == *b,
            (
                CollectionSignature::UnaryTransformationOutput { name: a },
                CollectionSignature::UnaryTransformationOutput { name: b },
            ) => *a == *b,
            (
                CollectionSignature::JnOutput { name: a },
                CollectionSignature::JnOutput { name: b },
            ) => *a == *b,
            (
                CollectionSignature::NegJnOutput { name: a },
                CollectionSignature::NegJnOutput { name: b },
            ) => *a == *b,
            _ => false,
        }
    }
}

impl Clone for CollectionSignature {
    fn clone(&self) -> (copy: Self)
        ensures
            copy.deep_view() == self.deep_view(),
    {
        match self {
            CollectionSignature::Atom { name } => CollectionSignature::Atom { name: name.clone() },
            CollectionSignature::UnaryTransformationOutput { name } =>
            CollectionSignature::UnaryTransformationOutput { name: name.clone() },
            CollectionSignature::JnOutput { name } => CollectionSignature::JnOutput {
                name: name.clone(),
            },
            CollectionSignature::NegJnOutput { name } => CollectionSignature::NegJnOutput {
                name: name.clone(),
            },
        }
    }
}

/// Whether an odd number of bars has been passed.
pub open spec fn inside_bars(s: Seq<char>) -> bool
    decreases s.len(),
{
    if s.len() == 0 {
        false
    } else if s.last() == '|' {
        !inside_bars(s.drop_last())
    } else {
        inside_bars(s.drop_last())
    }
}

/// A text without its bars and without what stands between an odd bar and the next.
pub open spec fn without_flows(s: Seq<char>) -> Seq<char>
    decreases s.len(),
{
    if s.len() == 0 {
        Seq::empty()
    } else {
        let front = without_flows(s.drop_last());
        if s.last() == '|' || inside_bars(s.drop_last()) {
            front
        } else {
            front.push(s.last())
        }
    }
}

impl CollectionSignature {
    /// The signature of a relation.
    pub fn new_atom(name: &str) -> (signature: Self)
        ensures
            signature.deep_view() == (CollectionSignatureModel::Atom { name: name@ }),
    {
        CollectionSignature::Atom { name: name.to_owned() }
    }

    pub fn name(&self) -> (name: &str)
        ensures
            name@ == self.deep_view().name(),
    {
        match self {
            CollectionSignature::Atom { name } => name.as_str(),
            CollectionSignature::UnaryTransformationOutput { name } => name.as_str(),
            CollectionSignature::JnOutput { name } => name.as_str(),
            CollectionSignature::NegJnOutput { name } => name.as_str(),
        }
    }

    /// The name without the descriptions of flows between bars.
    pub fn debug_name(&self) -> (out: String)
        ensures
            out@ == without_flows(self.deep_view().name()),
    {
        broadcast use group_take;

        let name = self.name();
        let len: usize = name.unicode_len();
        let mut out = String::new();
        let mut skip = false;
        let mut i: usize = 0;
        while i < len
            invariant
                i <= len,
                len == name@.len(),
                out@ == without_flows(name@.take(i as int)),
                skip == inside_bars(name@.take(i as int)),
            decreases len - i,
        {
            assert(name@.take(i + 1).drop_last() == name@.take(i as int));
            let c = name.get_char(i);
            if c == '|' {
                skip = !skip;
            } else if !skip {
                let piece = name.substring_char(i, i + 1);
                let ghost before = out@;
                out.append(piece);
                assert(piece@ =~= seq![c]);
                assert(out@ =~= before.push(c));
            }
            i += 1;
        }
        out
    }

    pub fn is_atom(&self) -> (answer: bool)
        ensures
            answer == (self.deep_view() is Atom),
    {
        match self {
            CollectionSignature::Atom { .. } => true,
            _ => false,
        }
    }
}

/// A collection with the rule arguments that its columns hold.
#[derive(Debug)]
pub struct Collection {
    pub signature: CollectionSignature,
    pub key_argument_signatures: Vec<AtomArgumentSignature>,
    pub value_argument_signatures: Vec<AtomArgumentSignature>,
}

#[verifier::ext_equal]
pub struct CollectionModel {
    pub signature: CollectionSignatureModel,
    pub keys: Seq<AtomArgumentSignature>,
    pub values: Seq<AtomArgumentSignature>,
}

impl DeepView for Collection {
    type V = CollectionModel;

    open spec fn deep_view(&self) -> CollectionModel {
        CollectionModel {
            signature: self.signature.deep_view(),
            keys: self.key_argument_signatures.deep_view(),
            values: self.value_argument_signatures.deep_view(),
        }
    }
}

impl Same for Collection {
    fn same(&self, other: &Self) -> (same: bool) {
        self.signature.same(&other.signature) && same_list(
            &self.key_argument_signatures,
            &other.key_argument_signatures,
        ) && same_list(&self.value_argument_signatures, &other.value_argument_signatures)
    }
}

impl Clone for Collection {
    fn clone(&self) -> (copy: Self)
        ensures
            copy.deep_view() == self.deep_view(),
    {
        Collection {
            signature: self.signature.clone(),
            key_argument_signatures: clone_list(&self.key_argument_signatures),
            value_argument_signatures: clone_list(&self.value_argument_signatures),
        }
    }
}

/// A collection written as `name(keys: values)`, or `name(values)` without keys.
pub open spec fn collection_text(collection: CollectionModel) -> Seq<char> {
    if collection.keys.len() > 0 {
        collection.signature.name() + "("@ + join_text(texts(collection.keys), ", "@) + ": "@
            + join_text(texts(collection.values), ", "@) + ")"@
    } else {
        collection.signature.name() + "("@ + join_text(texts(collection.values), ", "@) + ")"@
    }
}

/// The first column that holds each variable.
pub open spec fn first_columns(rule: FLRuleModel, columns: Seq<AtomArgumentSignature>) -> Seq<
    (Seq<char>, AtomArgumentSignature),
>
    decreases columns.len(),
{
    if columns.len() == 0 {
        Seq::empty()
    } else {
        let front = first_columns(rule, columns.drop_last());
        let var = var_of(rule, columns.last())->0;
        if lookup(front, var) is None {
            front.push((var, columns.last()))
        } else {
            front
        }
    }
}

impl Collection {
    pub fn new(
        signature: CollectionSignature,
        key_argument_signatures: &Vec<AtomArgumentSignature>,
        value_argument_signatures: &Vec<AtomArgumentSignature>,
    ) -> (collection: Self)
        ensures
            collection.deep_view() == (CollectionModel {
                signature: signature.deep_view(),
                keys: key_argument_signatures.deep_view(),
                values: value_argument_signatures.deep_view(),
            }),
    {
        Collection {
            signature,
            key_argument_signatures: clone_list(key_argument_signatures),
            value_argument_signatures: clone_list(value_argument_signatures),
        }
    }

    /// The number of key columns and of value columns.
    pub fn arity(&self) -> (arity: (usize, usize))
        ensures
            arity.0 == self.deep_view().keys.len(),
            arity.1 == self.deep_view().values.len(),
    {
        (self.key_argument_signatures.len(), self.value_argument_signatures.len())
    }

    pub fn is_kv(&self) -> (answer: bool)
        ensures
            answer == (self.deep_view().keys.len() > 0),
    {
        self.key_argument_signatures.len() > 0
    }

    pub fn is_k_only(&self) -> (answer: bool)
        ensures
            answer == (self.deep_view().values.len() == 0),
    {
        self.value_argument_signatures.len() == 0
    }

    pub fn signature(&self) -> (signature: &CollectionSignature)
        ensures
            signature.deep_view() == self.deep_view().signature,
    {
        &self.signature
    }

    pub fn kv_argument_signatures(&self) -> (columns: (
        &Vec<AtomArgumentSignature>,
        &Vec<AtomArgumentSignature>,
    ))
        ensures
            columns.0.deep_view() == self.deep_view().keys,
            columns.1.deep_view() == self.deep_view().values,
    {
        (&self.key_argument_signatures, &self.value_argument_signatures)
    }

    pub fn key_argument_signatures(&self) -> (columns: &Vec<AtomArgumentSignature>)
        ensures
            columns.deep_view() == self.deep_view().keys,
    {
        &self.key_argument_signatures
    }

    pub fn value_argument_signatures(&self) -> (columns: &Vec<AtomArgumentSignature>)
        ensures
            columns.deep_view() == self.deep_view().values,
    {
        &self.value_argument_signatures
    }

    /// The collection written out.
    pub fn pprint(&self) -> (out: String)
        ensures
            out@ == collection_text(self.deep_view()),
    {
        let mut out = self.signature.name().to_owned();
        out.append("(");
        if self.is_kv() {
            out.append(join(&render_all(&self.key_argument_signatures), ", ").as_str());
            out.append(": ");
        }
        out.append(join(&render_all(&self.value_argument_signatures), ", ").as_str());
        out.append(")");
        out
    }

    /// The first column that holds each variable.
    pub fn populate_argument_presence_map(&self, catalog: &Catalog) -> (map: Vec<
        (String, AtomArgumentSignature),
    >)
        requires
            catalog.wf(),
            forall|k: int|
                0 <= k < self.deep_view().keys.len() ==> var_of(
                    catalog.rule.deep_view(),
                    #[trigger] self.deep_view().keys[k],
                ) is Some,
            forall|k: int|
                0 <= k < self.deep_view().values.len() ==> var_of(
                    catalog.rule.deep_view(),
                    #[trigger] self.deep_view().values[k],
                ) is Some,
        ensures
            map.deep_view() == first_columns(
                catalog.rule.deep_view(),
                self.deep_view().keys + self.deep_view().values,
            ),
    {
        broadcast use group_take;

        let ghost rule = catalog.rule.deep_view();
        let mut columns = clone_list(&self.key_argument_signatures);
        crate::lists::extend(&mut columns, clone_list(&self.value_argument_signatures));
        let ghost model = columns.deep_view();
        proof {
            let keys = self.deep_view().keys;
            let values = self.deep_view().values;
            assert forall|k: int| 0 <= k < model.len() implies var_of(
                rule,
                #[trigger] model[k],
            ) is Some by {
                if k < keys.len() {
                    assert(model[k] == keys[k]);
                } else {
                    assert(model[k] == values[k - keys.len()]);
                }
            }
        }
        let mut map: Vec<(String, AtomArgumentSignature)> = empty();
        let mut i: usize = 0;
        while i < columns.len()
            invariant
                i <= columns.len(),
                catalog.wf(),
                rule == catalog.rule.deep_view(),
                model == columns.deep_view(),
                forall|k: int| 0 <= k < model.len() ==> var_of(rule, #[trigger] model[k]) is Some,
                map.deep_view() == first_columns(rule, model.take(i as int)),
            decreases columns.len() - i,
        {
            assert(model.take(i + 1).drop_last() == model.take(i as int));
            let column = columns[i];
            assert(model[i as int] == column);
            if let Some(var) = find(&catalog.signature_to_argument_str_map, &column) {
                if find(&map, var).is_none() {
                    push(&mut map, (var.clone(), column));
                }
            }
            i += 1;
        }
        map
    }
}

} // verus!
