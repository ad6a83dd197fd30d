//! Declarations of relations.
use vstd::prelude::*;
use vstd::string::*;
use crate::lists::{clone_list, push};
use crate::parsing::parser::{read_from, Lexeme, ParseNode};
use crate::text::{join, join_text, render_all, same_text, texts, Render, Written};

verus! {

#[derive(Debug, Clone, Copy, PartialEq, Eq, Structural)]
pub enum DataType {
    Integer,
    String,
}

impl DeepView for DataType {
    type V = DataType;

    open spec fn deep_view(&self) -> DataType {
        *self
    }
}

impl Written for DataType {
    open spec fn text(self) -> Seq<char> {
        match self {
            DataType::Integer => "number"@,
            DataType::String => "string"@,
        }
    }
}

impl Render for DataType {
    fn to_string(&self) -> (out: String) {
        let text: &str = match self {
            DataType::Integer => "number",
            DataType::String => "string",
        };
        text.to_owned()
    }
}

/// The type with the given name.
pub open spec fn data_type_named(name: Seq<char>) -> Option<DataType> {
    if name == "number"@ {
        Some(DataType::Integer)
    } else if name == "string"@ {
        Some(DataType::String)
    } else {
        None
    }
}

impl DataType {
    /// The type with the given name, `number` or `string`.
    pub fn named(name: &str) -> (data_type: Option<DataType>)
        ensures
            data_type == data_type_named(name@),
    {
        if same_text(name, "number") {
            Some(DataType::Integer)
        } else if same_text(name, "string") {
            Some(DataType::String)
        } else {
            None
        }
    }
}

/// A name and its type.
#[derive(Debug)]
pub struct Attribute {
    pub name: String,
    pub data_type: DataType,
}

#[verifier::ext_equal]
pub struct AttributeModel {
    pub name: Seq<char>,
    pub data_type: DataType,
}

impl DeepView for Attribute {
    type V = AttributeModel;

    open spec fn deep_view(&self) -> AttributeModel {
        AttributeModel { name: self.name@, data_type: self.data_type }
    }
}

impl Written for AttributeModel {
    open spec fn text(self) -> Seq<char> {
        self.name + ": "@ + self.data_type.text()
    }
}

impl Render for Attribute {
    fn to_string(&self) -> (out: String) {
        let mut out = self.name.clone();
        out.append(": ");
        out.append(self.data_type.to_string().as_str());
        out
    }
}

impl Clone for Attribute {
    fn clone(&self) -> (copy: Self)
        ensures
            copy.deep_view() == self.deep_view(),
    {
        Attribute { name: self.name.clone(), data_type: self.data_type }
    }
}

impl Attribute {
    pub fn data_type(&self) -> (data_type: &DataType)
        ensures
            *data_type == self.deep_view().data_type,
    {
        &self.data_type
    }
}

/// What a parse node denotes as a `Attribute`.
pub open spec fn attribute_reading(node: ParseNode) -> Option<AttributeModel> {
    let inner = node.inner@;
    if inner.len() < 2 {
        None
    } else {
        match data_type_named(inner[1].text@) {
            Some(data_type) => Some(AttributeModel { name: inner[0].text@, data_type }),
            None => None,
        }
    }
}

impl Lexeme for Attribute {
    open spec fn readable(node: ParseNode) -> bool {
        attribute_reading(node) is Some
    }

    open spec fn is_reading_of(&self, node: ParseNode) -> bool {
        attribute_reading(node) == Some(self.deep_view())
    }

    fn read(node: &ParseNode) -> (value: Option<Self>)
        ensures
            value.deep_view() == attribute_reading(*node),
            value is Some <==> Self::readable(*node),
            value is Some ==> value->0.is_reading_of(*node),
    {
        if node.inner.len() < 2 {
            return None;
        }
        match DataType::named(node.inner[1].text.as_str()) {
            Some(data_type) => Some(Attribute { name: node.inner[0].text.clone(), data_type }),
            None => None,
        }
    }
}

/// A relation: its name, its attributes and the file that it is read from.
#[derive(Debug)]
pub struct RelDecl {
    pub name: String,
    pub attributes: Vec<Attribute>,
    pub path: Option<String>,
}

#[verifier::ext_equal]
pub struct RelDeclModel {
    pub name: Seq<char>,
    pub attributes: Seq<AttributeModel>,
    pub path: Option<Seq<char>>,
}

impl DeepView for RelDecl {
    type V = RelDeclModel;

    open spec fn deep_view(&self) -> RelDeclModel {
        RelDeclModel {
            name: self.name@,
            attributes: self.attributes.deep_view(),
            path: self.path.deep_view(),
        }
    }
}

impl Written for RelDeclModel {
    open spec fn text(self) -> Seq<char> {
        let declared = self.name + "("@ + join_text(texts(self.attributes), ", "@) + ")"@;
        match self.path {
            Some(path) => declared + " read as "@ + path,
            None => declared,
        }
    }
}

impl Render for RelDecl {
    fn to_string(&self) -> (out: String) {
        let mut out = self.name.clone();
        out.append("(");
        out.append(join(&render_all(&self.attributes), ", ").as_str());
        out.append(")");
        if let Some(path) = &self.path {
            out.append(" read as ");
            out.append(path.as_str());
        }
        out
    }
}

impl Clone for RelDecl {
    fn clone(&self) -> (copy: Self)
        ensures
            copy.deep_view() == self.deep_view(),
    {
        let path = match &self.path {
            Some(path) => Some(path.clone()),
            None => None,
        };
        RelDecl { name: self.name.clone(), attributes: clone_list(&self.attributes), path }
    }
}

impl RelDecl {
    pub fn push_attr(&mut self, attr: Attribute)
        ensures
            final(self).deep_view() == (RelDeclModel {
                attributes: old(self).deep_view().attributes.push(attr.deep_view()),
                ..old(self).deep_view()
            }),
    {
        push(&mut self.attributes, attr);
    }

    pub fn name(&self) -> (name: &str)
        ensures
            name@ == self.deep_view().name,
    {
        self.name.as_str()
    }

    pub fn attributes(&self) -> (attributes: &Vec<Attribute>)
        ensures
            attributes.deep_view() == self.deep_view().attributes,
    {
        &self.attributes
    }

    pub fn arity(&self) -> (arity: usize)
        ensures
            arity == self.deep_view().attributes.len(),
    {
        self.attributes.len()
    }

    pub fn path(&self) -> (path: Option<String>)
        ensures
            path.deep_view() == self.deep_view().path,
    {
        match &self.path {
            Some(path) => Some(path.clone()),
            None => None,
        }
    }
}

/// What a parse node denotes as a `RelDecl`.
pub open spec fn rel_decl_reading(node: ParseNode) -> Option<RelDeclModel> {
    let inner = node.inner@;
    if inner.len() < 2 {
        None
    } else {
        let attributes = inner[1].inner@;
        if exists|i: int|
            0 <= i < attributes.len() && attribute_reading(#[trigger] attributes[i]) is None {
            None
        } else if inner.len() > 2 && inner[2].inner@.len() == 0 {
            None
        } else {
            Some(
                RelDeclModel {
                    name: inner[0].text@,
                    attributes: Seq::new(
                        attributes.len(),
                        |i: int| attribute_reading(attributes[i])->0,
                    ),
                    path: if inner.len() > 2 {
                        Some(inner[2].inner@[0].text@)
                    } else {
                        None
                    },
                },
            )
        }
    }
}

impl Lexeme for RelDecl {
    open spec fn readable(node: ParseNode) -> bool {
        rel_decl_reading(node) is Some
    }

    open spec fn is_reading_of(&self, node: ParseNode) -> bool {
        rel_decl_reading(node) == Some(self.deep_view())
    }

    fn read(node: &ParseNode) -> (value: Option<Self>)
        ensures
            value.deep_view() == rel_decl_reading(*node),
            value is Some <==> Self::readable(*node),
            value is Some ==> value->0.is_reading_of(*node),
    {
        if node.inner.len() < 2 {
            return None;
        }
        let attributes: Vec<Attribute> = match read_from(&node.inner[1].inner, 0) {
            Some(attributes) => attributes,
            None => return None,
        };
        let path = if node.inner.len() > 2 {
            if node.inner[2].inner.len() == 0 {
                return None;
            }
            Some(node.inner[2].inner[0].text.clone())
        } else {
            None
        };
        let value = Some(RelDecl { name: node.inner[0].text.clone(), attributes, path });
        assert(value.deep_view() =~~= rel_decl_reading(*node));
        value
    }
}

} // verus!
