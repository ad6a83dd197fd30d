//! Programs made of named blocks with attributes.
use vstd::prelude::*;
use crate::ordered::Ordered;

verus! {

/// A value that is written down.
#[derive(Debug)]
pub enum HclValue {
    Integer(i32),
    String(String),
    Bool(bool),
}

#[verifier::ext_equal]
pub enum HclValueModel {
    Integer(i32),
    String(Seq<char>),
    Bool(bool),
}

impl DeepView for HclValue {
    type V = HclValueModel;

    open spec fn deep_view(&self) -> HclValueModel {
        match self {
            HclValue::Integer(i) => HclValueModel::Integer(*i),
            HclValue::String(s) => HclValueModel::String(s@),
            HclValue::Bool(b) => HclValueModel::Bool(*b),
        }
    }
}

impl Clone for HclValue {
    fn clone(&self) -> (copy: Self)
        ensures
            copy.deep_view() == self.deep_view(),
    {
        match self {
            HclValue::Integer(i) => HclValue::Integer(*i),
            HclValue::String(s) => HclValue::String(s.clone()),
            HclValue::Bool(b) => HclValue::Bool(*b),
        }
    }
}

/// An attribute of another block.
#[derive(Debug)]
pub struct Reference {
    pub block_type: String,
    pub block_label: String,
    pub field: String,
}

#[verifier::ext_equal]
pub struct ReferenceModel {
    pub block_type: Seq<char>,
    pub block_label: Seq<char>,
    pub field: Seq<char>,
}

impl DeepView for Reference {
    type V = ReferenceModel;

    open spec fn deep_view(&self) -> ReferenceModel {
        ReferenceModel {
            block_type: self.block_type@,
            block_label: self.block_label@,
            field: self.field@,
        }
    }
}

impl Clone for Reference {
    fn clone(&self) -> (copy: Self)
        ensures
            copy.deep_view() == self.deep_view(),
    {
        Reference {
            block_type: self.block_type.clone(),
            block_label: self.block_label.clone(),
            field: self.field.clone(),
        }
    }
}

/// What an attribute is set to.
#[derive(Debug)]
pub enum HclExpr {
    Literal(HclValue),
    Reference(Reference),
    VarRef(String),
}

#[verifier::ext_equal]
pub enum HclExprModel {
    Literal(HclValueModel),
    Reference(ReferenceModel),
    VarRef(Seq<char>),
}

impl DeepView for HclExpr {
    type V = HclExprModel;

    open spec fn deep_view(&self) -> HclExprModel {
        match self {
            HclExpr::Literal(value) => HclExprModel::Literal(value.deep_view()),
            HclExpr::Reference(r) => HclExprModel::Reference(r.deep_view()),
            HclExpr::VarRef(name) => HclExprModel::VarRef(name@),
        }
    }
}

impl Clone for HclExpr {
    fn clone(&self) -> (copy: Self)
        ensures
            copy.deep_view() == self.deep_view(),
    {
        match self {
            HclExpr::Literal(value) => HclExpr::Literal(value.clone()),
            HclExpr::Reference(target) => HclExpr::Reference(target.clone()),
            HclExpr::VarRef(name) => HclExpr::VarRef(name.clone()),
        }
    }
}

/// A block with its attributes.
#[derive(Debug)]
pub struct HclResource {
    pub block_type: String,
    pub label: String,
    pub attributes: Ordered<HclExpr>,
}

#[verifier::ext_equal]
pub struct HclResourceModel {
    pub block_type: Seq<char>,
    pub label: Seq<char>,
    pub attributes: Seq<(Seq<char>, HclExprModel)>,
}

impl HclResourceModel {
    /// What the block is known by.
    pub open spec fn id(self) -> (Seq<char>, Seq<char>) {
        (self.block_type, self.label)
    }
}

impl DeepView for HclResource {
    type V = HclResourceModel;

    open spec fn deep_view(&self) -> HclResourceModel {
        HclResourceModel {
            block_type: self.block_type@,
            label: self.label@,
            attributes: self.attributes.deep_view(),
        }
    }
}

/// Something that is asked for.
#[derive(Debug)]
pub struct HclOutput {
    pub name: String,
    pub value: HclExpr,
}

#[verifier::ext_equal]
pub struct HclOutputModel {
    pub name: Seq<char>,
    pub value: HclExprModel,
}

impl DeepView for HclOutput {
    type V = HclOutputModel;

    open spec fn deep_view(&self) -> HclOutputModel {
        HclOutputModel { name: self.name@, value: self.value.deep_view() }
    }
}

/// A program: variables with their values, blocks, and what is asked for.
#[derive(Debug)]
pub struct HclProgram {
    pub variables: Ordered<HclValue>,
    pub resources: Vec<HclResource>,
    pub outputs: Vec<HclOutput>,
}

#[verifier::ext_equal]
pub struct HclProgramModel {
    pub variables: Seq<(Seq<char>, HclValueModel)>,
    pub resources: Seq<HclResourceModel>,
    pub outputs: Seq<HclOutputModel>,
}

impl DeepView for HclProgram {
    type V = HclProgramModel;

    open spec fn deep_view(&self) -> HclProgramModel {
        HclProgramModel {
            variables: self.variables.deep_view(),
            resources: self.resources.deep_view(),
            outputs: self.outputs.deep_view(),
        }
    }
}

impl HclProgram {
    /// Whether the maps of the program are in order.
    pub open spec fn wf(&self) -> bool {
        &&& self.variables.wf()
        &&& forall|i: int|
            0 <= i < self.resources@.len() ==> (#[trigger] self.resources@[i]).attributes.wf()
    }
}

} // verus!
