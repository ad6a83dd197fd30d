//! Positions of atoms and of their arguments in a rule.
use vstd::prelude::*;
use vstd::string::*;
use crate::lists::Same;
use crate::text::{nat_text, usize_to_text, Render, Written};

verus! {

/// An atom of a rule body: positive or negated, and its number among those.
#[derive(Debug, Clone, Copy, Hash, PartialEq, Eq, Structural)]
pub struct AtomSignature {
    pub is_positive: bool,
    pub rhs_id: usize,
}

impl DeepView for AtomSignature {
    type V = AtomSignature;

    open spec fn deep_view(&self) -> AtomSignature {
        *self
    }
}

impl Written for AtomSignature {
    open spec fn text(self) -> Seq<char> {
        if self.is_positive {
            nat_text(self.rhs_id as nat)
        } else {
            "!"@ + nat_text(self.rhs_id as nat)
        }
    }
}

impl Render for AtomSignature {
    fn to_string(&self) -> (out: String) {
        if self.is_positive {
            usize_to_text(self.rhs_id)
        } else {
            let mut out = "!".to_owned();
            out.append(usize_to_text(self.rhs_id).as_str());
            out
        }
    }
}

impl Same for AtomSignature {
    fn same(&self, other: &AtomSignature) -> (same: bool) {
        *self == *other
    }
}

impl AtomSignature {
    pub fn new(is_positive: bool, rhs_id: usize) -> (signature: Self)
        ensures
            signature == (AtomSignature { is_positive, rhs_id }),
    {
        AtomSignature { is_positive, rhs_id }
    }

    pub fn is_positive(&self) -> (answer: bool)
        ensures
            answer == self.is_positive,
    {
        self.is_positive
    }

    pub fn rhs_id(&self) -> (id: usize)
        ensures
            id == self.rhs_id,
    {
        self.rhs_id
    }
}

/// An argument of an atom of a rule body.
#[derive(Debug, Clone, Copy, Hash, PartialEq, Eq, Structural)]
pub struct AtomArgumentSignature {
    pub atom_signature: AtomSignature,
    pub argument_id: usize,
}

impl DeepView for AtomArgumentSignature {
    type V = AtomArgumentSignature;

    open spec fn deep_view(&self) -> AtomArgumentSignature {
        *self
    }
}

impl Written for AtomArgumentSignature {
    open spec fn text(self) -> Seq<char> {
        self.atom_signature.text() + "."@ + nat_text(self.argument_id as nat)
    }
}

impl Render for AtomArgumentSignature {
    fn to_string(&self) -> (out: String) {
        let mut out = self.atom_signature.to_string();
        out.append(".");
        out.append(usize_to_text(self.argument_id).as_str());
        out
    }
}

impl Same for AtomArgumentSignature {
    fn same(&self, other: &AtomArgumentSignature) -> (same: bool) {
        *self == *other
    }
}

impl AtomArgumentSignature {
    pub fn new(atom_signature: AtomSignature, argument_id: usize) -> (signature: Self)
        ensures
            signature == (AtomArgumentSignature { atom_signature, argument_id }),
    {
        AtomArgumentSignature { atom_signature, argument_id }
    }

    pub fn is_positive(&self) -> (answer: bool)
        ensures
            answer == self.atom_signature.is_positive,
    {
        self.atom_signature.is_positive
    }

    pub fn atom_signature(&self) -> (signature: &AtomSignature)
        ensures
            *signature == self.atom_signature,
    {
        &self.atom_signature
    }
}

} // verus!
