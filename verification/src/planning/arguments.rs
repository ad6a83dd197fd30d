//! Where a transformation takes a value from.
use vstd::prelude::*;
use vstd::string::*;
use crate::lists::Same;
use crate::text::{nat_text, usize_to_text, Render, Written};

verus! {

/// A column of the input of a transformation.
#[derive(Debug, Clone, Copy, Hash, PartialEq, Eq)]
pub enum TransformationArgument {
    /// of the key (`false`) or of the value (`true`)
    KV((bool, usize)),
    /// of the left (`false`) or right (`true`) input, of its key or of its value
    Jn((bool, bool, usize)),
}

impl DeepView for TransformationArgument {
    type V = TransformationArgument;

    open spec fn deep_view(&self) -> TransformationArgument {
        *self
    }
}

pub open spec fn bool_text(b: bool) -> Seq<char> {
    if b {
        "true"@
    } else {
        "false"@
    }
}

impl Written for TransformationArgument {
    open spec fn text(self) -> Seq<char> {
        match self {
            TransformationArgument::KV((value, id)) => (if value {
                "[v, "@
            } else {
                "[k, "@
            }) + nat_text(id as nat) + "]"@,
            TransformationArgument::Jn((right, value, id)) => "["@ + bool_text(right) + (if value {
                ", v, "@
            } else {
                ", k, "@
            }) + nat_text(id as nat) + "]"@,
        }
    }
}

impl Render for TransformationArgument {
    fn to_string(&self) -> (out: String) {
        match self {
            TransformationArgument::KV((value, id)) => {
                let mut out = (if *value {
                    "[v, "
                } else {
                    "[k, "
                }).to_owned();
                out.append(usize_to_text(*id).as_str());
                out.append("]");
                out
            },
            TransformationArgument::Jn((right, value, id)) => {
                let mut out = "[".to_owned();
                out.append(if *right {
                    "true"
                } else {
                    "false"
                });
                out.append(if *value {
                    ", v, "
                } else {
                    ", k, "
                });
                out.append(usize_to_text(*id).as_str());
                out.append("]");
                out
            },
        }
    }
}

impl Same for TransformationArgument {
    fn same(&self, other: &TransformationArgument) -> (same: bool) {
        match (self, other) {
            (TransformationArgument::KV(a), TransformationArgument::KV(b)) => a.0 == b.0 && a.1
                == b.1,
            (TransformationArgument::Jn(a), TransformationArgument::Jn(b)) => a.0 == b.0 && a.1
                == b.1 && a.2 == b.2,
            _ => false,
        }
    }
}

/// A column of a join with left and right exchanged; other columns as they are.
pub open spec fn flipped(argument: TransformationArgument) -> TransformationArgument {
    match argument {
        TransformationArgument::Jn((right, value, id)) => TransformationArgument::Jn(
            (!right, value, id),
        ),
        TransformationArgument::KV(_) => argument,
    }
}

impl TransformationArgument {
    pub fn kv_indices(&self) -> (indices: (bool, usize))
        requires
            *self is KV,
        ensures
            *self == TransformationArgument::KV(indices),
    {
        match self {
            TransformationArgument::KV(indices) => *indices,
            TransformationArgument::Jn(_) => vstd::pervasive::unreached(),
        }
    }

    pub fn jn_indices(&self) -> (indices: (bool, bool, usize))
        requires
            *self is Jn,
        ensures
            *self == TransformationArgument::Jn(indices),
    {
        match self {
            TransformationArgument::Jn(indices) => *indices,
            TransformationArgument::KV(_) => vstd::pervasive::unreached(),
        }
    }

    /// The same column with left and right exchanged.
    pub fn jn_flip(&self) -> (out: Self)
        requires
            *self is Jn,
        ensures
            out == flipped(*self),
    {
        match self {
            TransformationArgument::Jn((right, value, id)) => TransformationArgument::Jn(
                (!*right, *value, *id),
            ),
            TransformationArgument::KV(_) => vstd::pervasive::unreached(),
        }
    }
}

/// Exchanging left and right twice changes nothing.
pub proof fn law_flip_twice(argument: TransformationArgument)
    ensures
        flipped(flipped(argument)) == argument,
{
}

} // verus!
