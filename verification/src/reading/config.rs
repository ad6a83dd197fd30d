//! Limits on the sizes of rows.
use vstd::prelude::*;

verus! {

/// The greatest arity of a key or a value of fixed size.
pub const KV_MAX: usize = 6;

/// The greatest arity of a row of fixed size.
pub const ROW_MAX: usize = 8;

/// The greatest arity of a side of a product of fixed size.
pub const PROD_MAX: usize = 2;

/// The greatest arity before rows of any size are used.
pub const FALLBACK_ARITY: usize = ROW_MAX;

/// The limits under one name.
pub struct CodegenLimits;

impl CodegenLimits {
    pub const KV_MAX: usize = KV_MAX;

    pub const ROW_MAX: usize = ROW_MAX;

    pub const PROD_MAX: usize = PROD_MAX;

    pub const FALLBACK_ARITY: usize = FALLBACK_ARITY;
}

} // verus!
