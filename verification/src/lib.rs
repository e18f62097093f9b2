//! Builds a nested, typed value tree out of flat string key/value pairs,
//! the way an application reads structured configuration from its process
//! environment: a configurable separator decodes hierarchy from key names,
//! values are coerced to scalars, and each decoded path is spliced into one
//! shared result tree.

use vstd::prelude::*;

pub mod chars;
pub mod keypath;
pub mod laws;
pub mod parser;
pub mod scalar;
pub mod splice;
pub mod value;

verus! {

/// Everything that can go wrong while decoding keys and splicing values.
#[derive(Debug, Clone, Copy, PartialEq, Eq, Structural)]
pub enum Error {
    /// A key with a single segment that is purely numeric: it would demand
    /// an array at the root, which is always an object.
    MalformedPath,
    /// A path expects one container kind (object or array) but the tree
    /// already holds another, and the conflict is not resolved by the
    /// overwrite rules.
    ShapeConflict,
    /// A value that looks numeric but has no representable number, such as
    /// a floating-point literal that denotes an infinity or a NaN.
    InvalidScalar,
    /// A key passed the prefix filter yet does not start with the prefix.
    /// Defensive: the filtering below never lets this happen.
    PrefixMismatch,
}

} // verus!
