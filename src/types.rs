use vstd::prelude::*;

verus! {

/// A type by its index in the table of declared types. Fields refer to types through
/// such links, so that a type can mention itself, or types declared after it, before it
/// is resolved.
#[derive(Debug, Clone, Copy, PartialEq, Eq, Structural)]
pub struct TypeLink(pub usize);

/// The types the language has built in.
#[derive(Debug, Clone, Copy, PartialEq, Eq, Structural)]
pub enum PrimitiveType {
    F64,
    I64,
}

} // verus!
