use vstd::prelude::*;

verus! {

/// A type, by name, as shown in endpoint metadata.
pub struct RctlType {
    pub s: String,
}

/// An argument of an endpoint method: its name and type.
pub struct RctlArgMetadata {
    pub name: String,
    pub ty: RctlType,
}

/// An endpoint method: its arguments and return type.
pub struct RctlMethodMetadata {
    pub args: Vec<RctlArgMetadata>,
    pub ret: RctlType,
}

} // verus!
