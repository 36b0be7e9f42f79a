use vstd::prelude::*;

verus! {

/// A failure reported by a custom module: a numeric code, with an optional
/// name and message.
#[derive(Debug, Clone, PartialEq, Eq)]
pub struct CustomModuleError {
    pub code: i32,
    pub name: Option<String>,
    pub message: Option<String>,
}

/// The outcomes of an invocation other than success. No richer detail crosses
/// a module boundary: anything else is encoded as `Custom`.
#[derive(Debug, Clone, PartialEq, Eq)]
pub enum ModuleError {
    UnknownMethod,
    Custom(CustomModuleError),
    Destroyed,
}

/// A malformed topic pattern; `position` is the index, in characters, at which
/// the text stopped being a pattern (the text's length when it ended too early).
#[derive(Debug, Clone, Copy, PartialEq, Eq, Structural)]
pub struct PatternError {
    pub position: usize,
}

#[derive(Debug, Clone, Copy, PartialEq, Eq, Structural)]
pub enum SubscribeError {
    InvalidPattern(PatternError),
}

#[derive(Debug, Clone, Copy, PartialEq, Eq, Structural)]
pub enum RegistryError {
    AlreadyExists,
}

} // verus!
