use vstd::prelude::*;

verus! {

/// A compiled helper program: the package that holds it and how to start it.
pub struct CachedProgram {
    pub package: String,
    pub prerequisites: Vec<String>,
    /// `argv[0]` is the binary's name inside the package.
    pub argv: Vec<String>,
}

} // verus!
