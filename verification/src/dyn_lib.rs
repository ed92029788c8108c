//! Dynamic library loading on platforms that have none.

use vstd::prelude::*;

verus! {

/// Why a dynamic library or one of its symbols cannot be loaded.
#[derive(Debug, Clone, Copy, PartialEq, Eq, Structural)]
pub enum DynLibError {
    /// The platform has no support for loading libraries.
    Unsupported,
}

/// The library handle of platforms that cannot load libraries; none is ever
/// loaded.
#[derive(Debug)]
pub struct UnsupportedDynLib;

/// The symbol handle of platforms that cannot load libraries.
#[derive(Debug)]
pub struct UnsupportedSymbol;

impl UnsupportedDynLib {
    /// Loading a library always fails on such a platform, whatever the path.
    pub fn load(path: &str) -> (r: Result<UnsupportedDynLib, DynLibError>)
        ensures
            r matches Err(e) && e == DynLibError::Unsupported,
    {
        Err(DynLibError::Unsupported)
    }
}

} // verus!
