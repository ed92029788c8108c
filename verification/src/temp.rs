//! The platform side of temporary files and directories: where they go by
//! default, and the handle of a created directory.

use vstd::prelude::*;
use crate::naming::push_text;

verus! {

/// Why a temporary path cannot be had.
#[derive(Debug, Clone, Copy, PartialEq, Eq, Structural)]
pub enum TempError {
    /// The platform has no support for temporary paths.
    Unsupported,
}

/// The temporary path support of platforms that have none.
pub struct UnsupportedTemp;

impl UnsupportedTemp {
    /// There is no default temporary path on such a platform.
    pub fn temp_path() -> (r: Result<String, TempError>)
        ensures
            r == Err::<String, TempError>(TempError::Unsupported),
    {
        Err(TempError::Unsupported)
    }
}

/// The directory handle of platforms without temporary directories; none is
/// ever created.
#[derive(Debug)]
pub struct UnsupportedDirectory;

/// The temporary path support of Windows; its default path comes from the
/// system.
pub struct WinApiTemp;

/// The temporary path support of Linux.
pub struct LinuxTemp;

impl LinuxTemp {
    /// The default temporary path on Linux: `/tmp`.
    pub fn temp_path() -> (r: String)
        ensures
            r@ == seq!['/', 't', 'm', 'p'],
    {
        let mut path = String::new();
        path.push('/');
        path.push('t');
        path.push('m');
        path.push('p');
        path
    }
}

/// A temporary directory handle on Linux.
#[derive(Debug)]
pub struct LinuxDirectory {
    path: String,
}

impl LinuxDirectory {
    /// Creates the handle of the directory at the given path.
    pub fn new(path: &str) -> (r: Self)
        ensures
            r.path_chars() == path@,
    {
        let mut p = String::new();
        push_text(&mut p, path);
        LinuxDirectory { path: p }
    }

    /// The path of the directory.
    pub closed spec fn path_chars(&self) -> Seq<char> {
        self.path@
    }

    /// Returns the path of this directory handle.
    pub fn path(&self) -> (r: &str)
        ensures
            r@ == self.path_chars(),
    {
        self.path.as_str()
    }
}

} // verus!
