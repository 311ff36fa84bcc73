//! Error kinds and permission sets shared by the whole engine.

use vstd::prelude::*;

verus! {

/// Every error the engine surfaces to its callers.
///
/// Structural errors (`AddressNotFound`, `AddressesOverlapError`,
/// `IoPluginNotFoundError`, `TooManyFilesError`, `HndlNotFoundError`)
/// report caller misuse of the address space; `UnexpectedEof`,
/// `PermissionDenied` and `Custom` report that the underlying byte
/// source refused or failed.
#[derive(Debug, PartialEq, Eq)]
pub enum IoError {
    /// The requested address is not backed by any descriptor or mapping.
    AddressNotFound,
    /// A placement or mapping collides with an existing one.
    AddressesOverlapError,
    /// No plugin accepts the given URI.
    IoPluginNotFoundError,
    /// Descriptor placement would overflow the 64-bit physical space.
    TooManyFilesError,
    /// No live descriptor carries the given handle.
    HndlNotFoundError,
    /// A read or write runs past the last contiguous descriptor.
    UnexpectedEof,
    /// A write touches a source opened without write permission.
    PermissionDenied,
    /// A source-specific failure, described by its message.
    Custom(String),
}

/// Permission set of an open byte source: any subset of
/// {read, write, copy-on-write}.
#[derive(Debug, Clone, Copy, PartialEq, Eq, Structural)]
pub struct IoMode {
    pub read: bool,
    pub write: bool,
    pub cow: bool,
}

impl IoMode {
    /// True when writes through this source are allowed to mutate its
    /// bytes, be it in place or in a private copy.
    pub open spec fn writeable(self) -> bool {
        self.write || self.cow
    }

    /// Read-only access.
    pub fn read_only() -> (r: IoMode)
        ensures
            r == (IoMode { read: true, write: false, cow: false }),
    {
        IoMode { read: true, write: false, cow: false }
    }

    /// Read and write-through access.
    pub fn read_write() -> (r: IoMode)
        ensures
            r == (IoMode { read: true, write: true, cow: false }),
    {
        IoMode { read: true, write: true, cow: false }
    }

    /// Read access with copy-on-write: writes land in a private copy.
    pub fn read_cow() -> (r: IoMode)
        ensures
            r == (IoMode { read: true, write: false, cow: true }),
    {
        IoMode { read: true, write: false, cow: true }
    }
}

} // verus!
