//! The ways an operation on a hosts file can fail.

use vstd::prelude::*;

verus! {

#[derive(Debug, Clone, Copy, PartialEq, Eq, Structural)]
pub enum HostsError {
    /// The target path does not exist.
    NotFound,
    /// The target path exists but is not a regular file.
    NotAFile,
    /// Reading an existing file failed.
    ReadFailed,
    /// No mapping record for the domain is present.
    DomainNotFound,
    /// A mapping record for the domain is already present.
    DomainAlreadyExists,
    /// Writing the file was refused for lack of privilege.
    PermissionDenied,
    /// Writing the file failed for another reason.
    WriteFailed,
}

/// Decides whether a path may be read as a hosts file, from whether an entry
/// exists there and whether it is a regular file.
pub fn check_hosts_file(exists: bool, is_file: bool) -> (r: Result<(), HostsError>)
    ensures
        !exists ==> r == Err::<(), HostsError>(HostsError::NotFound),
        exists && !is_file ==> r == Err::<(), HostsError>(HostsError::NotAFile),
        exists && is_file ==> r is Ok,
{
    if !exists {
        Err(HostsError::NotFound)
    } else if !is_file {
        Err(HostsError::NotAFile)
    } else {
        Ok(())
    }
}

/// The error for a failed write, from whether the failure was a refused
/// permission.
pub fn write_error(permission_denied: bool) -> (r: HostsError)
    ensures
        permission_denied ==> r == HostsError::PermissionDenied,
        !permission_denied ==> r == HostsError::WriteFailed,
{
    if permission_denied {
        HostsError::PermissionDenied
    } else {
        HostsError::WriteFailed
    }
}

} // verus!
