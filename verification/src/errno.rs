//! Linux errno values the library reports.

use vstd::prelude::*;

verus! {

/// Operation not permitted.
pub const EPERM: i32 = 1;

/// No such file or directory.
pub const ENOENT: i32 = 2;

/// Input/output error.
pub const EIO: i32 = 5;

/// Resource temporarily unavailable.
pub const EAGAIN: i32 = 11;

/// Permission denied.
pub const EACCES: i32 = 13;

/// File exists.
pub const EEXIST: i32 = 17;

/// Not a directory.
pub const ENOTDIR: i32 = 20;

/// Is a directory.
pub const EISDIR: i32 = 21;

/// Invalid argument.
pub const EINVAL: i32 = 22;

/// File too large.
pub const EFBIG: i32 = 27;

/// No space left on device.
pub const ENOSPC: i32 = 28;

/// Read-only file system.
pub const EROFS: i32 = 30;

/// Directory not empty.
pub const ENOTEMPTY: i32 = 39;

/// Connection timed out.
pub const ETIMEDOUT: i32 = 110;

} // verus!
