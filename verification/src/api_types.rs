//! Types shared across the cluster file system: guest types and entries, cluster members.

use vstd::prelude::*;
use crate::errno::{EACCES, EAGAIN, EEXIST, EFBIG, EINVAL, EIO, EISDIR, ENOENT, ENOSPC, ENOTDIR, ENOTEMPTY, EROFS, ETIMEDOUT};

verus! {

/// Guest types: virtual machines (QEMU) and containers (LXC).
#[derive(Debug, Clone, Copy, PartialEq, Eq, Structural)]
pub enum VmType {
    Qemu,
    Lxc,
}

impl VmType {
    /// Name of the directory holding configuration files of this type.
    pub fn config_dir(&self) -> (r: &'static str)
        ensures
            *self == VmType::Qemu ==> r@ == "qemu-server"@,
            *self == VmType::Lxc ==> r@ == "lxc"@,
    {
        match self {
            VmType::Qemu => "qemu-server",
            VmType::Lxc => "lxc",
        }
    }

    /// Display name of this type.
    pub fn to_string(&self) -> (r: String)
        ensures
            *self == VmType::Qemu ==> r@ == "qemu"@,
            *self == VmType::Lxc ==> r@ == "lxc"@,
    {
        match self {
            VmType::Qemu => "qemu".to_owned(),
            VmType::Lxc => "lxc".to_owned(),
        }
    }
}

/// Guest entry of the guest list.
#[derive(Debug, Clone)]
pub struct VmEntry {
    pub vmid: u32,
    pub vmtype: VmType,
    pub node: String,
    /// Version of the guest's configuration entry (low 32 bits)
    pub version: u32,
}

/// Mathematical view of a guest entry.
pub struct VmEntryView {
    pub vmid: u32,
    pub vmtype: VmType,
    pub node: Seq<char>,
    pub version: u32,
}

impl View for VmEntry {
    type V = VmEntryView;

    open spec fn view(&self) -> VmEntryView {
        VmEntryView { vmid: self.vmid, vmtype: self.vmtype, node: self.node@, version: self.version }
    }
}

/// Information about a cluster member.
#[derive(Debug, Clone, Copy, PartialEq, Eq, Structural)]
pub struct MemberInfo {
    pub node_id: u32,
    pub pid: u32,
    pub joined_at: u64,
}

/// Synchronization state of a node: the state it sent, and whether it is in sync.
#[derive(Debug, Clone)]
pub struct NodeSyncInfo {
    pub node_id: u32,
    pub pid: u32,
    pub state: Option<Vec<u8>>,
    pub synced: bool,
}

/// Mathematical view of a node's synchronization state.
pub struct NodeSyncView {
    pub node_id: u32,
    pub pid: u32,
    pub state: Option<Seq<u8>>,
    pub synced: bool,
}

impl View for NodeSyncInfo {
    type V = NodeSyncView;

    open spec fn view(&self) -> NodeSyncView {
        NodeSyncView {
            node_id: self.node_id,
            pid: self.pid,
            state: match &self.state {
                Some(s) => Some(s@),
                None => None,
            },
            synced: self.synced,
        }
    }
}

/// Errors of filesystem operations; the text of each is given by `to_string`.
#[derive(Debug, Clone, PartialEq, Eq)]
pub enum PmxcfsError {
    /// I/O error, with the operating system's error number when it gave one
    Io(Option<i32>),
    Database(String),
    Fuse(String),
    Cluster(String),
    Corosync(String),
    Configuration(String),
    System(String),
    Ipc(String),
    PermissionDenied,
    NotFound(String),
    AlreadyExists(String),
    InvalidArgument(String),
    NotADirectory(String),
    IsADirectory(String),
    DirectoryNotEmpty(String),
    NoQuorum,
    ReadOnlyFilesystem,
    FileTooLarge,
    FilesystemFull,
    Lock(String),
    Timeout,
    InvalidPath(String),
}

/// Errno of an error as reported to the filesystem layer.
pub open spec fn errno_of(e: PmxcfsError) -> i32 {
    match e {
        PmxcfsError::NotFound(_) => ENOENT,
        PmxcfsError::AlreadyExists(_) => EEXIST,
        PmxcfsError::NotADirectory(_) => ENOTDIR,
        PmxcfsError::IsADirectory(_) => EISDIR,
        PmxcfsError::DirectoryNotEmpty(_) => ENOTEMPTY,
        PmxcfsError::FileTooLarge => EFBIG,
        PmxcfsError::FilesystemFull => ENOSPC,
        PmxcfsError::ReadOnlyFilesystem => EROFS,
        PmxcfsError::PermissionDenied => EACCES,
        PmxcfsError::NoQuorum => EACCES,
        PmxcfsError::InvalidArgument(_) => EINVAL,
        PmxcfsError::InvalidPath(_) => EINVAL,
        PmxcfsError::Lock(_) => EAGAIN,
        PmxcfsError::Timeout => ETIMEDOUT,
        PmxcfsError::Io(Some(n)) => n,
        PmxcfsError::Io(None) => EIO,
        _ => EIO,
    }
}

impl PmxcfsError {
    /// The errno for the filesystem layer: the matching POSIX error, the operating
    /// system's number for I/O errors that carry one, and `EIO` for internal errors.
    pub fn to_errno(&self) -> (r: i32)
        ensures
            r == errno_of(*self),
    {
        match self {
            PmxcfsError::NotFound(_) => ENOENT,
            PmxcfsError::AlreadyExists(_) => EEXIST,
            PmxcfsError::NotADirectory(_) => ENOTDIR,
            PmxcfsError::IsADirectory(_) => EISDIR,
            PmxcfsError::DirectoryNotEmpty(_) => ENOTEMPTY,
            PmxcfsError::FileTooLarge => EFBIG,
            PmxcfsError::FilesystemFull => ENOSPC,
            PmxcfsError::ReadOnlyFilesystem => EROFS,
            PmxcfsError::PermissionDenied => EACCES,
            PmxcfsError::NoQuorum => EACCES,
            PmxcfsError::InvalidArgument(_) => EINVAL,
            PmxcfsError::InvalidPath(_) => EINVAL,
            PmxcfsError::Lock(_) => EAGAIN,
            PmxcfsError::Timeout => ETIMEDOUT,
            PmxcfsError::Io(Some(n)) => *n,
            PmxcfsError::Io(None) => EIO,
            PmxcfsError::Database(_) | PmxcfsError::Fuse(_) | PmxcfsError::Cluster(_) | PmxcfsError::Corosync(_)
            | PmxcfsError::Configuration(_) | PmxcfsError::System(_) | PmxcfsError::Ipc(_) => EIO,
        }
    }
}

} // verus!
