//! Operating modes, protocol message types and the synchronization epoch.

use vstd::prelude::*;
use vstd::bytes::*;
use crate::wire::{push_u32, read_u32, lemma_le_roundtrips};

verus! {

/// Operating mode of the state machine. Modes with code 128 or above are error modes.
#[derive(Debug, Clone, Copy, PartialEq, Eq, PartialOrd, Ord, Structural)]
pub enum DfsmMode {
    /// Initial state - starting cluster connection
    Start,
    /// Starting data synchronization
    StartSync,
    /// All data is up to date
    Synced,
    /// Waiting for updates from leader
    Update,
    /// Leaving the cluster
    Leave,
    /// Protocol version mismatch
    VersionError,
    /// Serious internal error
    Error,
}

/// Numeric code of a mode, as used on the wire and for ordering modes.
pub open spec fn mode_code(m: DfsmMode) -> u8 {
    match m {
        DfsmMode::Start => 0,
        DfsmMode::StartSync => 1,
        DfsmMode::Synced => 2,
        DfsmMode::Update => 3,
        DfsmMode::Leave => 253,
        DfsmMode::VersionError => 254,
        DfsmMode::Error => 255,
    }
}

/// Human-readable description of a mode.
pub open spec fn mode_text(x: DfsmMode) -> Seq<char> {
    match x {
        DfsmMode::Start => "start cluster connection"@,
        DfsmMode::StartSync => "starting data synchronization"@,
        DfsmMode::Synced => "all data is up to date"@,
        DfsmMode::Update => "waiting for updates from leader"@,
        DfsmMode::Leave => "leaving cluster"@,
        DfsmMode::VersionError => "protocol version mismatch"@,
        DfsmMode::Error => "serious internal error"@,
    }
}

impl DfsmMode {
    /// Numeric code of this mode.
    pub fn code(&self) -> (r: u8)
        ensures
            r == mode_code(*self),
    {
        match self {
            DfsmMode::Start => 0,
            DfsmMode::StartSync => 1,
            DfsmMode::Synced => 2,
            DfsmMode::Update => 3,
            DfsmMode::Leave => 253,
            DfsmMode::VersionError => 254,
            DfsmMode::Error => 255,
        }
    }

    /// Check if this is an error mode (code >= 128).
    pub fn is_error(&self) -> (r: bool)
        ensures
            r == (mode_code(*self) >= 128),
    {
        self.code() >= 128
    }

    /// Human-readable description of the mode.
    pub fn to_string(&self) -> (r: String)
        ensures
            r@ == mode_text(*self),
    {
        match self {
            DfsmMode::Start => "start cluster connection".to_owned(),
            DfsmMode::StartSync => "starting data synchronization".to_owned(),
            DfsmMode::Synced => "all data is up to date".to_owned(),
            DfsmMode::Update => "waiting for updates from leader".to_owned(),
            DfsmMode::Leave => "leaving cluster".to_owned(),
            DfsmMode::VersionError => "protocol version mismatch".to_owned(),
            DfsmMode::Error => "serious internal error".to_owned(),
        }
    }
}

/// DFSM protocol message types (wire values 0 to 6).
#[derive(Debug, Clone, Copy, PartialEq, Eq, Structural)]
pub enum DfsmMessageType {
    Normal,
    SyncStart,
    State,
    Update,
    UpdateComplete,
    VerifyRequest,
    Verify,
}

/// Wire value of a message type.
pub open spec fn msg_type_code(t: DfsmMessageType) -> u16 {
    match t {
        DfsmMessageType::Normal => 0,
        DfsmMessageType::SyncStart => 1,
        DfsmMessageType::State => 2,
        DfsmMessageType::Update => 3,
        DfsmMessageType::UpdateComplete => 4,
        DfsmMessageType::VerifyRequest => 5,
        DfsmMessageType::Verify => 6,
    }
}

/// Message type of a wire value, if it names one.
pub open spec fn msg_type_of_code(v: u16) -> Option<DfsmMessageType> {
    if v == 0 {
        Some(DfsmMessageType::Normal)
    } else if v == 1 {
        Some(DfsmMessageType::SyncStart)
    } else if v == 2 {
        Some(DfsmMessageType::State)
    } else if v == 3 {
        Some(DfsmMessageType::Update)
    } else if v == 4 {
        Some(DfsmMessageType::UpdateComplete)
    } else if v == 5 {
        Some(DfsmMessageType::VerifyRequest)
    } else if v == 6 {
        Some(DfsmMessageType::Verify)
    } else {
        None
    }
}

impl DfsmMessageType {
    /// Wire value of this message type.
    pub fn code(&self) -> (r: u16)
        ensures
            r == msg_type_code(*self),
    {
        match self {
            DfsmMessageType::Normal => 0,
            DfsmMessageType::SyncStart => 1,
            DfsmMessageType::State => 2,
            DfsmMessageType::Update => 3,
            DfsmMessageType::UpdateComplete => 4,
            DfsmMessageType::VerifyRequest => 5,
            DfsmMessageType::Verify => 6,
        }
    }

    /// Message type of a wire value; the value itself is returned when it names none.
    pub fn try_from(v: u16) -> (r: Result<DfsmMessageType, u16>)
        ensures
            match r {
                Ok(t) => msg_type_of_code(v) == Some(t),
                Err(e) => msg_type_of_code(v) is None && e == v,
            },
    {
        if v == 0 {
            Ok(DfsmMessageType::Normal)
        } else if v == 1 {
            Ok(DfsmMessageType::SyncStart)
        } else if v == 2 {
            Ok(DfsmMessageType::State)
        } else if v == 3 {
            Ok(DfsmMessageType::Update)
        } else if v == 4 {
            Ok(DfsmMessageType::UpdateComplete)
        } else if v == 5 {
            Ok(DfsmMessageType::VerifyRequest)
        } else if v == 6 {
            Ok(DfsmMessageType::Verify)
        } else {
            Err(v)
        }
    }
}

/// Decoding a type's wire value gives the type back.
pub proof fn lemma_msg_type_code_roundtrip(t: DfsmMessageType)
    ensures
        msg_type_of_code(msg_type_code(t)) == Some(t),
{
}

/// Sync epoch - identifies a synchronization session (16 bytes on the wire).
#[derive(Debug, Clone, Copy, PartialEq, Eq, Hash, Structural)]
pub struct SyncEpoch {
    pub epoch: u32,
    pub time: u32,
    pub nodeid: u32,
    pub pid: u32,
}

/// Wire encoding of an epoch: epoch, time, nodeid, pid, each a little-endian u32.
pub open spec fn epoch_bytes(e: SyncEpoch) -> Seq<u8> {
    spec_u32_to_le_bytes(e.epoch) + spec_u32_to_le_bytes(e.time) + spec_u32_to_le_bytes(e.nodeid)
        + spec_u32_to_le_bytes(e.pid)
}

/// The epoch that the first 16 bytes of `b` encode.
pub open spec fn epoch_of_bytes(b: Seq<u8>) -> SyncEpoch {
    SyncEpoch {
        epoch: spec_u32_from_le_bytes(b.subrange(0, 4)),
        time: spec_u32_from_le_bytes(b.subrange(4, 8)),
        nodeid: spec_u32_from_le_bytes(b.subrange(8, 12)),
        pid: spec_u32_from_le_bytes(b.subrange(12, 16)),
    }
}

impl SyncEpoch {
    /// An epoch with all fields zero.
    pub fn zero() -> (r: SyncEpoch)
        ensures
            r == (SyncEpoch { epoch: 0, time: 0, nodeid: 0, pid: 0 }),
    {
        SyncEpoch { epoch: 0, time: 0, nodeid: 0, pid: 0 }
    }

    /// Serialize to the 16-byte wire format.
    pub fn serialize(&self) -> (r: [u8; 16])
        ensures
            r@ == epoch_bytes(*self),
    {
        let a = u32_to_le_bytes(self.epoch);
        let b = u32_to_le_bytes(self.time);
        let c = u32_to_le_bytes(self.nodeid);
        let d = u32_to_le_bytes(self.pid);
        let r = [a[0], a[1], a[2], a[3], b[0], b[1], b[2], b[3], c[0], c[1], c[2], c[3], d[0], d[1], d[2], d[3]];
        assert(r@ =~= epoch_bytes(*self));
        r
    }

    /// Serialize to the 16-byte wire format as a vector.
    pub fn to_bytes(&self) -> (r: Vec<u8>)
        ensures
            r@ == epoch_bytes(*self),
    {
        let mut v = Vec::new();
        push_u32(&mut v, self.epoch);
        push_u32(&mut v, self.time);
        push_u32(&mut v, self.nodeid);
        push_u32(&mut v, self.pid);
        assert(v@ =~= epoch_bytes(*self));
        v
    }

    /// Deserialize from the wire format; fails when fewer than 16 bytes are given.
    pub fn deserialize(bytes: &[u8]) -> (r: Result<SyncEpoch, &'static str>)
        ensures
            bytes@.len() < 16 <==> r is Err,
            r matches Ok(e) ==> e == epoch_of_bytes(bytes@),
    {
        if bytes.len() < 16 {
            return Err("SyncEpoch requires 16 bytes");
        }
        Ok(SyncEpoch {
            epoch: read_u32(bytes, 0),
            time: read_u32(bytes, 4),
            nodeid: read_u32(bytes, 8),
            pid: read_u32(bytes, 12),
        })
    }
}

/// Decoding the encoding of an epoch gives the epoch back, whatever follows it.
pub proof fn lemma_epoch_roundtrip(e: SyncEpoch, rest: Seq<u8>)
    ensures
        epoch_bytes(e).len() == 16,
        epoch_of_bytes(epoch_bytes(e) + rest) == e,
{
    lemma_le_roundtrips();
    let b = epoch_bytes(e) + rest;
    assert(b.subrange(0, 4) =~= spec_u32_to_le_bytes(e.epoch));
    assert(b.subrange(4, 8) =~= spec_u32_to_le_bytes(e.time));
    assert(b.subrange(8, 12) =~= spec_u32_to_le_bytes(e.nodeid));
    assert(b.subrange(12, 16) =~= spec_u32_to_le_bytes(e.pid));
}

} // verus!
