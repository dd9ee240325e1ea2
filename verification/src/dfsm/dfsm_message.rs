//! Protocol messages of the distributed state machine and their wire format.
//!
//! Normal messages: `[type: u16][subtype: u16][protocol: u32][time: u32][reserved: u32][count: u64][payload]`.
//! State messages: the same 16-byte base header, the 16-byte sync epoch, then the payload.

use vstd::prelude::*;
use vstd::bytes::*;
use vstd::slice::slice_subrange;
use crate::wire::{WireError, push_u16, push_u32, push_u64, push_bytes, read_u16, read_u32, read_u64, copy_range, lemma_le_roundtrips, view_result};
use crate::clock::unix_time_secs_u32;
use crate::memdb::types::{TreeEntry, TreeEntryView, update_bytes, parse_update, update_roundtrips, lemma_update_roundtrip};
use crate::dfsm::message::Message;
use crate::dfsm::types::{
    DfsmMessageType, SyncEpoch, msg_type_code, msg_type_of_code, epoch_bytes, epoch_of_bytes,
    lemma_epoch_roundtrip,
};

verus! {

/// Protocol version of the messages this node sends.
pub const DEFAULT_PROTOCOL_VERSION: u32 = 1;

/// Protocol message with typed variants.
#[derive(Debug, Clone)]
pub enum DfsmMessage<M: Message> {
    /// Regular application message
    Normal { msg_count: u64, timestamp: u32, protocol_version: u32, message: M },
    /// Start synchronization signal from the leader
    SyncStart { sync_epoch: SyncEpoch },
    /// State data from another node during sync
    State { sync_epoch: SyncEpoch, data: Vec<u8> },
    /// One database entry sent by the leader during sync
    Update { sync_epoch: SyncEpoch, tree_entry: TreeEntry },
    /// End of the leader's updates
    UpdateComplete { sync_epoch: SyncEpoch },
    /// Verification request from the leader
    VerifyRequest { sync_epoch: SyncEpoch, csum_id: u64 },
    /// Verification response with checksum
    Verify { sync_epoch: SyncEpoch, csum_id: u64, checksum: [u8; 32] },
}

/// Mathematical view of a protocol message, over the view `V` of the application message.
pub enum DfsmMessageView<V> {
    Normal { msg_count: u64, timestamp: u32, protocol_version: u32, message: V },
    SyncStart { sync_epoch: SyncEpoch },
    State { sync_epoch: SyncEpoch, data: Seq<u8> },
    Update { sync_epoch: SyncEpoch, tree_entry: TreeEntryView },
    UpdateComplete { sync_epoch: SyncEpoch },
    VerifyRequest { sync_epoch: SyncEpoch, csum_id: u64 },
    Verify { sync_epoch: SyncEpoch, csum_id: u64, checksum: Seq<u8> },
}

impl<M: Message> View for DfsmMessage<M> {
    type V = DfsmMessageView<M::V>;

    open spec fn view(&self) -> DfsmMessageView<M::V> {
        match self {
            DfsmMessage::Normal { msg_count, timestamp, protocol_version, message } => DfsmMessageView::Normal {
                msg_count: *msg_count,
                timestamp: *timestamp,
                protocol_version: *protocol_version,
                message: message@,
            },
            DfsmMessage::SyncStart { sync_epoch } => DfsmMessageView::SyncStart { sync_epoch: *sync_epoch },
            DfsmMessage::State { sync_epoch, data } => DfsmMessageView::State {
                sync_epoch: *sync_epoch,
                data: data@,
            },
            DfsmMessage::Update { sync_epoch, tree_entry } => DfsmMessageView::Update {
                sync_epoch: *sync_epoch,
                tree_entry: tree_entry@,
            },
            DfsmMessage::UpdateComplete { sync_epoch } => DfsmMessageView::UpdateComplete {
                sync_epoch: *sync_epoch,
            },
            DfsmMessage::VerifyRequest { sync_epoch, csum_id } => DfsmMessageView::VerifyRequest {
                sync_epoch: *sync_epoch,
                csum_id: *csum_id,
            },
            DfsmMessage::Verify { sync_epoch, csum_id, checksum } => DfsmMessageView::Verify {
                sync_epoch: *sync_epoch,
                csum_id: *csum_id,
                checksum: checksum@,
            },
        }
    }
}

/// Message type of a protocol message.
pub open spec fn dfsm_type<V>(v: DfsmMessageView<V>) -> DfsmMessageType {
    match v {
        DfsmMessageView::Normal { .. } => DfsmMessageType::Normal,
        DfsmMessageView::SyncStart { .. } => DfsmMessageType::SyncStart,
        DfsmMessageView::State { .. } => DfsmMessageType::State,
        DfsmMessageView::Update { .. } => DfsmMessageType::Update,
        DfsmMessageView::UpdateComplete { .. } => DfsmMessageType::UpdateComplete,
        DfsmMessageView::VerifyRequest { .. } => DfsmMessageType::VerifyRequest,
        DfsmMessageView::Verify { .. } => DfsmMessageType::Verify,
    }
}

/// Sync epoch of a state message (zero for normal messages).
pub open spec fn state_epoch<V>(v: DfsmMessageView<V>) -> SyncEpoch {
    match v {
        DfsmMessageView::Normal { .. } => SyncEpoch { epoch: 0, time: 0, nodeid: 0, pid: 0 },
        DfsmMessageView::SyncStart { sync_epoch } => sync_epoch,
        DfsmMessageView::State { sync_epoch, .. } => sync_epoch,
        DfsmMessageView::Update { sync_epoch, .. } => sync_epoch,
        DfsmMessageView::UpdateComplete { sync_epoch } => sync_epoch,
        DfsmMessageView::VerifyRequest { sync_epoch, .. } => sync_epoch,
        DfsmMessageView::Verify { sync_epoch, .. } => sync_epoch,
    }
}

/// Payload of a state message (empty for normal messages).
pub open spec fn state_payload<V>(v: DfsmMessageView<V>) -> Seq<u8> {
    match v {
        DfsmMessageView::Normal { .. } => Seq::empty(),
        DfsmMessageView::SyncStart { .. } => Seq::empty(),
        DfsmMessageView::State { data, .. } => data,
        DfsmMessageView::Update { tree_entry, .. } => update_bytes(tree_entry),
        DfsmMessageView::UpdateComplete { .. } => Seq::empty(),
        DfsmMessageView::VerifyRequest { csum_id, .. } => spec_u64_to_le_bytes(csum_id),
        DfsmMessageView::Verify { csum_id, checksum, .. } => spec_u64_to_le_bytes(csum_id) + checksum,
    }
}

/// Wire encoding of a protocol message; state messages carry `now` as their time stamp.
pub open spec fn dfsm_bytes<M: Message>(v: DfsmMessageView<M::V>, now: u32) -> Seq<u8> {
    match v {
        DfsmMessageView::Normal { msg_count, timestamp, protocol_version, message } => spec_u16_to_le_bytes(0)
            + spec_u16_to_le_bytes(M::spec_message_type(message)) + spec_u32_to_le_bytes(protocol_version)
            + spec_u32_to_le_bytes(timestamp) + spec_u32_to_le_bytes(0) + spec_u64_to_le_bytes(msg_count)
            + M::spec_serialize(message),
        _ => spec_u16_to_le_bytes(msg_type_code(dfsm_type(v))) + spec_u16_to_le_bytes(0)
            + spec_u32_to_le_bytes(DEFAULT_PROTOCOL_VERSION) + spec_u32_to_le_bytes(now)
            + spec_u32_to_le_bytes(0) + epoch_bytes(state_epoch(v)) + state_payload(v),
    }
}

/// Decoding of the payload of a state message.
pub open spec fn parse_state<V>(t: DfsmMessageType, e: SyncEpoch, p: Seq<u8>) -> Result<DfsmMessageView<V>, WireError> {
    match t {
        DfsmMessageType::Update => match parse_update(p) {
            Err(err) => Err(err),
            Ok(te) => Ok(DfsmMessageView::Update { sync_epoch: e, tree_entry: te }),
        },
        DfsmMessageType::SyncStart => Ok(DfsmMessageView::SyncStart { sync_epoch: e }),
        DfsmMessageType::State => Ok(DfsmMessageView::State { sync_epoch: e, data: p }),
        DfsmMessageType::UpdateComplete => Ok(DfsmMessageView::UpdateComplete { sync_epoch: e }),
        DfsmMessageType::VerifyRequest => if p.len() < 8 {
            Err(WireError::TooShort)
        } else {
            Ok(DfsmMessageView::VerifyRequest { sync_epoch: e, csum_id: spec_u64_from_le_bytes(p.take(8)) })
        },
        DfsmMessageType::Verify => if p.len() < 40 {
            Err(WireError::TooShort)
        } else {
            Ok(
                DfsmMessageView::Verify {
                    sync_epoch: e,
                    csum_id: spec_u64_from_le_bytes(p.take(8)),
                    checksum: p.subrange(8, 40),
                },
            )
        },
        DfsmMessageType::Normal => Err(WireError::InvalidMessageType(0)),
    }
}

/// Decoding of the wire format of a protocol message.
pub open spec fn parse_dfsm<M: Message>(d: Seq<u8>) -> Result<DfsmMessageView<M::V>, WireError> {
    if d.len() < 16 {
        Err(WireError::TooShort)
    } else {
        let t = spec_u16_from_le_bytes(d.subrange(0, 2));
        let subtype = spec_u16_from_le_bytes(d.subrange(2, 4));
        let protocol_version = spec_u32_from_le_bytes(d.subrange(4, 8));
        let timestamp = spec_u32_from_le_bytes(d.subrange(8, 12));
        match msg_type_of_code(t) {
            None => Err(WireError::InvalidMessageType(t)),
            Some(DfsmMessageType::Normal) => if d.len() < 24 {
                Err(WireError::TooShort)
            } else {
                match M::spec_deserialize(subtype, d.skip(24)) {
                    Err(e) => Err(e),
                    Ok(message) => Ok(
                        DfsmMessageView::Normal {
                            msg_count: spec_u64_from_le_bytes(d.subrange(16, 24)),
                            timestamp,
                            protocol_version,
                            message,
                        },
                    ),
                }
            },
            Some(k) => if d.len() < 32 {
                Err(WireError::TooShort)
            } else {
                parse_state(k, epoch_of_bytes(d.subrange(16, 32)), d.skip(32))
            },
        }
    }
}

/// Messages that decode back from their encoding: an application message that decodes
/// back from its own encoding, or a tree entry that the update format carries without
/// loss, or a checksum of 32 bytes.
pub open spec fn dfsm_roundtrips<M: Message>(v: DfsmMessageView<M::V>) -> bool {
    match v {
        DfsmMessageView::Normal { message, .. } => M::spec_deserialize(M::spec_message_type(message), M::spec_serialize(message))
            == Ok::<M::V, WireError>(message),
        DfsmMessageView::Update { tree_entry, .. } => update_roundtrips(tree_entry),
        DfsmMessageView::Verify { checksum, .. } => checksum.len() == 32,
        _ => true,
    }
}

impl<M: Message> DfsmMessage<M> {
    /// Get the message type.
    pub fn message_type(&self) -> (r: DfsmMessageType)
        ensures
            r == dfsm_type(self@),
    {
        match self {
            DfsmMessage::Normal { .. } => DfsmMessageType::Normal,
            DfsmMessage::SyncStart { .. } => DfsmMessageType::SyncStart,
            DfsmMessage::State { .. } => DfsmMessageType::State,
            DfsmMessage::Update { .. } => DfsmMessageType::Update,
            DfsmMessage::UpdateComplete { .. } => DfsmMessageType::UpdateComplete,
            DfsmMessage::VerifyRequest { .. } => DfsmMessageType::VerifyRequest,
            DfsmMessage::Verify { .. } => DfsmMessageType::Verify,
        }
    }

    /// Serialize to the wire format; state messages are stamped with the current time.
    pub fn serialize(&self) -> (r: Vec<u8>)
        ensures
            exists|now: u32| r@ == dfsm_bytes::<M>(self@, now),
            self@ is Normal ==> r@ == dfsm_bytes::<M>(self@, 0),
    {
        let now = unix_time_secs_u32();
        self.serialize_at(now)
    }

    /// Serialize to the wire format, state messages stamped with `now`.
    pub fn serialize_at(&self, now: u32) -> (r: Vec<u8>)
        ensures
            r@ == dfsm_bytes::<M>(self@, now),
    {
        match self {
            DfsmMessage::Normal { msg_count, timestamp, protocol_version, message } => {
                self.serialize_normal_message(*msg_count, *timestamp, *protocol_version, message)
            },
            _ => self.serialize_state_message(now),
        }
    }

    fn serialize_normal_message(&self, msg_count: u64, timestamp: u32, protocol_version: u32, message: &M) -> (r: Vec<u8>)
        requires
            self@ == (DfsmMessageView::<M::V>::Normal { msg_count, timestamp, protocol_version, message: message@ }),
        ensures
            r@ == dfsm_bytes::<M>(self@, 0),
    {
        let msg_type = self.message_type().code();
        let subtype = message.message_type();
        let app_data = message.serialize();
        let mut buf: Vec<u8> = Vec::new();
        push_u16(&mut buf, msg_type);
        push_u16(&mut buf, subtype);
        push_u32(&mut buf, protocol_version);
        push_u32(&mut buf, timestamp);
        push_u32(&mut buf, 0);
        push_u64(&mut buf, msg_count);
        push_bytes(&mut buf, app_data.as_slice());
        assert(buf@ =~= dfsm_bytes::<M>(self@, 0));
        buf
    }

    fn serialize_state_message(&self, now: u32) -> (r: Vec<u8>)
        requires
            !(self@ is Normal),
        ensures
            r@ == dfsm_bytes::<M>(self@, now),
    {
        let msg_type = self.message_type().code();
        let (sync_epoch, payload) = self.extract_epoch_and_payload();
        let mut buf: Vec<u8> = Vec::new();
        push_u16(&mut buf, msg_type);
        push_u16(&mut buf, 0);
        push_u32(&mut buf, DEFAULT_PROTOCOL_VERSION);
        push_u32(&mut buf, now);
        push_u32(&mut buf, 0);
        let eb = sync_epoch.serialize();
        push_bytes(&mut buf, eb.as_slice());
        push_bytes(&mut buf, payload.as_slice());
        assert(buf@ =~= dfsm_bytes::<M>(self@, now));
        buf
    }

    fn extract_epoch_and_payload(&self) -> (r: (SyncEpoch, Vec<u8>))
        requires
            !(self@ is Normal),
        ensures
            r.0 == state_epoch(self@),
            r.1@ == state_payload(self@),
    {
        match self {
            DfsmMessage::Normal { .. } => (SyncEpoch::zero(), Vec::new()),
            DfsmMessage::SyncStart { sync_epoch } => (*sync_epoch, Vec::new()),
            DfsmMessage::State { sync_epoch, data } => {
                let mut d: Vec<u8> = Vec::new();
                push_bytes(&mut d, data.as_slice());
                assert(d@ =~= data@);
                (*sync_epoch, d)
            },
            DfsmMessage::Update { sync_epoch, tree_entry } => (*sync_epoch, tree_entry.serialize_for_update()),
            DfsmMessage::UpdateComplete { sync_epoch } => (*sync_epoch, Vec::new()),
            DfsmMessage::VerifyRequest { sync_epoch, csum_id } => {
                let mut d: Vec<u8> = Vec::new();
                push_u64(&mut d, *csum_id);
                assert(d@ =~= spec_u64_to_le_bytes(*csum_id));
                (*sync_epoch, d)
            },
            DfsmMessage::Verify { sync_epoch, csum_id, checksum } => {
                let mut d: Vec<u8> = Vec::new();
                push_u64(&mut d, *csum_id);
                push_bytes(&mut d, checksum.as_slice());
                assert(d@ =~= spec_u64_to_le_bytes(*csum_id) + checksum@);
                (*sync_epoch, d)
            },
        }
    }

    /// Deserialize from the wire format.
    pub fn deserialize(data: &[u8]) -> (r: Result<DfsmMessage<M>, WireError>)
        ensures
            view_result(r) == parse_dfsm::<M>(data@),
    {
        if data.len() < 16 {
            return Err(WireError::TooShort);
        }
        let msg_type = read_u16(data, 0);
        let subtype = read_u16(data, 2);
        let protocol_version = read_u32(data, 4);
        let timestamp = read_u32(data, 8);
        let dfsm_type = match DfsmMessageType::try_from(msg_type) {
            Ok(t) => t,
            Err(v) => return Err(WireError::InvalidMessageType(v)),
        };
        match dfsm_type {
            DfsmMessageType::Normal => {
                let payload = slice_subrange(data, 16, data.len());
                assert(payload@.len() >= 8 ==> payload@.skip(8) =~= data@.skip(24));
                assert(payload@.len() >= 8 ==> payload@.subrange(0, 8) =~= data@.subrange(16, 24));
                Self::deserialize_normal_message(subtype, protocol_version, timestamp, payload)
            },
            _ => {
                if data.len() < 32 {
                    return Err(WireError::TooShort);
                }
                let sync_epoch = match SyncEpoch::deserialize(slice_subrange(data, 16, 32)) {
                    Ok(e) => e,
                    Err(_) => return Err(WireError::TooShort),
                };
                assert(data@.subrange(16, 32).subrange(0, 4) =~= data@.subrange(16, 20));
                assert(data@.subrange(16, 32).subrange(4, 8) =~= data@.subrange(20, 24));
                assert(data@.subrange(16, 32).subrange(8, 12) =~= data@.subrange(24, 28));
                assert(data@.subrange(16, 32).subrange(12, 16) =~= data@.subrange(28, 32));
                let payload = slice_subrange(data, 32, data.len());
                assert(payload@ =~= data@.skip(32));
                Self::deserialize_state_message(dfsm_type, sync_epoch, payload)
            },
        }
    }

    fn deserialize_normal_message(subtype: u16, protocol_version: u32, timestamp: u32, payload: &[u8]) -> (r: Result<DfsmMessage<M>, WireError>)
        ensures
            view_result(r) == (if payload@.len() < 8 {
                Err(WireError::TooShort)
            } else {
                match M::spec_deserialize(subtype, payload@.skip(8)) {
                    Err(e) => Err(e),
                    Ok(message) => Ok(
                        DfsmMessageView::Normal {
                            msg_count: spec_u64_from_le_bytes(payload@.subrange(0, 8)),
                            timestamp,
                            protocol_version,
                            message,
                        },
                    ),
                }
            }),
    {
        if payload.len() < 8 {
            return Err(WireError::TooShort);
        }
        let msg_count = read_u64(payload, 0);
        let app_data = slice_subrange(payload, 8, payload.len());
        assert(app_data@ =~= payload@.skip(8));
        match M::deserialize(subtype, app_data) {
            Ok(message) => Ok(DfsmMessage::Normal { msg_count, timestamp, protocol_version, message }),
            Err(e) => Err(e),
        }
    }

    fn deserialize_state_message(dfsm_type: DfsmMessageType, sync_epoch: SyncEpoch, payload: &[u8]) -> (r: Result<DfsmMessage<M>, WireError>)
        requires
            dfsm_type != DfsmMessageType::Normal,
        ensures
            view_result(r) == parse_state::<M::V>(dfsm_type, sync_epoch, payload@),
    {
        match dfsm_type {
            DfsmMessageType::Normal => Err(WireError::InvalidMessageType(0)),
            DfsmMessageType::Update => match TreeEntry::deserialize_from_update(payload) {
                Ok(tree_entry) => Ok(DfsmMessage::Update { sync_epoch, tree_entry }),
                Err(e) => Err(e),
            },
            DfsmMessageType::SyncStart => Ok(DfsmMessage::SyncStart { sync_epoch }),
            DfsmMessageType::State => {
                let d = copy_range(payload, 0, payload.len());
                assert(d@ =~= payload@);
                Ok(DfsmMessage::State { sync_epoch, data: d })
            },
            DfsmMessageType::UpdateComplete => Ok(DfsmMessage::UpdateComplete { sync_epoch }),
            DfsmMessageType::VerifyRequest => {
                if payload.len() < 8 {
                    return Err(WireError::TooShort);
                }
                let csum_id = read_u64(payload, 0);
                assert(payload@.subrange(0, 8) =~= payload@.take(8));
                Ok(DfsmMessage::VerifyRequest { sync_epoch, csum_id })
            },
            DfsmMessageType::Verify => {
                if payload.len() < 40 {
                    return Err(WireError::TooShort);
                }
                let csum_id = read_u64(payload, 0);
                assert(payload@.subrange(0, 8) =~= payload@.take(8));
                let p = payload;
                let checksum: [u8; 32] = [
                    p[8], p[9], p[10], p[11], p[12], p[13], p[14], p[15],
                    p[16], p[17], p[18], p[19], p[20], p[21], p[22], p[23],
                    p[24], p[25], p[26], p[27], p[28], p[29], p[30], p[31],
                    p[32], p[33], p[34], p[35], p[36], p[37], p[38], p[39],
                ];
                assert(checksum@ =~= payload@.subrange(8, 40));
                Ok(DfsmMessage::Verify { sync_epoch, csum_id, checksum })
            },
        }
    }

    /// Create a normal message from an application message, stamped with the current time.
    pub fn from_message(msg_count: u64, message: M, protocol_version: u32) -> (r: DfsmMessage<M>)
        ensures
            r matches DfsmMessage::Normal { msg_count: c, protocol_version: p, message: m, .. } && c == msg_count
                && p == protocol_version && m == message,
    {
        let timestamp = unix_time_secs_u32();
        DfsmMessage::Normal { msg_count, timestamp, protocol_version, message }
    }

    /// Create an update message carrying one database entry.
    pub fn from_tree_entry(tree_entry: TreeEntry, sync_epoch: SyncEpoch) -> (r: DfsmMessage<M>)
        ensures
            r == (DfsmMessage::<M>::Update { sync_epoch, tree_entry }),
    {
        DfsmMessage::Update { sync_epoch, tree_entry }
    }
}

/// Decoding the encoding of a protocol message gives it back, whatever time stamp a
/// state message was sent with.
pub proof fn lemma_dfsm_roundtrip<M: Message>(v: DfsmMessageView<M::V>, now: u32)
    requires
        dfsm_roundtrips::<M>(v),
    ensures
        parse_dfsm::<M>(dfsm_bytes::<M>(v, now)) == Ok::<DfsmMessageView<M::V>, WireError>(v),
{
    lemma_le_roundtrips();
    let d = dfsm_bytes::<M>(v, now);
    match v {
        DfsmMessageView::Normal { msg_count, timestamp, protocol_version, message } => {
            assert(d.subrange(0, 2) =~= spec_u16_to_le_bytes(0));
            assert(d.subrange(2, 4) =~= spec_u16_to_le_bytes(M::spec_message_type(message)));
            assert(d.subrange(4, 8) =~= spec_u32_to_le_bytes(protocol_version));
            assert(d.subrange(8, 12) =~= spec_u32_to_le_bytes(timestamp));
            assert(d.subrange(16, 24) =~= spec_u64_to_le_bytes(msg_count));
            assert(d.skip(24) =~= M::spec_serialize(message));
        },
        _ => {
            let e = state_epoch(v);
            let p = state_payload(v);
            lemma_epoch_roundtrip(e, p);
            assert(d.subrange(0, 2) =~= spec_u16_to_le_bytes(msg_type_code(dfsm_type(v))));
            assert(d.subrange(16, 32) =~= epoch_bytes(e));
            assert(d.subrange(16, 32) =~= (epoch_bytes(e) + p).subrange(0, 16));
            assert(epoch_of_bytes(d.subrange(16, 32)) == epoch_of_bytes(epoch_bytes(e) + p)) by {
                let a = d.subrange(16, 32);
                let b = epoch_bytes(e) + p;
                assert(a.subrange(0, 4) =~= b.subrange(0, 4));
                assert(a.subrange(4, 8) =~= b.subrange(4, 8));
                assert(a.subrange(8, 12) =~= b.subrange(8, 12));
                assert(a.subrange(12, 16) =~= b.subrange(12, 16));
            }
            assert(d.skip(32) =~= p);
            match v {
                DfsmMessageView::Update { tree_entry, .. } => {
                    lemma_update_roundtrip(tree_entry);
                },
                DfsmMessageView::VerifyRequest { csum_id, .. } => {
                    assert(p.take(8) =~= spec_u64_to_le_bytes(csum_id));
                },
                DfsmMessageView::Verify { csum_id, checksum, .. } => {
                    assert(p.take(8) =~= spec_u64_to_le_bytes(csum_id));
                    assert(p.subrange(8, 40) =~= checksum);
                },
                _ => {},
            }
        },
    }
}

/// An application message that satisfies its own round-trip law decodes back from a
/// normal protocol message.
pub proof fn lemma_normal_roundtrips<M: Message>(msg_count: u64, timestamp: u32, protocol_version: u32, message: M::V)
    requires
        M::spec_roundtrips(message),
    ensures
        dfsm_roundtrips::<M>(DfsmMessageView::Normal { msg_count, timestamp, protocol_version, message }),
{
    M::lemma_roundtrip(message);
}

} // verus!
