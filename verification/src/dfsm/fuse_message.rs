//! File-system operations broadcast through the database state machine.

use vstd::prelude::*;
use vstd::utf8::*;
use crate::wire::WireError;
use crate::dfsm::message::Message;
use crate::dfsm::wire_format::{
    CFuseMessage, CFuseMessageView, CMessageType, cmsg_code, cmsg_of_code, cfuse_bytes, parse_cfuse,
    cfuse_roundtrips, target_bytes, lemma_cfuse_roundtrip, MAX_MESSAGE_SIZE,
};

verus! {

/// File-system operation message.
#[derive(Debug, Clone, PartialEq)]
pub enum FuseMessage {
    /// Create a regular file
    Create { path: String },
    /// Create a directory
    Mkdir { path: String },
    /// Write data to a file
    Write { path: String, offset: u64, data: Vec<u8> },
    /// Delete a file or directory
    Delete { path: String },
    /// Rename/move a file or directory
    Rename { from: String, to: String },
    /// Update modification time (carried in the offset field)
    Mtime { path: String, mtime: u32 },
    /// Request unlock
    UnlockRequest { path: String },
    /// Unlock
    Unlock { path: String },
}

/// Mathematical view of an operation message.
pub enum FuseMessageView {
    Create { path: Seq<char> },
    Mkdir { path: Seq<char> },
    Write { path: Seq<char>, offset: u64, data: Seq<u8> },
    Delete { path: Seq<char> },
    Rename { from: Seq<char>, to: Seq<char> },
    Mtime { path: Seq<char>, mtime: u32 },
    UnlockRequest { path: Seq<char> },
    Unlock { path: Seq<char> },
}

impl View for FuseMessage {
    type V = FuseMessageView;

    open spec fn view(&self) -> FuseMessageView {
        match self {
            FuseMessage::Create { path } => FuseMessageView::Create { path: path@ },
            FuseMessage::Mkdir { path } => FuseMessageView::Mkdir { path: path@ },
            FuseMessage::Write { path, offset, data } => FuseMessageView::Write {
                path: path@,
                offset: *offset,
                data: data@,
            },
            FuseMessage::Delete { path } => FuseMessageView::Delete { path: path@ },
            FuseMessage::Rename { from, to } => FuseMessageView::Rename { from: from@, to: to@ },
            FuseMessage::Mtime { path, mtime } => FuseMessageView::Mtime { path: path@, mtime: *mtime },
            FuseMessage::UnlockRequest { path } => FuseMessageView::UnlockRequest { path: path@ },
            FuseMessage::Unlock { path } => FuseMessageView::Unlock { path: path@ },
        }
    }
}

/// Operation message with only a path.
pub open spec fn path_only(path: Seq<char>) -> CFuseMessageView {
    CFuseMessageView { size: 0, offset: 0, flags: 0, path, to: None, data: Seq::empty() }
}

/// The wire message that carries an operation.
pub open spec fn to_cfuse(v: FuseMessageView) -> CFuseMessageView {
    match v {
        FuseMessageView::Create { path } => path_only(path),
        FuseMessageView::Mkdir { path } => path_only(path),
        FuseMessageView::Write { path, offset, data } => CFuseMessageView {
            size: data.len() as u32,
            offset: offset as u32,
            flags: 0,
            path,
            to: None,
            data,
        },
        FuseMessageView::Delete { path } => path_only(path),
        FuseMessageView::Rename { from, to } => CFuseMessageView {
            size: 0,
            offset: 0,
            flags: 0,
            path: from,
            to: Some(to),
            data: Seq::empty(),
        },
        FuseMessageView::Mtime { path, mtime } => CFuseMessageView {
            size: 0,
            offset: mtime,
            flags: 0,
            path,
            to: None,
            data: Seq::empty(),
        },
        FuseMessageView::UnlockRequest { path } => path_only(path),
        FuseMessageView::Unlock { path } => path_only(path),
    }
}

/// The operation that a wire message of a given kind carries.
pub open spec fn from_cfuse(k: CMessageType, c: CFuseMessageView) -> FuseMessageView {
    match k {
        CMessageType::Create => FuseMessageView::Create { path: c.path },
        CMessageType::Mkdir => FuseMessageView::Mkdir { path: c.path },
        CMessageType::Write => FuseMessageView::Write { path: c.path, offset: c.offset as u64, data: c.data },
        CMessageType::Delete => FuseMessageView::Delete { path: c.path },
        CMessageType::Rename => FuseMessageView::Rename {
            from: c.path,
            to: match c.to {
                Some(t) => t,
                None => Seq::empty(),
            },
        },
        CMessageType::Mtime => FuseMessageView::Mtime { path: c.path, mtime: c.offset },
        CMessageType::UnlockRequest => FuseMessageView::UnlockRequest { path: c.path },
        CMessageType::Unlock => FuseMessageView::Unlock { path: c.path },
    }
}

/// Operation code of an operation.
pub open spec fn fuse_kind(v: FuseMessageView) -> CMessageType {
    match v {
        FuseMessageView::Create { .. } => CMessageType::Create,
        FuseMessageView::Mkdir { .. } => CMessageType::Mkdir,
        FuseMessageView::Write { .. } => CMessageType::Write,
        FuseMessageView::Delete { .. } => CMessageType::Delete,
        FuseMessageView::Rename { .. } => CMessageType::Rename,
        FuseMessageView::Mtime { .. } => CMessageType::Mtime,
        FuseMessageView::UnlockRequest { .. } => CMessageType::UnlockRequest,
        FuseMessageView::Unlock { .. } => CMessageType::Unlock,
    }
}

/// Decoding of an operation payload: the wire message is parsed first, then the type.
pub open spec fn parse_fuse(t: u16, data: Seq<u8>) -> Result<FuseMessageView, WireError> {
    match parse_cfuse(data) {
        Err(e) => Err(e),
        Ok(c) => match cmsg_of_code(t) {
            None => Err(WireError::InvalidMessageType(t)),
            Some(k) => Ok(from_cfuse(k, c)),
        },
    }
}

/// Operations that decode back: strings without NUL characters, an offset and a
/// data length that fit 32 bits, and all lengths within the message limit.
pub open spec fn fuse_roundtrips(v: FuseMessageView) -> bool {
    let c = to_cfuse(v);
    &&& !c.path.contains('\0')
    &&& c.to matches Some(t) ==> !t.contains('\0')
    &&& (v matches FuseMessageView::Write { offset, data, .. } ==> offset <= u32::MAX && data.len() <= u32::MAX)
    &&& encode_utf8(c.path).len() + 1 + target_bytes(c.to).len() + 1 + c.data.len() <= MAX_MESSAGE_SIZE
}

impl FuseMessage {
    fn to_cfuse(&self) -> (r: CFuseMessage)
        ensures
            r@ == to_cfuse(self@),
    {
        match self {
            FuseMessage::Create { path } => CFuseMessage {
                size: 0, offset: 0, flags: 0, path: path.clone(), to: None, data: Vec::new(),
            },
            FuseMessage::Mkdir { path } => CFuseMessage {
                size: 0, offset: 0, flags: 0, path: path.clone(), to: None, data: Vec::new(),
            },
            FuseMessage::Write { path, offset, data } => {
                let d = data.clone();
                assert(d@ =~= data@);
                CFuseMessage {
                    size: data.len() as u32,
                    offset: *offset as u32,
                    flags: 0,
                    path: path.clone(),
                    to: None,
                    data: d,
                }
            },
            FuseMessage::Delete { path } => CFuseMessage {
                size: 0, offset: 0, flags: 0, path: path.clone(), to: None, data: Vec::new(),
            },
            FuseMessage::Rename { from, to } => CFuseMessage {
                size: 0, offset: 0, flags: 0, path: from.clone(), to: Some(to.clone()), data: Vec::new(),
            },
            FuseMessage::Mtime { path, mtime } => CFuseMessage {
                size: 0, offset: *mtime, flags: 0, path: path.clone(), to: None, data: Vec::new(),
            },
            FuseMessage::UnlockRequest { path } => CFuseMessage {
                size: 0, offset: 0, flags: 0, path: path.clone(), to: None, data: Vec::new(),
            },
            FuseMessage::Unlock { path } => CFuseMessage {
                size: 0, offset: 0, flags: 0, path: path.clone(), to: None, data: Vec::new(),
            },
        }
    }
}

impl Message for FuseMessage {
    open spec fn spec_message_type(v: FuseMessageView) -> u16 {
        cmsg_code(fuse_kind(v))
    }

    open spec fn spec_serialize(v: FuseMessageView) -> Seq<u8> {
        cfuse_bytes(to_cfuse(v))
    }

    open spec fn spec_deserialize(message_type: u16, data: Seq<u8>) -> Result<FuseMessageView, WireError> {
        parse_fuse(message_type, data)
    }

    open spec fn spec_roundtrips(v: FuseMessageView) -> bool {
        fuse_roundtrips(v)
    }

    fn message_type(&self) -> (r: u16) {
        match self {
            FuseMessage::Create { .. } => CMessageType::Create.code(),
            FuseMessage::Mkdir { .. } => CMessageType::Mkdir.code(),
            FuseMessage::Write { .. } => CMessageType::Write.code(),
            FuseMessage::Delete { .. } => CMessageType::Delete.code(),
            FuseMessage::Rename { .. } => CMessageType::Rename.code(),
            FuseMessage::Mtime { .. } => CMessageType::Mtime.code(),
            FuseMessage::UnlockRequest { .. } => CMessageType::UnlockRequest.code(),
            FuseMessage::Unlock { .. } => CMessageType::Unlock.code(),
        }
    }

    fn serialize(&self) -> (r: Vec<u8>) {
        self.to_cfuse().serialize()
    }

    fn deserialize(message_type: u16, data: &[u8]) -> (r: Result<FuseMessage, WireError>) {
        let c = match CFuseMessage::parse(data) {
            Ok(c) => c,
            Err(e) => return Err(e),
        };
        let k = match CMessageType::try_from(message_type) {
            Ok(k) => k,
            Err(_) => return Err(WireError::InvalidMessageType(message_type)),
        };
        let CFuseMessage { size: _, offset, flags: _, path, to, data } = c;
        let m = match k {
            CMessageType::Create => FuseMessage::Create { path },
            CMessageType::Mkdir => FuseMessage::Mkdir { path },
            CMessageType::Write => FuseMessage::Write { path, offset: offset as u64, data },
            CMessageType::Delete => FuseMessage::Delete { path },
            CMessageType::Rename => FuseMessage::Rename {
                from: path,
                to: match to {
                    Some(t) => t,
                    None => String::new(),
                },
            },
            CMessageType::Mtime => FuseMessage::Mtime { path, mtime: offset },
            CMessageType::UnlockRequest => FuseMessage::UnlockRequest { path },
            CMessageType::Unlock => FuseMessage::Unlock { path },
        };
        Ok(m)
    }

    proof fn lemma_roundtrip(v: FuseMessageView) {
        let c = to_cfuse(v);
        let c2 = match c.to {
            Some(t) => if t.len() == 0 {
                CFuseMessageView { to: None, ..c }
            } else {
                c
            },
            None => c,
        };
        if let Some(t) = c.to {
            if t.len() == 0 {
                assert(target_bytes(c.to) =~= Seq::<u8>::empty()) by {
                    assert(t =~= Seq::<char>::empty());
                }
            }
        }
        assert(target_bytes(c2.to) == target_bytes(c.to));
        assert(cfuse_bytes(c2) == cfuse_bytes(c));
        if let FuseMessageView::Write { offset, data, .. } = v {
            assert(data.len() as u32 == data.len());
            assert(offset as u32 as u64 == offset);
        }
        assert(cfuse_roundtrips(c2));
        lemma_cfuse_roundtrip(c2);
        assert(parse_cfuse(cfuse_bytes(c)) == Ok::<CFuseMessageView, WireError>(c2));
        assert(cmsg_of_code(cmsg_code(fuse_kind(v))) == Some(fuse_kind(v)));
        if let FuseMessageView::Rename { from, to } = v {
            if to.len() == 0 {
                assert(to =~= Seq::<char>::empty());
            }
        }
        assert(from_cfuse(fuse_kind(v), c2) == v);
    }
}

} // verus!
