//! Frames: the fixed-size wire unit, and its byte-exact codec.
//!
//! A frame carries a stream id, a frame kind, an attachment index, a
//! valid-byte count `n`, a precomputed key hash and a message-kind tag, so
//! that hops which only forward never need to parse metadata.  On the wire
//! a frame is `FRAME_SIZE` bytes: a 21-byte header followed by a payload
//! area of `DATA_BUF_SIZE` bytes of which only the first `n` are meaningful.

use vstd::prelude::*;
use crate::err::ProcessError;
use crate::nums::{
    lemma_u16_be_round, lemma_u64_be_round, push_u16_be, push_u64_be, read_u16_be, read_u64_be,
    u16_be, u16_of_be, u64_be, u64_of_be,
};
use crate::vecs::{push_range, push_zeros, vec_copy_range};

verus! {

/// Size in bytes of the payload area of one frame.
pub const DATA_BUF_SIZE: usize = 4096;

/// Size in bytes of the frame header that precedes the payload area.
pub const FRAME_HEADER_SIZE: usize = 21;

/// Total size in bytes of one frame on the wire.
pub const FRAME_SIZE: usize = 21 + 4096;

/// The kind of one frame within its stream.
#[derive(Debug, Clone, Copy, PartialEq, Eq, Structural)]
pub enum FrameKind {
    /// First frame of a stream; its payload area carries the metadata blob.
    MsgMeta,
    /// Payload bytes with more payload to follow.
    PayloadData,
    /// The last payload bytes, with attachments to follow.
    PayloadFinished,
    /// Attachment bytes with more of the same attachment to follow.
    AttachmentData,
    /// The last bytes of an attachment that is not the last attachment.
    AttachmentFinished,
    /// The last frame of the whole message; may piggyback final bytes.
    MessageFinished,
    /// The sender gave up on the stream.
    MessageAborted,
}

/// Whether an RPC response reports success or failure.
#[derive(Debug, Clone, Copy, PartialEq, Eq, Structural)]
pub enum RpcResult {
    Okay,
    Failed,
}

/// The kind of a logical message.
#[derive(Debug, Clone, Copy, PartialEq, Eq, Structural)]
pub enum MsgKind {
    Event,
    RpcRequest,
    RpcResponse(RpcResult),
}

/// Wire tag of a frame kind.
pub open spec fn spec_kind_tag(k: FrameKind) -> u8 {
    match k {
        FrameKind::MsgMeta => 0,
        FrameKind::PayloadData => 1,
        FrameKind::PayloadFinished => 2,
        FrameKind::AttachmentData => 3,
        FrameKind::AttachmentFinished => 4,
        FrameKind::MessageFinished => 5,
        FrameKind::MessageAborted => 6,
    }
}

/// Frame kind of a wire tag, if the tag is known.
pub open spec fn spec_kind_of_tag(t: u8) -> Option<FrameKind> {
    if t == 0 {
        Some(FrameKind::MsgMeta)
    } else if t == 1 {
        Some(FrameKind::PayloadData)
    } else if t == 2 {
        Some(FrameKind::PayloadFinished)
    } else if t == 3 {
        Some(FrameKind::AttachmentData)
    } else if t == 4 {
        Some(FrameKind::AttachmentFinished)
    } else if t == 5 {
        Some(FrameKind::MessageFinished)
    } else if t == 6 {
        Some(FrameKind::MessageAborted)
    } else {
        None
    }
}

pub fn kind_tag(k: FrameKind) -> (r: u8)
    ensures
        r == spec_kind_tag(k),
{
    match k {
        FrameKind::MsgMeta => 0,
        FrameKind::PayloadData => 1,
        FrameKind::PayloadFinished => 2,
        FrameKind::AttachmentData => 3,
        FrameKind::AttachmentFinished => 4,
        FrameKind::MessageFinished => 5,
        FrameKind::MessageAborted => 6,
    }
}

pub fn kind_of_tag(t: u8) -> (r: Option<FrameKind>)
    ensures
        r == spec_kind_of_tag(t),
{
    if t == 0 {
        Some(FrameKind::MsgMeta)
    } else if t == 1 {
        Some(FrameKind::PayloadData)
    } else if t == 2 {
        Some(FrameKind::PayloadFinished)
    } else if t == 3 {
        Some(FrameKind::AttachmentData)
    } else if t == 4 {
        Some(FrameKind::AttachmentFinished)
    } else if t == 5 {
        Some(FrameKind::MessageFinished)
    } else if t == 6 {
        Some(FrameKind::MessageAborted)
    } else {
        None
    }
}

pub proof fn lemma_kind_tag_round(k: FrameKind)
    ensures
        spec_kind_of_tag(spec_kind_tag(k)) == Some(k),
{
}

/// Wire tag of a message kind.
pub open spec fn spec_msg_kind_tag(k: MsgKind) -> u8 {
    match k {
        MsgKind::Event => 0,
        MsgKind::RpcRequest => 1,
        MsgKind::RpcResponse(RpcResult::Okay) => 2,
        MsgKind::RpcResponse(RpcResult::Failed) => 3,
    }
}

/// Message kind of a wire tag, if the tag is known.
pub open spec fn spec_msg_kind_of_tag(t: u8) -> Option<MsgKind> {
    if t == 0 {
        Some(MsgKind::Event)
    } else if t == 1 {
        Some(MsgKind::RpcRequest)
    } else if t == 2 {
        Some(MsgKind::RpcResponse(RpcResult::Okay))
    } else if t == 3 {
        Some(MsgKind::RpcResponse(RpcResult::Failed))
    } else {
        None
    }
}

pub fn msg_kind_tag(k: MsgKind) -> (r: u8)
    ensures
        r == spec_msg_kind_tag(k),
{
    match k {
        MsgKind::Event => 0,
        MsgKind::RpcRequest => 1,
        MsgKind::RpcResponse(RpcResult::Okay) => 2,
        MsgKind::RpcResponse(RpcResult::Failed) => 3,
    }
}

pub fn msg_kind_of_tag(t: u8) -> (r: Option<MsgKind>)
    ensures
        r == spec_msg_kind_of_tag(t),
{
    if t == 0 {
        Some(MsgKind::Event)
    } else if t == 1 {
        Some(MsgKind::RpcRequest)
    } else if t == 2 {
        Some(MsgKind::RpcResponse(RpcResult::Okay))
    } else if t == 3 {
        Some(MsgKind::RpcResponse(RpcResult::Failed))
    } else {
        None
    }
}

pub proof fn lemma_msg_kind_tag_round(k: MsgKind)
    ensures
        spec_msg_kind_of_tag(spec_msg_kind_tag(k)) == Some(k),
{
}

/// Mathematical model of a frame: the header fields and the meaningful
/// bytes of the payload area.
pub struct FrameView {
    pub stream_id: u64,
    pub kind: FrameKind,
    pub att_index: u8,
    pub n: u16,
    pub key_hash: u64,
    pub msg_type_tag: u8,
    pub data: Seq<u8>,
}

/// The unit that travels on the wire.  `data` holds exactly the `n`
/// meaningful bytes; the codec pads the rest of the payload area with
/// zeros.
pub struct Frame {
    pub stream_id: u64,
    pub kind: FrameKind,
    pub att_index: u8,
    pub n: u16,
    pub key_hash: u64,
    pub msg_type_tag: u8,
    pub data: Vec<u8>,
}

impl View for Frame {
    type V = FrameView;

    open spec fn view(&self) -> FrameView {
        FrameView {
            stream_id: self.stream_id,
            kind: self.kind,
            att_index: self.att_index,
            n: self.n,
            key_hash: self.key_hash,
            msg_type_tag: self.msg_type_tag,
            data: self.data@,
        }
    }
}

/// A frame is well formed when its count is within the payload area and
/// matches the bytes it holds.
pub open spec fn wf_frame(f: FrameView) -> bool {
    &&& f.n as int <= DATA_BUF_SIZE as int
    &&& f.data.len() == f.n as int
}

impl Frame {
    /// The message kind carried in the frame's tag byte.
    pub fn get_msg_type(&self) -> (r: Result<MsgKind, ProcessError>)
        ensures
            r == spec_get_msg_type(self@),
    {
        match msg_kind_of_tag(self.msg_type_tag) {
            Some(k) => Ok(k),
            None => Err(ProcessError::BadMsgType),
        }
    }

    /// Deep copy of the frame, for fan-out to several subscribers.
    pub fn duplicate(&self) -> (r: Frame)
        ensures
            r@ == self@,
    {
        let r = Frame {
            stream_id: self.stream_id,
            kind: self.kind,
            att_index: self.att_index,
            n: self.n,
            key_hash: self.key_hash,
            msg_type_tag: self.msg_type_tag,
            data: vec_copy_range(&self.data, 0, self.data.len()),
        };
        assert(r.data@ =~= self.data@);
        r
    }
}

/// Message kind of a frame's tag byte, or the protocol error.
pub open spec fn spec_get_msg_type(f: FrameView) -> Result<MsgKind, ProcessError> {
    match spec_msg_kind_of_tag(f.msg_type_tag) {
        Some(k) => Ok(k),
        None => Err(ProcessError::BadMsgType),
    }
}

/// The exact bytes of a frame on the wire.
pub open spec fn frame_bytes(f: FrameView) -> Seq<u8>
    recommends
        wf_frame(f),
{
    u64_be(f.stream_id) + seq![spec_kind_tag(f.kind)] + seq![f.att_index] + u16_be(f.n) + u64_be(
        f.key_hash,
    ) + seq![f.msg_type_tag] + f.data + Seq::new((DATA_BUF_SIZE - f.data.len()) as nat, |i: int| 0u8)
}

/// Reading a frame back from its wire bytes.
pub open spec fn spec_decode_frame(b: Seq<u8>) -> Result<FrameView, ProcessError> {
    if b.len() != FRAME_SIZE as int {
        Err(ProcessError::BadFrameSize)
    } else {
        match spec_kind_of_tag(b[8]) {
            None => Err(ProcessError::BadFrameKind),
            Some(kind) => {
                let n = u16_of_be(b[10], b[11]);
                if n as int > DATA_BUF_SIZE as int {
                    Err(ProcessError::BadByteCount)
                } else {
                    Ok(
                        FrameView {
                            stream_id: u64_of_be(b.subrange(0, 8)),
                            kind,
                            att_index: b[9],
                            n,
                            key_hash: u64_of_be(b.subrange(12, 20)),
                            msg_type_tag: b[20],
                            data: b.subrange(21, 21 + n as int),
                        },
                    )
                }
            },
        }
    }
}

/// Writes a frame as its `FRAME_SIZE` wire bytes.
pub fn encode_frame(f: &Frame) -> (r: Vec<u8>)
    requires
        wf_frame(f@),
    ensures
        r@ == frame_bytes(f@),
        r@.len() == FRAME_SIZE as int,
{
    let mut out: Vec<u8> = Vec::new();
    push_u64_be(&mut out, f.stream_id);
    out.push(kind_tag(f.kind));
    out.push(f.att_index);
    push_u16_be(&mut out, f.n);
    push_u64_be(&mut out, f.key_hash);
    out.push(f.msg_type_tag);
    let dl = f.data.len();
    push_range(&mut out, &f.data, 0, dl);
    push_zeros(&mut out, DATA_BUF_SIZE - dl);
    proof {
        assert(f.data@.subrange(0, f.data@.len() as int) =~= f.data@);
        assert(out@ =~= frame_bytes(f@));
    }
    out
}

/// Reads a frame from its wire bytes, validating size, kind tag and count.
pub fn decode_frame(b: &Vec<u8>) -> (r: Result<Frame, ProcessError>)
    ensures
        match (r, spec_decode_frame(b@)) {
            (Ok(f), Ok(fv)) => f@ == fv && wf_frame(fv),
            (Err(e), Err(ev)) => e == ev,
            _ => false,
        },
{
    if b.len() != FRAME_SIZE {
        return Err(ProcessError::BadFrameSize);
    }
    let kind = match kind_of_tag(b[8]) {
        Some(k) => k,
        None => {
            return Err(ProcessError::BadFrameKind);
        },
    };
    let n = read_u16_be(b, 10);
    if n as usize > DATA_BUF_SIZE {
        return Err(ProcessError::BadByteCount);
    }
    let f = Frame {
        stream_id: read_u64_be(b, 0),
        kind,
        att_index: b[9],
        n,
        key_hash: read_u64_be(b, 12),
        msg_type_tag: b[20],
        data: vec_copy_range(b, 21, 21 + n as usize),
    };
    Ok(f)
}

/// Decoding inverts encoding: a well-formed frame written to the wire and
/// read back is the same frame.
pub proof fn lemma_frame_round_trip(f: FrameView)
    requires
        wf_frame(f),
    ensures
        spec_decode_frame(frame_bytes(f)) == Ok::<FrameView, ProcessError>(f),
{
    let b = frame_bytes(f);
    assert(b.len() == FRAME_SIZE as int);
    assert(b.subrange(0, 8) =~= u64_be(f.stream_id));
    lemma_u64_be_round(f.stream_id);
    assert(b[8] == spec_kind_tag(f.kind));
    lemma_kind_tag_round(f.kind);
    assert(b[9] == f.att_index);
    assert(b[10] == u16_be(f.n)[0] && b[11] == u16_be(f.n)[1]);
    lemma_u16_be_round(f.n);
    assert(b.subrange(12, 20) =~= u64_be(f.key_hash));
    lemma_u64_be_round(f.key_hash);
    assert(b[20] == f.msg_type_tag);
    assert(b.subrange(21, 21 + f.n as int) =~= f.data);
}

} // verus!
