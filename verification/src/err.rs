use vstd::prelude::*;

verus! {

/// Errors raised while encoding, decoding or streaming messages.
///
/// A `ProcessError` coming out of the read state machine is a protocol
/// error: it is fatal to the connection that produced the bytes.
#[derive(Debug, Clone, Copy, PartialEq, Eq, Structural)]
pub enum ProcessError {
    /// A frame buffer did not have the exact wire size of a frame.
    BadFrameSize,
    /// The frame kind tag byte is not one of the known kinds.
    BadFrameKind,
    /// The declared valid-byte count exceeds the payload area.
    BadByteCount,
    /// The message-kind tag byte is not one of the known kinds.
    BadMsgType,
    /// A metadata frame arrived for a stream id that is already active.
    StreamAlreadyActive,
    /// A data frame arrived for a stream id with no active stream.
    StreamNotFound,
    /// The metadata blob does not fit the payload area of one frame.
    MetaTooLarge,
    /// The metadata blob is not a well-formed encoded `MsgMeta`.
    MetaDecodeFailed,
    /// A declared size does not match the bytes handed to the encoder.
    SizeMismatch,
    /// A header handed to the encoder is not well formed.
    MalformedMeta,
    /// More payload bytes arrived than the metadata declared.
    PayloadOverrun,
    /// A payload-finished frame whose byte count is not the exact remainder.
    PayloadFinishMismatch,
    /// An attachment frame for an index other than the one in progress.
    AttachmentIndexMismatch,
    /// More attachment bytes arrived than the metadata declared.
    AttachmentOverrun,
    /// An attachment-finished frame whose count is not the exact remainder.
    AttachmentFinishMismatch,
    /// A message-finished frame that does not complete the stream exactly.
    FinishMismatch,
    /// A frame kind that is not acceptable in the current stream phase.
    UnexpectedFrame,
    /// The authentication exchange ended without a complete message.
    AuthStreamLayoutIsEmpty,
    /// The first message of a connection is not a well-formed auth
    /// request.
    AuthRejected,
}

} // verus!
