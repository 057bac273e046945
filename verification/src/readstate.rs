//! The per-connection read state machine.
//!
//! Fed one frame at a time, it tracks for every active stream how many
//! payload bytes remain and how far through the declared attachments the
//! stream has come, and turns frames into logical read events.  Any
//! sequence the rules refuse is a protocol error, fatal to the
//! connection that produced it.

use vstd::prelude::*;
use std::collections::HashMap;
use crate::err::ProcessError;
use crate::frame::{spec_msg_kind_tag, wf_frame, Frame, FrameKind, FrameView};
use crate::meta::{MsgMeta, MetaView};
use crate::metajson::{parse_meta, spec_parse_meta};
use crate::nums::{read_u32_be, u32_of_be};
use crate::vecs::vec_copy_range;

verus! {

broadcast use vstd::std_specs::hash::group_hash_axioms;

/// Progress of one active stream: the decoded header, the payload bytes
/// still owed, and the attachment in progress with its remaining bytes.
pub struct StreamSt {
    pub meta: MsgMeta,
    pub payload_rem: u64,
    pub att_idx: usize,
    pub att_rem: u64,
}

/// Model of one active stream's progress.
pub struct StreamStView {
    pub meta: MetaView,
    pub payload_rem: u64,
    pub att_idx: int,
    pub att_rem: u64,
}

impl View for StreamSt {
    type V = StreamStView;

    open spec fn view(&self) -> StreamStView {
        StreamStView {
            meta: self.meta@,
            payload_rem: self.payload_rem,
            att_idx: self.att_idx as int,
            att_rem: self.att_rem,
        }
    }
}

/// Which bytes a finished message's last frame piggybacked.
pub enum MessageFinishBytes {
    Payload(u16, Vec<u8>),
    Attachment(u8, u16, Vec<u8>),
}

/// Model of the piggybacked final bytes.
pub enum FinishBytesView {
    Payload(u16, Seq<u8>),
    Attachment(u8, u16, Seq<u8>),
}

impl View for MessageFinishBytes {
    type V = FinishBytesView;

    open spec fn view(&self) -> FinishBytesView {
        match self {
            MessageFinishBytes::Payload(n, b) => FinishBytesView::Payload(*n, b@),
            MessageFinishBytes::Attachment(i, n, b) => FinishBytesView::Attachment(*i, *n, b@),
        }
    }
}

/// A logical read event produced by the state machine.
pub enum ReadResult {
    /// First frame of a stream: its decoded header and the raw blob.
    MsgMeta(u64, MsgMeta, Vec<u8>),
    /// Payload bytes with more payload to follow.
    PayloadData(u64, u16, Vec<u8>),
    /// The last payload bytes.
    PayloadFinished(u64, u16, Vec<u8>),
    /// Bytes of the attachment named by the index.
    AttachmentData(u64, u8, u16, Vec<u8>),
    /// The last bytes of that attachment.
    AttachmentFinished(u64, u8, u16, Vec<u8>),
    /// The stream is complete; carries the piggybacked final bytes.
    MessageFinished(u64, MessageFinishBytes),
    /// The sender gave up on the stream (if it was known).
    MessageAborted(Option<u64>),
}

/// Model of a read event.
pub enum EventView {
    MsgMeta(u64, MetaView, Seq<u8>),
    PayloadData(u64, u16, Seq<u8>),
    PayloadFinished(u64, u16, Seq<u8>),
    AttachmentData(u64, u8, u16, Seq<u8>),
    AttachmentFinished(u64, u8, u16, Seq<u8>),
    MessageFinished(u64, FinishBytesView),
    MessageAborted(Option<u64>),
}

impl View for ReadResult {
    type V = EventView;

    open spec fn view(&self) -> EventView {
        match self {
            ReadResult::MsgMeta(sid, m, b) => EventView::MsgMeta(*sid, m@, b@),
            ReadResult::PayloadData(sid, n, b) => EventView::PayloadData(*sid, *n, b@),
            ReadResult::PayloadFinished(sid, n, b) => EventView::PayloadFinished(*sid, *n, b@),
            ReadResult::AttachmentData(sid, i, n, b) => EventView::AttachmentData(
                *sid,
                *i,
                *n,
                b@,
            ),
            ReadResult::AttachmentFinished(sid, i, n, b) => EventView::AttachmentFinished(
                *sid,
                *i,
                *n,
                b@,
            ),
            ReadResult::MessageFinished(sid, f) => EventView::MessageFinished(*sid, f@),
            ReadResult::MessageAborted(sid) => EventView::MessageAborted(*sid),
        }
    }
}

/// The view of a vector of events.
pub open spec fn events_view(v: Seq<ReadResult>) -> Seq<EventView> {
    v.map_values(|e: ReadResult| e@)
}

/// The stream state right after a header is accepted.
pub open spec fn fresh_stream(m: MetaView) -> StreamStView {
    StreamStView {
        meta: m,
        payload_rem: m.payload_size,
        att_idx: 0,
        att_rem: if m.attachments.len() > 0 {
            m.attachments[0].size
        } else {
            0
        },
    }
}

/// The metadata blob carried by a header frame: parsed when it is a
/// 4-byte length prefix that covers the rest exactly, followed by the
/// canonical rendering of a header.
pub open spec fn spec_parse_blob(blob: Seq<u8>) -> Option<MetaView> {
    if blob.len() < 4 {
        None
    } else if 4 + u32_of_be(blob[0], blob[1], blob[2], blob[3]) as int != blob.len() {
        None
    } else {
        spec_parse_meta(blob.skip(4))
    }
}

/// One transition of the read state machine: the new state and the
/// events emitted, or the protocol error that kills the connection.
pub open spec fn spec_step(st: Map<u64, StreamStView>, f: FrameView) -> Result<
    (Map<u64, StreamStView>, Seq<EventView>),
    ProcessError,
> {
    let sid = f.stream_id;
    match f.kind {
        FrameKind::MsgMeta => {
            if st.contains_key(sid) {
                Err(ProcessError::StreamAlreadyActive)
            } else {
                match spec_parse_blob(f.data) {
                    None => Err(ProcessError::MetaDecodeFailed),
                    Some(m) => if f.msg_type_tag != spec_msg_kind_tag(m.kind) {
                        Err(ProcessError::BadMsgType)
                    } else {
                        Ok(
                            (
                                st.insert(sid, fresh_stream(m)),
                                seq![EventView::MsgMeta(sid, m, f.data)],
                            ),
                        )
                    },
                }
            }
        },
        FrameKind::PayloadData => {
            if !st.contains_key(sid) {
                Err(ProcessError::StreamNotFound)
            } else {
                let s = st[sid];
                if s.payload_rem < f.n as u64 {
                    Err(ProcessError::PayloadOverrun)
                } else {
                    Ok(
                        (
                            st.insert(
                                sid,
                                StreamStView {
                                    payload_rem: (s.payload_rem - f.n as u64) as u64,
                                    ..s
                                },
                            ),
                            seq![EventView::PayloadData(sid, f.n, f.data)],
                        ),
                    )
                }
            }
        },
        FrameKind::PayloadFinished => {
            if !st.contains_key(sid) {
                Err(ProcessError::StreamNotFound)
            } else {
                let s = st[sid];
                if s.payload_rem == 0 {
                    Err(ProcessError::UnexpectedFrame)
                } else if s.payload_rem != f.n as u64 {
                    Err(ProcessError::PayloadFinishMismatch)
                } else if s.meta.attachments.len() == 0 {
                    Ok(
                        (
                            st.remove(sid),
                            seq![
                                EventView::PayloadFinished(sid, f.n, f.data),
                                EventView::MessageFinished(
                                    sid,
                                    FinishBytesView::Payload(0, Seq::empty()),
                                ),
                            ],
                        ),
                    )
                } else {
                    Ok(
                        (
                            st.insert(sid, StreamStView { payload_rem: 0, ..s }),
                            seq![EventView::PayloadFinished(sid, f.n, f.data)],
                        ),
                    )
                }
            }
        },
        FrameKind::AttachmentData => {
            if !st.contains_key(sid) {
                Err(ProcessError::StreamNotFound)
            } else {
                let s = st[sid];
                if s.payload_rem != 0 {
                    Err(ProcessError::UnexpectedFrame)
                } else if s.att_idx >= s.meta.attachments.len() {
                    Err(ProcessError::UnexpectedFrame)
                } else if f.att_index as int != s.att_idx {
                    Err(ProcessError::AttachmentIndexMismatch)
                } else if s.att_rem < f.n as u64 {
                    Err(ProcessError::AttachmentOverrun)
                } else {
                    Ok(
                        (
                            st.insert(
                                sid,
                                StreamStView { att_rem: (s.att_rem - f.n as u64) as u64, ..s },
                            ),
                            seq![EventView::AttachmentData(sid, f.att_index, f.n, f.data)],
                        ),
                    )
                }
            }
        },
        FrameKind::AttachmentFinished => {
            if !st.contains_key(sid) {
                Err(ProcessError::StreamNotFound)
            } else {
                let s = st[sid];
                if s.payload_rem != 0 {
                    Err(ProcessError::UnexpectedFrame)
                } else if s.att_idx >= s.meta.attachments.len() {
                    Err(ProcessError::UnexpectedFrame)
                } else if f.att_index as int != s.att_idx {
                    Err(ProcessError::AttachmentIndexMismatch)
                } else if s.att_rem != f.n as u64 {
                    Err(ProcessError::AttachmentFinishMismatch)
                } else if s.att_idx + 1 == s.meta.attachments.len() {
                    Ok(
                        (
                            st.remove(sid),
                            seq![
                                EventView::AttachmentFinished(sid, f.att_index, f.n, f.data),
                                EventView::MessageFinished(
                                    sid,
                                    FinishBytesView::Attachment(f.att_index, 0, Seq::empty()),
                                ),
                            ],
                        ),
                    )
                } else {
                    Ok(
                        (
                            st.insert(
                                sid,
                                StreamStView {
                                    att_idx: s.att_idx + 1,
                                    att_rem: s.meta.attachments[s.att_idx + 1].size,
                                    ..s
                                },
                            ),
                            seq![EventView::AttachmentFinished(sid, f.att_index, f.n, f.data)],
                        ),
                    )
                }
            }
        },
        FrameKind::MessageFinished => {
            if !st.contains_key(sid) {
                Err(ProcessError::StreamNotFound)
            } else {
                let s = st[sid];
                if s.meta.attachments.len() == 0 {
                    if s.payload_rem != f.n as u64 {
                        Err(ProcessError::FinishMismatch)
                    } else {
                        Ok(
                            (
                                st.remove(sid),
                                seq![
                                    EventView::MessageFinished(
                                        sid,
                                        FinishBytesView::Payload(f.n, f.data),
                                    ),
                                ],
                            ),
                        )
                    }
                } else {
                    if s.payload_rem != 0 || s.att_idx + 1 != s.meta.attachments.len()
                        || f.att_index as int != s.att_idx || s.att_rem != f.n as u64 {
                        Err(ProcessError::FinishMismatch)
                    } else {
                        Ok(
                            (
                                st.remove(sid),
                                seq![
                                    EventView::MessageFinished(
                                        sid,
                                        FinishBytesView::Attachment(f.att_index, f.n, f.data),
                                    ),
                                ],
                            ),
                        )
                    }
                }
            }
        },
        FrameKind::MessageAborted => {
            if st.contains_key(sid) {
                Ok((st.remove(sid), seq![EventView::MessageAborted(Some(sid))]))
            } else {
                Ok((st, seq![EventView::MessageAborted(None)]))
            }
        },
    }
}

/// The read state of one connection: every active stream's progress.
pub struct ReadState {
    pub streams: HashMap<u64, StreamSt>,
}

impl View for ReadState {
    type V = Map<u64, StreamStView>;

    open spec fn view(&self) -> Map<u64, StreamStView> {
        Map::new(|sid: u64| self.streams@.contains_key(sid), |sid: u64| self.streams@[sid]@)
    }
}

impl ReadState {
    /// A connection starts with no active streams.
    pub fn new() -> (r: ReadState)
        ensures
            r@ == Map::<u64, StreamStView>::empty(),
    {
        let r = ReadState { streams: HashMap::new() };
        proof {
            assert(r@ =~= Map::<u64, StreamStView>::empty());
        }
        r
    }

    /// Drops all per-stream state, as a broker does when a connection's
    /// read side errors and the participant must start afresh.
    pub fn clear(&mut self)
        ensures
            final(self)@ == Map::<u64, StreamStView>::empty(),
    {
        self.streams = HashMap::new();
        proof {
            assert(self@ =~= Map::<u64, StreamStView>::empty());
        }
    }

    /// Feeds one frame to the machine, mirroring `spec_step` exactly:
    /// the same events come out and the same streams stay active; on a
    /// protocol error the state is unchanged and the caller must fail
    /// the connection.
    /// Feeds one frame to the machine, mirroring `spec_step` exactly:
    /// the same events come out and the same streams stay active; on a
    /// protocol error the state is unchanged and the caller must fail
    /// the connection.
    pub fn push_frame(&mut self, f: &Frame) -> (r: Result<Vec<ReadResult>, ProcessError>)
        requires
            wf_frame(f@),
        ensures
            match (r, spec_step(old(self)@, f@)) {
                (Ok(evs), Ok((st2, evs2))) => final(self)@ == st2 && events_view(evs@) == evs2,
                (Err(e), Err(e2)) => e == e2 && final(self)@ == old(self)@,
                _ => false,
            },
    {
        match f.kind {
            FrameKind::MsgMeta => self.on_msg_meta(f),
            FrameKind::PayloadData => self.on_payload_data(f),
            FrameKind::PayloadFinished => self.on_payload_finished(f),
            FrameKind::AttachmentData => self.on_attachment_data(f),
            FrameKind::AttachmentFinished => self.on_attachment_finished(f),
            FrameKind::MessageFinished => self.on_message_finished(f),
            FrameKind::MessageAborted => self.on_message_aborted(f),
        }
    }

    #[verifier::rlimit(100)]
    fn on_msg_meta(&mut self, f: &Frame) -> (r: Result<Vec<ReadResult>, ProcessError>)
        requires
            wf_frame(f@),
            f@.kind == FrameKind::MsgMeta,
        ensures
            match (r, spec_step(old(self)@, f@)) {
                (Ok(evs), Ok((st2, evs2))) => final(self)@ == st2 && events_view(evs@) == evs2,
                (Err(e), Err(e2)) => e == e2 && final(self)@ == old(self)@,
                _ => false,
            },
    {
        let sid = f.stream_id;
        if self.streams.contains_key(&sid) {
            assert(self@.contains_key(sid));
            return Err(ProcessError::StreamAlreadyActive);
        }
        assert(!self@.contains_key(sid));
        let blob = vec_copy_range(&f.data, 0, f.data.len());
        assert(blob@ =~= f.data@);
        if blob.len() < 4 {
            return Err(ProcessError::MetaDecodeFailed);
        }
        let declared = read_u32_be(&blob, 0);
        if !(4 <= blob.len() && declared as usize == blob.len() - 4) {
            return Err(ProcessError::MetaDecodeFailed);
        }
        let body = vec_copy_range(&blob, 4, blob.len());
        assert(body@ =~= f.data@.skip(4));
        let m = match parse_meta(&body) {
            Ok(m) => m,
            Err(_) => {
                return Err(ProcessError::MetaDecodeFailed);
            },
        };
        let tag = crate::frame::msg_kind_tag(m.kind);
        if f.msg_type_tag != tag {
            return Err(ProcessError::BadMsgType);
        }
        let att_rem: u64 = if m.attachments.len() > 0 {
            m.attachments[0].size
        } else {
            0
        };
        let payload_rem = m.payload_size;
        let ghost mv = m@;
        let st = StreamSt { meta: m.duplicate(), payload_rem, att_idx: 0, att_rem };
        let ev = ReadResult::MsgMeta(sid, m, blob);
        assert(st@ == fresh_stream(mv));
        self.streams.insert(sid, st);
        proof {
            assert(self@ =~= old(self)@.insert(sid, fresh_stream(mv)));
            assert(events_view(seq![ev]) =~= seq![EventView::MsgMeta(sid, mv, f.data@)]);
        }
        let mut out: Vec<ReadResult> = Vec::new();
        out.push(ev);
        assert(events_view(out@) =~= seq![EventView::MsgMeta(sid, mv, f.data@)]);
        Ok(out)
    }

    #[verifier::rlimit(100)]
    fn on_payload_data(&mut self, f: &Frame) -> (r: Result<Vec<ReadResult>, ProcessError>)
        requires
            wf_frame(f@),
            f@.kind == FrameKind::PayloadData,
        ensures
            match (r, spec_step(old(self)@, f@)) {
                (Ok(evs), Ok((st2, evs2))) => final(self)@ == st2 && events_view(evs@) == evs2,
                (Err(e), Err(e2)) => e == e2 && final(self)@ == old(self)@,
                _ => false,
            },
    {
        let sid = f.stream_id;
        let s = match self.streams.remove(&sid) {
            Some(s) => s,
            None => {
                assert(!self@.contains_key(sid));
                proof {
                    assert(self@ =~= old(self)@);
                }
                return Err(ProcessError::StreamNotFound);
            },
        };
        let ghost sv = s@;
        assert(old(self)@.contains_key(sid) && old(self)@[sid] == sv);
        if s.payload_rem < f.n as u64 {
            self.streams.insert(sid, s);
            proof {
                assert(self@ =~= old(self)@);
            }
            return Err(ProcessError::PayloadOverrun);
        }
        let s2 = StreamSt { payload_rem: s.payload_rem - f.n as u64, ..s };
        self.streams.insert(sid, s2);
        proof {
            assert(self@ =~= old(self)@.insert(
                sid,
                StreamStView { payload_rem: (sv.payload_rem - f.n as u64) as u64, ..sv },
            ));
        }
        let data = vec_copy_range(&f.data, 0, f.data.len());
        assert(data@ =~= f.data@);
        let mut out: Vec<ReadResult> = Vec::new();
        out.push(ReadResult::PayloadData(sid, f.n, data));
        assert(events_view(out@) =~= seq![EventView::PayloadData(sid, f.n, f.data@)]);
        Ok(out)
    }

    #[verifier::rlimit(100)]
    fn on_payload_finished(&mut self, f: &Frame) -> (r: Result<Vec<ReadResult>, ProcessError>)
        requires
            wf_frame(f@),
            f@.kind == FrameKind::PayloadFinished,
        ensures
            match (r, spec_step(old(self)@, f@)) {
                (Ok(evs), Ok((st2, evs2))) => final(self)@ == st2 && events_view(evs@) == evs2,
                (Err(e), Err(e2)) => e == e2 && final(self)@ == old(self)@,
                _ => false,
            },
    {
        let sid = f.stream_id;
        let s = match self.streams.remove(&sid) {
            Some(s) => s,
            None => {
                assert(!self@.contains_key(sid));
                proof {
                    assert(self@ =~= old(self)@);
                }
                return Err(ProcessError::StreamNotFound);
            },
        };
        let ghost sv = s@;
        assert(old(self)@.contains_key(sid) && old(self)@[sid] == sv);
        if s.payload_rem == 0 {
            self.streams.insert(sid, s);
            proof {
                assert(self@ =~= old(self)@);
            }
            return Err(ProcessError::UnexpectedFrame);
        }
        if s.payload_rem != f.n as u64 {
            self.streams.insert(sid, s);
            proof {
                assert(self@ =~= old(self)@);
            }
            return Err(ProcessError::PayloadFinishMismatch);
        }
        let data = vec_copy_range(&f.data, 0, f.data.len());
        assert(data@ =~= f.data@);
        if s.meta.attachments.len() == 0 {
            proof {
                assert(self@ =~= old(self)@.remove(sid));
            }
            let mut out: Vec<ReadResult> = Vec::new();
            out.push(ReadResult::PayloadFinished(sid, f.n, data));
            out.push(
                ReadResult::MessageFinished(sid, MessageFinishBytes::Payload(0, Vec::new())),
            );
            assert(events_view(out@) =~= seq![
                EventView::PayloadFinished(sid, f.n, f.data@),
                EventView::MessageFinished(sid, FinishBytesView::Payload(0, Seq::empty())),
            ]);
            Ok(out)
        } else {
            let s2 = StreamSt { payload_rem: 0, ..s };
            self.streams.insert(sid, s2);
            proof {
                assert(self@ =~= old(self)@.insert(
                    sid,
                    StreamStView { payload_rem: 0, ..sv },
                ));
            }
            let mut out: Vec<ReadResult> = Vec::new();
            out.push(ReadResult::PayloadFinished(sid, f.n, data));
            assert(events_view(out@) =~= seq![
                EventView::PayloadFinished(sid, f.n, f.data@),
            ]);
            Ok(out)
        }
    }

    #[verifier::rlimit(100)]
    fn on_attachment_data(&mut self, f: &Frame) -> (r: Result<Vec<ReadResult>, ProcessError>)
        requires
            wf_frame(f@),
            f@.kind == FrameKind::AttachmentData,
        ensures
            match (r, spec_step(old(self)@, f@)) {
                (Ok(evs), Ok((st2, evs2))) => final(self)@ == st2 && events_view(evs@) == evs2,
                (Err(e), Err(e2)) => e == e2 && final(self)@ == old(self)@,
                _ => false,
            },
    {
        let sid = f.stream_id;
        let s = match self.streams.remove(&sid) {
            Some(s) => s,
            None => {
                assert(!self@.contains_key(sid));
                proof {
                    assert(self@ =~= old(self)@);
                }
                return Err(ProcessError::StreamNotFound);
            },
        };
        let ghost sv = s@;
        assert(old(self)@.contains_key(sid) && old(self)@[sid] == sv);
        if s.payload_rem != 0 || s.att_idx >= s.meta.attachments.len() {
            self.streams.insert(sid, s);
            proof {
                assert(self@ =~= old(self)@);
            }
            return Err(ProcessError::UnexpectedFrame);
        }
        if f.att_index as usize != s.att_idx {
            self.streams.insert(sid, s);
            proof {
                assert(self@ =~= old(self)@);
            }
            return Err(ProcessError::AttachmentIndexMismatch);
        }
        if s.att_rem < f.n as u64 {
            self.streams.insert(sid, s);
            proof {
                assert(self@ =~= old(self)@);
            }
            return Err(ProcessError::AttachmentOverrun);
        }
        let s2 = StreamSt { att_rem: s.att_rem - f.n as u64, ..s };
        self.streams.insert(sid, s2);
        proof {
            assert(self@ =~= old(self)@.insert(
                sid,
                StreamStView { att_rem: (sv.att_rem - f.n as u64) as u64, ..sv },
            ));
        }
        let data = vec_copy_range(&f.data, 0, f.data.len());
        assert(data@ =~= f.data@);
        let mut out: Vec<ReadResult> = Vec::new();
        out.push(ReadResult::AttachmentData(sid, f.att_index, f.n, data));
        assert(events_view(out@) =~= seq![
            EventView::AttachmentData(sid, f.att_index, f.n, f.data@),
        ]);
        Ok(out)
    }

    #[verifier::rlimit(100)]
    fn on_attachment_finished(&mut self, f: &Frame) -> (r: Result<Vec<ReadResult>, ProcessError>)
        requires
            wf_frame(f@),
            f@.kind == FrameKind::AttachmentFinished,
        ensures
            match (r, spec_step(old(self)@, f@)) {
                (Ok(evs), Ok((st2, evs2))) => final(self)@ == st2 && events_view(evs@) == evs2,
                (Err(e), Err(e2)) => e == e2 && final(self)@ == old(self)@,
                _ => false,
            },
    {
        let sid = f.stream_id;
        let s = match self.streams.remove(&sid) {
            Some(s) => s,
            None => {
                assert(!self@.contains_key(sid));
                proof {
                    assert(self@ =~= old(self)@);
                }
                return Err(ProcessError::StreamNotFound);
            },
        };
        let ghost sv = s@;
        assert(old(self)@.contains_key(sid) && old(self)@[sid] == sv);
        if s.payload_rem != 0 || s.att_idx >= s.meta.attachments.len() {
            self.streams.insert(sid, s);
            proof {
                assert(self@ =~= old(self)@);
            }
            return Err(ProcessError::UnexpectedFrame);
        }
        if f.att_index as usize != s.att_idx {
            self.streams.insert(sid, s);
            proof {
                assert(self@ =~= old(self)@);
            }
            return Err(ProcessError::AttachmentIndexMismatch);
        }
        if s.att_rem != f.n as u64 {
            self.streams.insert(sid, s);
            proof {
                assert(self@ =~= old(self)@);
            }
            return Err(ProcessError::AttachmentFinishMismatch);
        }
        let data = vec_copy_range(&f.data, 0, f.data.len());
        assert(data@ =~= f.data@);
        if s.att_idx + 1 == s.meta.attachments.len() {
            proof {
                assert(self@ =~= old(self)@.remove(sid));
            }
            let mut out: Vec<ReadResult> = Vec::new();
            out.push(ReadResult::AttachmentFinished(sid, f.att_index, f.n, data));
            out.push(
                ReadResult::MessageFinished(
                    sid,
                    MessageFinishBytes::Attachment(f.att_index, 0, Vec::new()),
                ),
            );
            assert(events_view(out@) =~= seq![
                EventView::AttachmentFinished(sid, f.att_index, f.n, f.data@),
                EventView::MessageFinished(
                    sid,
                    FinishBytesView::Attachment(f.att_index, 0, Seq::empty()),
                ),
            ]);
            Ok(out)
        } else {
            let next_rem = s.meta.attachments[s.att_idx + 1].size;
            let s2 = StreamSt { att_idx: s.att_idx + 1, att_rem: next_rem, ..s };
            self.streams.insert(sid, s2);
            proof {
                assert(self@ =~= old(self)@.insert(
                    sid,
                    StreamStView {
                        att_idx: sv.att_idx + 1,
                        att_rem: sv.meta.attachments[sv.att_idx + 1].size,
                        ..sv
                    },
                ));
            }
            let mut out: Vec<ReadResult> = Vec::new();
            out.push(ReadResult::AttachmentFinished(sid, f.att_index, f.n, data));
            assert(events_view(out@) =~= seq![
                EventView::AttachmentFinished(sid, f.att_index, f.n, f.data@),
            ]);
            Ok(out)
        }
    }

    #[verifier::rlimit(100)]
    fn on_message_finished(&mut self, f: &Frame) -> (r: Result<Vec<ReadResult>, ProcessError>)
        requires
            wf_frame(f@),
            f@.kind == FrameKind::MessageFinished,
        ensures
            match (r, spec_step(old(self)@, f@)) {
                (Ok(evs), Ok((st2, evs2))) => final(self)@ == st2 && events_view(evs@) == evs2,
                (Err(e), Err(e2)) => e == e2 && final(self)@ == old(self)@,
                _ => false,
            },
    {
        let sid = f.stream_id;
        let s = match self.streams.remove(&sid) {
            Some(s) => s,
            None => {
                assert(!self@.contains_key(sid));
                proof {
                    assert(self@ =~= old(self)@);
                }
                return Err(ProcessError::StreamNotFound);
            },
        };
        let ghost sv = s@;
        assert(old(self)@.contains_key(sid) && old(self)@[sid] == sv);
        let data = vec_copy_range(&f.data, 0, f.data.len());
        assert(data@ =~= f.data@);
        if s.meta.attachments.len() == 0 {
            if s.payload_rem != f.n as u64 {
                self.streams.insert(sid, s);
                proof {
                    assert(self@ =~= old(self)@);
                }
                return Err(ProcessError::FinishMismatch);
            }
            proof {
                assert(self@ =~= old(self)@.remove(sid));
            }
            let mut out: Vec<ReadResult> = Vec::new();
            out.push(
                ReadResult::MessageFinished(sid, MessageFinishBytes::Payload(f.n, data)),
            );
            assert(events_view(out@) =~= seq![
                EventView::MessageFinished(sid, FinishBytesView::Payload(f.n, f.data@)),
            ]);
            Ok(out)
        } else {
            if s.payload_rem != 0 || s.att_idx != s.meta.attachments.len() - 1
                || f.att_index as usize != s.att_idx || s.att_rem != f.n as u64 {
                self.streams.insert(sid, s);
                proof {
                    assert(self@ =~= old(self)@);
                }
                return Err(ProcessError::FinishMismatch);
            }
            proof {
                assert(self@ =~= old(self)@.remove(sid));
            }
            let mut out: Vec<ReadResult> = Vec::new();
            out.push(
                ReadResult::MessageFinished(
                    sid,
                    MessageFinishBytes::Attachment(f.att_index, f.n, data),
                ),
            );
            assert(events_view(out@) =~= seq![
                EventView::MessageFinished(
                    sid,
                    FinishBytesView::Attachment(f.att_index, f.n, f.data@),
                ),
            ]);
            Ok(out)
        }
    }

    #[verifier::rlimit(100)]
    fn on_message_aborted(&mut self, f: &Frame) -> (r: Result<Vec<ReadResult>, ProcessError>)
        requires
            wf_frame(f@),
            f@.kind == FrameKind::MessageAborted,
        ensures
            match (r, spec_step(old(self)@, f@)) {
                (Ok(evs), Ok((st2, evs2))) => final(self)@ == st2 && events_view(evs@) == evs2,
                (Err(e), Err(e2)) => e == e2 && final(self)@ == old(self)@,
                _ => false,
            },
    {
        let sid = f.stream_id;
        if self.streams.contains_key(&sid) {
            assert(self@.contains_key(sid));
            self.streams.remove(&sid);
            proof {
                assert(self@ =~= old(self)@.remove(sid));
            }
            let mut out: Vec<ReadResult> = Vec::new();
            out.push(ReadResult::MessageAborted(Some(sid)));
            assert(events_view(out@) =~= seq![EventView::MessageAborted(Some(sid))]);
            Ok(out)
        } else {
            assert(!self@.contains_key(sid));
            proof {
                assert(self@ =~= old(self)@);
            }
            let mut out: Vec<ReadResult> = Vec::new();
            out.push(ReadResult::MessageAborted(None));
            assert(events_view(out@) =~= seq![EventView::MessageAborted(None)]);
            Ok(out)
        }
    }

}

} // verus!
