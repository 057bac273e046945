//! Whole-message assembly from read events.
//!
//! A participant that wants complete messages (the broker's auth
//! exchange, a client in full-message mode) folds the event stream into
//! per-stream buffers and takes the finished message out when its
//! terminal event arrives.

use vstd::prelude::*;
use std::collections::HashMap;
use crate::err::ProcessError;
use crate::meta::{MsgMeta, MetaView};
use crate::readstate::{EventView, FinishBytesView, MessageFinishBytes, ReadResult};
use crate::vecs::push_all;

verus! {

broadcast use vstd::std_specs::hash::group_hash_axioms;

/// The buffers of one in-flight stream: its header, the payload bytes
/// received so far, and the attachment bytes received so far (all
/// attachments, in order, in one buffer).
pub struct StreamLayout {
    pub id: u64,
    pub msg_meta: MsgMeta,
    pub payload: Vec<u8>,
    pub attachments_data: Vec<u8>,
}

/// Model of one in-flight stream's buffers.
pub struct LayoutView {
    pub id: u64,
    pub msg_meta: MetaView,
    pub payload: Seq<u8>,
    pub attachments_data: Seq<u8>,
}

impl View for StreamLayout {
    type V = LayoutView;

    open spec fn view(&self) -> LayoutView {
        LayoutView {
            id: self.id,
            msg_meta: self.msg_meta@,
            payload: self.payload@,
            attachments_data: self.attachments_data@,
        }
    }
}

/// One assembly step: how an event changes the per-stream buffers, and
/// the finished message it completes, if any.
pub open spec fn spec_assemble_step(st: Map<u64, LayoutView>, ev: EventView) -> Result<
    (Map<u64, LayoutView>, Option<LayoutView>),
    ProcessError,
> {
    match ev {
        EventView::MsgMeta(sid, m, _) => {
            if st.contains_key(sid) {
                Err(ProcessError::StreamAlreadyActive)
            } else {
                Ok(
                    (
                        st.insert(
                            sid,
                            LayoutView {
                                id: sid,
                                msg_meta: m,
                                payload: Seq::empty(),
                                attachments_data: Seq::empty(),
                            },
                        ),
                        None,
                    ),
                )
            }
        },
        EventView::PayloadData(sid, n, b) => {
            if !st.contains_key(sid) {
                Err(ProcessError::StreamNotFound)
            } else {
                let l = st[sid];
                Ok((st.insert(sid, LayoutView { payload: l.payload + b, ..l }), None))
            }
        },
        EventView::PayloadFinished(sid, n, b) => {
            if !st.contains_key(sid) {
                Err(ProcessError::StreamNotFound)
            } else {
                let l = st[sid];
                Ok((st.insert(sid, LayoutView { payload: l.payload + b, ..l }), None))
            }
        },
        EventView::AttachmentData(sid, i, n, b) => {
            if !st.contains_key(sid) {
                Err(ProcessError::StreamNotFound)
            } else {
                let l = st[sid];
                Ok(
                    (
                        st.insert(
                            sid,
                            LayoutView { attachments_data: l.attachments_data + b, ..l },
                        ),
                        None,
                    ),
                )
            }
        },
        EventView::AttachmentFinished(sid, i, n, b) => {
            if !st.contains_key(sid) {
                Err(ProcessError::StreamNotFound)
            } else {
                let l = st[sid];
                Ok(
                    (
                        st.insert(
                            sid,
                            LayoutView { attachments_data: l.attachments_data + b, ..l },
                        ),
                        None,
                    ),
                )
            }
        },
        EventView::MessageFinished(sid, fin) => {
            if !st.contains_key(sid) {
                Err(ProcessError::StreamNotFound)
            } else {
                let l = st[sid];
                let done = match fin {
                    FinishBytesView::Payload(n, b) => LayoutView { payload: l.payload + b, ..l },
                    FinishBytesView::Attachment(i, n, b) => LayoutView {
                        attachments_data: l.attachments_data + b,
                        ..l
                    },
                };
                Ok((st.remove(sid), Some(done)))
            }
        },
        EventView::MessageAborted(osid) => {
            match osid {
                Some(sid) => {
                    if !st.contains_key(sid) {
                        Err(ProcessError::StreamNotFound)
                    } else {
                        Ok((st.remove(sid), None))
                    }
                },
                None => Ok((st, None)),
            }
        },
    }
}

/// The assembler: per-stream buffers for every stream in flight.
pub struct Assembler {
    pub layouts: HashMap<u64, StreamLayout>,
}

impl View for Assembler {
    type V = Map<u64, LayoutView>;

    open spec fn view(&self) -> Map<u64, LayoutView> {
        Map::new(|sid: u64| self.layouts@.contains_key(sid), |sid: u64| self.layouts@[sid]@)
    }
}

impl Assembler {
    /// Assembly starts with no streams in flight.
    pub fn new() -> (r: Assembler)
        ensures
            r@ == Map::<u64, LayoutView>::empty(),
    {
        let r = Assembler { layouts: HashMap::new() };
        proof {
            assert(r@ =~= Map::<u64, LayoutView>::empty());
        }
        r
    }

    /// Folds one event into the buffers, mirroring `spec_assemble_step`
    /// exactly; returns the finished message when the event was its
    /// terminal.
    #[verifier::rlimit(50)]
    pub fn apply(&mut self, ev: ReadResult) -> (r: Result<Option<StreamLayout>, ProcessError>)
        ensures
            match (r, spec_assemble_step(old(self)@, ev@)) {
                (Ok(done), Ok((st2, done2))) => final(self)@ == st2 && match (done, done2) {
                    (Some(l), Some(l2)) => l@ == l2,
                    (None, None) => true,
                    _ => false,
                },
                (Err(e), Err(e2)) => e == e2 && final(self)@ == old(self)@,
                _ => false,
            },
    {
        match ev {
            ReadResult::MsgMeta(sid, m, _raw) => {
                if self.layouts.contains_key(&sid) {
                    assert(self@.contains_key(sid));
                    return Err(ProcessError::StreamAlreadyActive);
                }
                assert(!self@.contains_key(sid));
                let l = StreamLayout {
                    id: sid,
                    msg_meta: m,
                    payload: Vec::new(),
                    attachments_data: Vec::new(),
                };
                let ghost lv = l@;
                self.layouts.insert(sid, l);
                proof {
                    assert(lv.payload =~= Seq::<u8>::empty());
                    assert(lv.attachments_data =~= Seq::<u8>::empty());
                    assert(self@ =~= old(self)@.insert(sid, lv));
                }
                Ok(None)
            },
            ReadResult::PayloadData(sid, _n, b) => self.extend_payload(sid, b),
            ReadResult::PayloadFinished(sid, _n, b) => self.extend_payload(sid, b),
            ReadResult::AttachmentData(sid, _i, _n, b) => self.extend_attachments(sid, b),
            ReadResult::AttachmentFinished(sid, _i, _n, b) => self.extend_attachments(sid, b),
            ReadResult::MessageFinished(sid, fin) => {
                let mut l = match self.layouts.remove(&sid) {
                    Some(l) => l,
                    None => {
                        assert(!self@.contains_key(sid));
                        proof {
                            assert(self@ =~= old(self)@);
                        }
                        return Err(ProcessError::StreamNotFound);
                    },
                };
                let ghost lv = l@;
                assert(old(self)@.contains_key(sid) && old(self)@[sid] == lv);
                match fin {
                    MessageFinishBytes::Payload(_n, b) => {
                        push_all(&mut l.payload, &b);
                        assert(l@ == (LayoutView { payload: lv.payload + b@, ..lv }));
                    },
                    MessageFinishBytes::Attachment(_i, _n, b) => {
                        push_all(&mut l.attachments_data, &b);
                        assert(l@ == (LayoutView {
                            attachments_data: lv.attachments_data + b@,
                            ..lv
                        }));
                    },
                }
                proof {
                    assert(self@ =~= old(self)@.remove(sid));
                }
                Ok(Some(l))
            },
            ReadResult::MessageAborted(osid) => {
                match osid {
                    Some(sid) => {
                        if !self.layouts.contains_key(&sid) {
                            assert(!self@.contains_key(sid));
                            proof {
                                assert(self@ =~= old(self)@);
                            }
                            return Err(ProcessError::StreamNotFound);
                        }
                        assert(self@.contains_key(sid));
                        self.layouts.remove(&sid);
                        proof {
                            assert(self@ =~= old(self)@.remove(sid));
                        }
                        Ok(None)
                    },
                    None => {
                        proof {
                            assert(self@ =~= old(self)@);
                        }
                        Ok(None)
                    },
                }
            },
        }
    }

    /// Appends payload bytes to the stream's buffer.
    fn extend_payload(&mut self, sid: u64, b: Vec<u8>) -> (r: Result<
        Option<StreamLayout>,
        ProcessError,
    >)
        ensures
            match r {
                Ok(done) => old(self)@.contains_key(sid) && done is None && final(self)@ == old(
                    self,
                )@.insert(
                    sid,
                    LayoutView { payload: old(self)@[sid].payload + b@, ..old(self)@[sid] },
                ),
                Err(e) => e == ProcessError::StreamNotFound && !old(self)@.contains_key(sid)
                    && final(self)@ == old(self)@,
            },
    {
        let mut l = match self.layouts.remove(&sid) {
            Some(l) => l,
            None => {
                assert(!self@.contains_key(sid));
                proof {
                    assert(self@ =~= old(self)@);
                }
                return Err(ProcessError::StreamNotFound);
            },
        };
        let ghost lv = l@;
        assert(old(self)@.contains_key(sid) && old(self)@[sid] == lv);
        push_all(&mut l.payload, &b);
        assert(l@ == (LayoutView { payload: lv.payload + b@, ..lv }));
        self.layouts.insert(sid, l);
        proof {
            assert(self@ =~= old(self)@.insert(sid, LayoutView { payload: lv.payload + b@, ..lv }));
        }
        Ok(None)
    }

    /// Appends attachment bytes to the stream's buffer.
    fn extend_attachments(&mut self, sid: u64, b: Vec<u8>) -> (r: Result<
        Option<StreamLayout>,
        ProcessError,
    >)
        ensures
            match r {
                Ok(done) => old(self)@.contains_key(sid) && done is None && final(self)@ == old(
                    self,
                )@.insert(
                    sid,
                    LayoutView {
                        attachments_data: old(self)@[sid].attachments_data + b@,
                        ..old(self)@[sid]
                    },
                ),
                Err(e) => e == ProcessError::StreamNotFound && !old(self)@.contains_key(sid)
                    && final(self)@ == old(self)@,
            },
    {
        let mut l = match self.layouts.remove(&sid) {
            Some(l) => l,
            None => {
                assert(!self@.contains_key(sid));
                proof {
                    assert(self@ =~= old(self)@);
                }
                return Err(ProcessError::StreamNotFound);
            },
        };
        let ghost lv = l@;
        assert(old(self)@.contains_key(sid) && old(self)@[sid] == lv);
        push_all(&mut l.attachments_data, &b);
        assert(l@ == (LayoutView { attachments_data: lv.attachments_data + b@, ..lv }));
        self.layouts.insert(sid, l);
        proof {
            assert(self@ =~= old(self)@.insert(
                sid,
                LayoutView { attachments_data: lv.attachments_data + b@, ..lv },
            ));
        }
        Ok(None)
    }
}

} // verus!
