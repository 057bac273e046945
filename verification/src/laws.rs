//! End-to-end laws of the codec and the read state machine.
//!
//! `spec_pipe_run` is the model of a receiver: each incoming frame goes
//! through the read state machine and every event it emits goes through
//! the assembler.  The round-trip law at the bottom says that the frames
//! the encoder writes for any acceptable message come back out of that
//! pipeline as exactly one finished message holding the original header,
//! payload and attachment bytes.

use vstd::prelude::*;
use crate::assemble::{spec_assemble_step, LayoutView};
use crate::encode::{
    att_frames, atts_frames, data_frame, meta_blob, meta_frame, mid_payload_frames,
    spec_encode_err, spec_encode_message, tail_frames,
};
use crate::err::ProcessError;
use crate::frame::{spec_msg_kind_tag, FrameKind, FrameView, DATA_BUF_SIZE};
use crate::meta::{MetaView, wf_meta};
use crate::metajson::{lemma_meta_json_round, meta_json};
use crate::nums::lemma_u32_be_round;
use crate::readstate::{
    fresh_stream, spec_parse_blob, spec_step, EventView, FinishBytesView, StreamStView,
};

verus! {

/// Folding a sequence of events into the assembler, collecting each
/// finished message in order.
pub open spec fn spec_assemble_run(st: Map<u64, LayoutView>, evs: Seq<EventView>) -> Result<
    (Map<u64, LayoutView>, Seq<LayoutView>),
    ProcessError,
>
    decreases evs.len(),
{
    if evs.len() == 0 {
        Ok((st, Seq::empty()))
    } else {
        match spec_assemble_step(st, evs[0]) {
            Err(e) => Err(e),
            Ok((st1, done)) => match spec_assemble_run(st1, evs.skip(1)) {
                Err(e) => Err(e),
                Ok((st2, ds)) => Ok(
                    (
                        st2,
                        (match done {
                            Some(l) => seq![l],
                            None => Seq::empty(),
                        }) + ds,
                    ),
                ),
            },
        }
    }
}

/// A receiver: frames through the state machine, events through the
/// assembler, finished messages collected in order.
pub open spec fn spec_pipe_run(
    ms: Map<u64, StreamStView>,
    la: Map<u64, LayoutView>,
    fs: Seq<FrameView>,
) -> Result<(Map<u64, StreamStView>, Map<u64, LayoutView>, Seq<LayoutView>), ProcessError>
    decreases fs.len(),
{
    if fs.len() == 0 {
        Ok((ms, la, Seq::empty()))
    } else {
        match spec_step(ms, fs[0]) {
            Err(e) => Err(e),
            Ok((ms1, evs)) => match spec_assemble_run(la, evs) {
                Err(e) => Err(e),
                Ok((la1, ds1)) => match spec_pipe_run(ms1, la1, fs.skip(1)) {
                    Err(e) => Err(e),
                    Ok((ms2, la2, ds2)) => Ok((ms2, la2, ds1 + ds2)),
                },
            },
        }
    }
}

/// Successful pipeline runs compose over concatenation of the input.
pub proof fn lemma_pipe_concat(
    ms: Map<u64, StreamStView>,
    la: Map<u64, LayoutView>,
    a: Seq<FrameView>,
    b: Seq<FrameView>,
    ms1: Map<u64, StreamStView>,
    la1: Map<u64, LayoutView>,
    d1: Seq<LayoutView>,
)
    requires
        spec_pipe_run(ms, la, a) == Ok::<_, ProcessError>((ms1, la1, d1)),
    ensures
        spec_pipe_run(ms, la, a + b) == (match spec_pipe_run(ms1, la1, b) {
            Err(e) => Err::<(Map<u64, StreamStView>, Map<u64, LayoutView>, Seq<LayoutView>), _>(e),
            Ok((ms2, la2, d2)) => Ok((ms2, la2, d1 + d2)),
        }),
    decreases a.len(),
{
    if a.len() == 0 {
        assert(a + b =~= b);
        assert(d1 =~= Seq::<LayoutView>::empty());
        match spec_pipe_run(ms1, la1, b) {
            Err(e) => {},
            Ok((ms2, la2, d2)) => {
                assert(d1 + d2 =~= d2);
            },
        }
    } else {
        let (msx, evs) = spec_step(ms, a[0])->Ok_0;
        let (lax, dsx) = spec_assemble_run(la, evs)->Ok_0;
        let (msy, lay, dsy) = spec_pipe_run(msx, lax, a.skip(1))->Ok_0;
        assert(d1 == dsx + dsy);
        lemma_pipe_concat(msx, lax, a.skip(1), b, msy, lay, dsy);
        assert((a + b)[0] == a[0]);
        assert((a + b).skip(1) =~= a.skip(1) + b);
        match spec_pipe_run(ms1, la1, b) {
            Err(e) => {},
            Ok((ms2, la2, d2)) => {
                assert(dsx + (dsy + d2) =~= (dsx + dsy) + d2);
            },
        }
    }
}


/// Running the assembler over one event is one assembly step.
proof fn lemma_assemble_run_one(st: Map<u64, LayoutView>, ev: EventView)
    ensures
        spec_assemble_run(st, seq![ev]) == (match spec_assemble_step(st, ev) {
            Err(e) => Err::<(Map<u64, LayoutView>, Seq<LayoutView>), _>(e),
            Ok((st1, done)) => Ok(
                (
                    st1,
                    match done {
                        Some(l) => seq![l],
                        None => Seq::<LayoutView>::empty(),
                    },
                ),
            ),
        }),
{
    let evs = seq![ev];
    assert(evs[0] == ev);
    assert(evs.skip(1) =~= Seq::<EventView>::empty());
    match spec_assemble_step(st, ev) {
        Err(e) => {},
        Ok((st1, done)) => {
            assert(spec_assemble_run(st1, evs.skip(1)) == Ok::<_, ProcessError>(
                (st1, Seq::<LayoutView>::empty()),
            ));
            match done {
                Some(l) => {
                    assert(seq![l] + Seq::<LayoutView>::empty() =~= seq![l]);
                },
                None => {
                    assert(Seq::<LayoutView>::empty() + Seq::<LayoutView>::empty()
                        =~= Seq::<LayoutView>::empty());
                },
            }
        },
    }
}

/// Running the assembler over two events is two assembly steps.
proof fn lemma_assemble_run_two(st: Map<u64, LayoutView>, e1: EventView, e2: EventView)
    requires
        spec_assemble_step(st, e1) is Ok,
    ensures
        spec_assemble_run(st, seq![e1, e2]) == (
        {
            let (st1, d1) = spec_assemble_step(st, e1)->Ok_0;
            match spec_assemble_step(st1, e2) {
                Err(e) => Err::<(Map<u64, LayoutView>, Seq<LayoutView>), _>(e),
                Ok((st2, d2)) => Ok(
                    (
                        st2,
                        (match d1 {
                            Some(l) => seq![l],
                            None => Seq::<LayoutView>::empty(),
                        }) + (match d2 {
                            Some(l) => seq![l],
                            None => Seq::<LayoutView>::empty(),
                        }),
                    ),
                ),
            }
        }),
{
    let evs = seq![e1, e2];
    assert(evs[0] == e1);
    assert(evs.skip(1) =~= seq![e2]);
    let (st1, d1) = spec_assemble_step(st, e1)->Ok_0;
    lemma_assemble_run_one(st1, e2);
}

/// Running the pipeline over one frame is one machine step and the
/// assembly of its events.
proof fn lemma_pipe_run_one(ms: Map<u64, StreamStView>, la: Map<u64, LayoutView>, f: FrameView)
    ensures
        spec_pipe_run(ms, la, seq![f]) == (match spec_step(ms, f) {
            Err(e) => Err::<
                (Map<u64, StreamStView>, Map<u64, LayoutView>, Seq<LayoutView>),
                _,
            >(e),
            Ok((ms1, evs)) => match spec_assemble_run(la, evs) {
                Err(e) => Err(e),
                Ok((la1, ds)) => Ok((ms1, la1, ds)),
            },
        }),
{
    let fs = seq![f];
    assert(fs[0] == f);
    assert(fs.skip(1) =~= Seq::<FrameView>::empty());
    match spec_step(ms, f) {
        Err(e) => {},
        Ok((ms1, evs)) => {
            match spec_assemble_run(la, evs) {
                Err(e) => {},
                Ok((la1, ds)) => {
                    assert(spec_pipe_run(ms1, la1, fs.skip(1)) == Ok::<_, ProcessError>(
                        (ms1, la1, Seq::<LayoutView>::empty()),
                    ));
                    assert(ds + Seq::<LayoutView>::empty() =~= ds);
                },
            }
        },
    }
}

/// Running the pipeline over a frame and more frames composes.
proof fn lemma_pipe_run_cons(
    ms: Map<u64, StreamStView>,
    la: Map<u64, LayoutView>,
    f: FrameView,
    rest: Seq<FrameView>,
    fs: Seq<FrameView>,
)
    requires
        fs == seq![f] + rest,
        spec_step(ms, f) is Ok,
        spec_assemble_run(la, spec_step(ms, f)->Ok_0.1) is Ok,
    ensures
        spec_pipe_run(ms, la, fs) == (
        {
            let (ms1, evs) = spec_step(ms, f)->Ok_0;
            let (la1, ds1) = spec_assemble_run(la, evs)->Ok_0;
            match spec_pipe_run(ms1, la1, rest) {
                Err(e) => Err::<
                    (Map<u64, StreamStView>, Map<u64, LayoutView>, Seq<LayoutView>),
                    _,
                >(e),
                Ok((ms2, la2, ds2)) => Ok((ms2, la2, ds1 + ds2)),
            }
        }),
{
    assert(fs[0] == f);
    assert(fs.skip(1) =~= rest);
}

/// One machine step on a header frame.
#[verifier::rlimit(100)]
proof fn lemma_step_meta(ms: Map<u64, StreamStView>, sid: u64, kh: u64, m: MetaView)
    requires
        wf_meta(m),
        4 + meta_json(m).len() <= DATA_BUF_SIZE as int,
        !ms.contains_key(sid),
    ensures
        spec_step(ms, meta_frame(sid, kh, m)) == Ok::<_, ProcessError>(
            (
                ms.insert(sid, fresh_stream(m)),
                seq![EventView::MsgMeta(sid, m, meta_blob(m))],
            ),
        ),
{
    let blob = meta_blob(m);
    assert(spec_parse_blob(blob) == Some(m)) by {
        lemma_u32_be_round(meta_json(m).len() as u32);
        assert(blob[0] == crate::nums::u32_be(meta_json(m).len() as u32)[0] && blob[1]
            == crate::nums::u32_be(meta_json(m).len() as u32)[1] && blob[2] == crate::nums::u32_be(
            meta_json(m).len() as u32,
        )[2] && blob[3] == crate::nums::u32_be(meta_json(m).len() as u32)[3]);
        assert(blob.skip(4) =~= meta_json(m));
        lemma_meta_json_round(m);
    }
}

/// The header frame opens a stream in both the machine and the
/// assembler.
#[verifier::rlimit(100)]
pub proof fn lemma_pipe_meta_frame(
    ms: Map<u64, StreamStView>,
    la: Map<u64, LayoutView>,
    sid: u64,
    kh: u64,
    m: MetaView,
)
    requires
        wf_meta(m),
        4 + meta_json(m).len() <= DATA_BUF_SIZE as int,
        !ms.contains_key(sid),
        !la.contains_key(sid),
    ensures
        spec_pipe_run(ms, la, seq![meta_frame(sid, kh, m)]) == Ok::<_, ProcessError>(
            (
                ms.insert(sid, fresh_stream(m)),
                la.insert(
                    sid,
                    LayoutView {
                        id: sid,
                        msg_meta: m,
                        payload: Seq::empty(),
                        attachments_data: Seq::empty(),
                    },
                ),
                Seq::<LayoutView>::empty(),
            ),
        ),
{
    let f = meta_frame(sid, kh, m);
    lemma_step_meta(ms, sid, kh, m);
    let ev = EventView::MsgMeta(sid, m, meta_blob(m));
    let la1 = la.insert(
        sid,
        LayoutView { id: sid, msg_meta: m, payload: Seq::empty(), attachments_data: Seq::empty() },
    );
    assert(spec_assemble_step(la, ev) == Ok::<_, ProcessError>((la1, None::<LayoutView>)));
    lemma_assemble_run_one(la, ev);
    lemma_pipe_run_one(ms, la, f);
}

/// The final segment of a message with no attachments: its payload
/// drains and the finished message comes out.
#[verifier::rlimit(100)]
pub proof fn lemma_pipe_tail_payload(
    ms: Map<u64, StreamStView>,
    la: Map<u64, LayoutView>,
    sid: u64,
    kh: u64,
    d: Seq<u8>,
)
    requires
        ms.contains_key(sid),
        la.contains_key(sid),
        ms[sid].meta.attachments.len() == 0,
        ms[sid].payload_rem as int == d.len(),
        ms[sid].meta == la[sid].msg_meta,
    ensures
        spec_pipe_run(
            ms,
            la,
            tail_frames(sid, kh, spec_msg_kind_tag(ms[sid].meta.kind), FrameKind::PayloadData, 0, d),
        ) == Ok::<_, ProcessError>(
            (
                ms.remove(sid),
                la.remove(sid),
                seq![LayoutView { payload: la[sid].payload + d, ..la[sid] }],
            ),
        ),
    decreases d.len(),
{
    let tag = spec_msg_kind_tag(ms[sid].meta.kind);
    let s = ms[sid];
    let l = la[sid];
    let fs = tail_frames(sid, kh, tag, FrameKind::PayloadData, 0, d);
    if d.len() <= DATA_BUF_SIZE as int {
        let f = data_frame(sid, kh, tag, FrameKind::MessageFinished, 0, d);
        let ev = EventView::MessageFinished(sid, FinishBytesView::Payload(f.n, d));
        assert(spec_step(ms, f) == Ok::<_, ProcessError>((ms.remove(sid), seq![ev])));
        let done = LayoutView { payload: l.payload + d, ..l };
        assert(spec_assemble_step(la, ev) == Ok::<_, ProcessError>((la.remove(sid), Some(done))));
        lemma_assemble_run_one(la, ev);
        lemma_pipe_run_one(ms, la, f);
        assert(fs == seq![f]);
    } else {
        let chunk = d.take(DATA_BUF_SIZE as int);
        let rest = d.skip(DATA_BUF_SIZE as int);
        let f = data_frame(sid, kh, tag, FrameKind::PayloadData, 0, chunk);
        let s1 = StreamStView { payload_rem: (s.payload_rem - chunk.len()) as u64, ..s };
        let ev = EventView::PayloadData(sid, f.n, chunk);
        assert(spec_step(ms, f) == Ok::<_, ProcessError>((ms.insert(sid, s1), seq![ev])));
        let l1 = LayoutView { payload: l.payload + chunk, ..l };
        assert(spec_assemble_step(la, ev) == Ok::<_, ProcessError>(
            (la.insert(sid, l1), None::<LayoutView>),
        ));
        lemma_assemble_run_one(la, ev);
        let ms1 = ms.insert(sid, s1);
        let la1 = la.insert(sid, l1);
        lemma_pipe_tail_payload(ms1, la1, sid, kh, rest);
        assert(fs =~= seq![f] + tail_frames(sid, kh, tag, FrameKind::PayloadData, 0, rest));
        lemma_pipe_run_cons(ms, la, f, tail_frames(sid, kh, tag, FrameKind::PayloadData, 0, rest), fs);
        assert(ms1.remove(sid) =~= ms.remove(sid));
        assert(la1.remove(sid) =~= la.remove(sid));
        let done = LayoutView { payload: l1.payload + rest, ..l1 };
        assert(done == (LayoutView { payload: l.payload + d, ..l })) by {
            assert((l.payload + chunk) + rest =~= l.payload + d);
        }
        assert(Seq::<LayoutView>::empty() + seq![done] =~= seq![done]);
    }
}

/// The final segment of a message with attachments: the last
/// attachment's bytes drain and the finished message comes out.
#[verifier::rlimit(100)]
pub proof fn lemma_pipe_tail_attachment(
    ms: Map<u64, StreamStView>,
    la: Map<u64, LayoutView>,
    sid: u64,
    kh: u64,
    idx: u8,
    d: Seq<u8>,
)
    requires
        ms.contains_key(sid),
        la.contains_key(sid),
        ms[sid].payload_rem == 0,
        ms[sid].meta.attachments.len() >= 1,
        ms[sid].att_idx == ms[sid].meta.attachments.len() - 1,
        ms[sid].att_idx == idx as int,
        ms[sid].att_rem as int == d.len(),
        ms[sid].meta == la[sid].msg_meta,
    ensures
        spec_pipe_run(
            ms,
            la,
            tail_frames(
                sid,
                kh,
                spec_msg_kind_tag(ms[sid].meta.kind),
                FrameKind::AttachmentData,
                idx,
                d,
            ),
        ) == Ok::<_, ProcessError>(
            (
                ms.remove(sid),
                la.remove(sid),
                seq![
                    LayoutView { attachments_data: la[sid].attachments_data + d, ..la[sid] },
                ],
            ),
        ),
    decreases d.len(),
{
    let tag = spec_msg_kind_tag(ms[sid].meta.kind);
    let s = ms[sid];
    let l = la[sid];
    let fs = tail_frames(sid, kh, tag, FrameKind::AttachmentData, idx, d);
    if d.len() <= DATA_BUF_SIZE as int {
        let f = data_frame(sid, kh, tag, FrameKind::MessageFinished, idx, d);
        let ev = EventView::MessageFinished(sid, FinishBytesView::Attachment(idx, f.n, d));
        assert(spec_step(ms, f) == Ok::<_, ProcessError>((ms.remove(sid), seq![ev])));
        let done = LayoutView { attachments_data: l.attachments_data + d, ..l };
        assert(spec_assemble_step(la, ev) == Ok::<_, ProcessError>((la.remove(sid), Some(done))));
        lemma_assemble_run_one(la, ev);
        lemma_pipe_run_one(ms, la, f);
        assert(fs == seq![f]);
    } else {
        let chunk = d.take(DATA_BUF_SIZE as int);
        let rest = d.skip(DATA_BUF_SIZE as int);
        let f = data_frame(sid, kh, tag, FrameKind::AttachmentData, idx, chunk);
        let s1 = StreamStView { att_rem: (s.att_rem - chunk.len()) as u64, ..s };
        let ev = EventView::AttachmentData(sid, idx, f.n, chunk);
        assert(spec_step(ms, f) == Ok::<_, ProcessError>((ms.insert(sid, s1), seq![ev])));
        let l1 = LayoutView { attachments_data: l.attachments_data + chunk, ..l };
        assert(spec_assemble_step(la, ev) == Ok::<_, ProcessError>(
            (la.insert(sid, l1), None::<LayoutView>),
        ));
        lemma_assemble_run_one(la, ev);
        let ms1 = ms.insert(sid, s1);
        let la1 = la.insert(sid, l1);
        lemma_pipe_tail_attachment(ms1, la1, sid, kh, idx, rest);
        assert(fs =~= seq![f] + tail_frames(sid, kh, tag, FrameKind::AttachmentData, idx, rest));
        lemma_pipe_run_cons(
            ms,
            la,
            f,
            tail_frames(sid, kh, tag, FrameKind::AttachmentData, idx, rest),
            fs,
        );
        assert(ms1.remove(sid) =~= ms.remove(sid));
        assert(la1.remove(sid) =~= la.remove(sid));
        let done = LayoutView { attachments_data: l1.attachments_data + rest, ..l1 };
        assert(done == (LayoutView { attachments_data: l.attachments_data + d, ..l })) by {
            assert((l.attachments_data + chunk) + rest =~= l.attachments_data + d);
        }
        assert(Seq::<LayoutView>::empty() + seq![done] =~= seq![done]);
    }
}

/// The payload segment of a message with attachments: the payload
/// drains but the stream stays open for the attachments.
#[verifier::rlimit(100)]
pub proof fn lemma_pipe_mid_payload(
    ms: Map<u64, StreamStView>,
    la: Map<u64, LayoutView>,
    sid: u64,
    kh: u64,
    d: Seq<u8>,
)
    requires
        ms.contains_key(sid),
        la.contains_key(sid),
        ms[sid].meta.attachments.len() >= 1,
        ms[sid].payload_rem as int == d.len(),
        ms[sid].meta == la[sid].msg_meta,
    ensures
        spec_pipe_run(
            ms,
            la,
            mid_payload_frames(sid, kh, spec_msg_kind_tag(ms[sid].meta.kind), d),
        ) == Ok::<_, ProcessError>(
            (
                ms.insert(sid, StreamStView { payload_rem: 0, ..ms[sid] }),
                la.insert(sid, LayoutView { payload: la[sid].payload + d, ..la[sid] }),
                Seq::<LayoutView>::empty(),
            ),
        ),
    decreases d.len(),
{
    let tag = spec_msg_kind_tag(ms[sid].meta.kind);
    let s = ms[sid];
    let l = la[sid];
    let fs = mid_payload_frames(sid, kh, tag, d);
    if d.len() == 0 {
        assert(s == (StreamStView { payload_rem: 0, ..s }));
        assert(l.payload + d =~= l.payload);
        assert(l == (LayoutView { payload: l.payload + d, ..l }));
        assert(ms.insert(sid, s) =~= ms);
        assert(la.insert(sid, l) =~= la);
    } else if d.len() <= DATA_BUF_SIZE as int {
        let f = data_frame(sid, kh, tag, FrameKind::PayloadFinished, 0, d);
        let ev = EventView::PayloadFinished(sid, f.n, d);
        assert(spec_step(ms, f) == Ok::<_, ProcessError>(
            (ms.insert(sid, StreamStView { payload_rem: 0, ..s }), seq![ev]),
        ));
        let l1 = LayoutView { payload: l.payload + d, ..l };
        assert(spec_assemble_step(la, ev) == Ok::<_, ProcessError>(
            (la.insert(sid, l1), None::<LayoutView>),
        ));
        lemma_assemble_run_one(la, ev);
        lemma_pipe_run_one(ms, la, f);
        assert(fs == seq![f]);
    } else {
        let chunk = d.take(DATA_BUF_SIZE as int);
        let rest = d.skip(DATA_BUF_SIZE as int);
        let f = data_frame(sid, kh, tag, FrameKind::PayloadData, 0, chunk);
        let s1 = StreamStView { payload_rem: (s.payload_rem - chunk.len()) as u64, ..s };
        let ev = EventView::PayloadData(sid, f.n, chunk);
        assert(spec_step(ms, f) == Ok::<_, ProcessError>((ms.insert(sid, s1), seq![ev])));
        let l1 = LayoutView { payload: l.payload + chunk, ..l };
        assert(spec_assemble_step(la, ev) == Ok::<_, ProcessError>(
            (la.insert(sid, l1), None::<LayoutView>),
        ));
        lemma_assemble_run_one(la, ev);
        let ms1 = ms.insert(sid, s1);
        let la1 = la.insert(sid, l1);
        lemma_pipe_mid_payload(ms1, la1, sid, kh, rest);
        assert(fs =~= seq![f] + mid_payload_frames(sid, kh, tag, rest));
        lemma_pipe_run_cons(ms, la, f, mid_payload_frames(sid, kh, tag, rest), fs);
        assert(ms1.insert(sid, StreamStView { payload_rem: 0, ..s1 }) =~= ms.insert(
            sid,
            StreamStView { payload_rem: 0, ..s },
        ));
        assert(la1.insert(sid, LayoutView { payload: l1.payload + rest, ..l1 }) =~= la.insert(
            sid,
            LayoutView { payload: l.payload + d, ..l },
        )) by {
            assert((l.payload + chunk) + rest =~= l.payload + d);
        }
        assert(Seq::<LayoutView>::empty() + Seq::<LayoutView>::empty()
            =~= Seq::<LayoutView>::empty());
    }
}

/// One attachment that is not the last: its bytes drain and the machine
/// moves on to the next declared attachment.
#[verifier::rlimit(100)]
pub proof fn lemma_pipe_att(
    ms: Map<u64, StreamStView>,
    la: Map<u64, LayoutView>,
    sid: u64,
    kh: u64,
    idx: u8,
    d: Seq<u8>,
)
    requires
        ms.contains_key(sid),
        la.contains_key(sid),
        ms[sid].payload_rem == 0,
        ms[sid].att_idx == idx as int,
        ms[sid].att_idx + 1 < ms[sid].meta.attachments.len(),
        ms[sid].att_rem as int == d.len(),
        ms[sid].meta == la[sid].msg_meta,
    ensures
        spec_pipe_run(
            ms,
            la,
            att_frames(sid, kh, spec_msg_kind_tag(ms[sid].meta.kind), idx, d),
        ) == Ok::<_, ProcessError>(
            (
                ms.insert(
                    sid,
                    StreamStView {
                        att_idx: ms[sid].att_idx + 1,
                        att_rem: ms[sid].meta.attachments[ms[sid].att_idx + 1].size,
                        ..ms[sid]
                    },
                ),
                la.insert(
                    sid,
                    LayoutView { attachments_data: la[sid].attachments_data + d, ..la[sid] },
                ),
                Seq::<LayoutView>::empty(),
            ),
        ),
    decreases d.len(),
{
    let tag = spec_msg_kind_tag(ms[sid].meta.kind);
    let s = ms[sid];
    let l = la[sid];
    let fs = att_frames(sid, kh, tag, idx, d);
    if d.len() <= DATA_BUF_SIZE as int {
        let f = data_frame(sid, kh, tag, FrameKind::AttachmentFinished, idx, d);
        let ev = EventView::AttachmentFinished(sid, idx, f.n, d);
        assert(spec_step(ms, f) == Ok::<_, ProcessError>(
            (
                ms.insert(
                    sid,
                    StreamStView {
                        att_idx: s.att_idx + 1,
                        att_rem: s.meta.attachments[s.att_idx + 1].size,
                        ..s
                    },
                ),
                seq![ev],
            ),
        ));
        let l1 = LayoutView { attachments_data: l.attachments_data + d, ..l };
        assert(spec_assemble_step(la, ev) == Ok::<_, ProcessError>(
            (la.insert(sid, l1), None::<LayoutView>),
        ));
        lemma_assemble_run_one(la, ev);
        lemma_pipe_run_one(ms, la, f);
        assert(fs == seq![f]);
    } else {
        let chunk = d.take(DATA_BUF_SIZE as int);
        let rest = d.skip(DATA_BUF_SIZE as int);
        let f = data_frame(sid, kh, tag, FrameKind::AttachmentData, idx, chunk);
        let s1 = StreamStView { att_rem: (s.att_rem - chunk.len()) as u64, ..s };
        let ev = EventView::AttachmentData(sid, idx, f.n, chunk);
        assert(spec_step(ms, f) == Ok::<_, ProcessError>((ms.insert(sid, s1), seq![ev])));
        let l1 = LayoutView { attachments_data: l.attachments_data + chunk, ..l };
        assert(spec_assemble_step(la, ev) == Ok::<_, ProcessError>(
            (la.insert(sid, l1), None::<LayoutView>),
        ));
        lemma_assemble_run_one(la, ev);
        let ms1 = ms.insert(sid, s1);
        let la1 = la.insert(sid, l1);
        lemma_pipe_att(ms1, la1, sid, kh, idx, rest);
        assert(fs =~= seq![f] + att_frames(sid, kh, tag, idx, rest));
        lemma_pipe_run_cons(ms, la, f, att_frames(sid, kh, tag, idx, rest), fs);
        assert(ms1.insert(
            sid,
            StreamStView {
                att_idx: s1.att_idx + 1,
                att_rem: s1.meta.attachments[s1.att_idx + 1].size,
                ..s1
            },
        ) =~= ms.insert(
            sid,
            StreamStView {
                att_idx: s.att_idx + 1,
                att_rem: s.meta.attachments[s.att_idx + 1].size,
                ..s
            },
        ));
        assert(la1.insert(sid, LayoutView { attachments_data: l1.attachments_data + rest, ..l1 })
            =~= la.insert(
            sid,
            LayoutView { attachments_data: l.attachments_data + d, ..l },
        )) by {
            assert((l.attachments_data + chunk) + rest =~= l.attachments_data + d);
        }
        assert(Seq::<LayoutView>::empty() + Seq::<LayoutView>::empty()
            =~= Seq::<LayoutView>::empty());
    }
}

/// The attachments from index `base` on: every byte lands in the
/// buffers, and the last one closes the message.
#[verifier::rlimit(100)]
pub proof fn lemma_pipe_atts(
    ms: Map<u64, StreamStView>,
    la: Map<u64, LayoutView>,
    sid: u64,
    kh: u64,
    atts: Seq<Seq<u8>>,
    base: u8,
)
    requires
        ms.contains_key(sid),
        la.contains_key(sid),
        ms[sid].payload_rem == 0,
        atts.len() >= 1,
        ms[sid].meta.attachments.len() <= 255,
        base as int + atts.len() == ms[sid].meta.attachments.len(),
        ms[sid].att_idx == base as int,
        ms[sid].att_rem as int == atts[0].len(),
        forall|j: int|
            0 <= j < atts.len() ==> (#[trigger] atts[j]).len()
                == ms[sid].meta.attachments[base + j].size as int,
        ms[sid].meta == la[sid].msg_meta,
    ensures
        spec_pipe_run(
            ms,
            la,
            atts_frames(sid, kh, spec_msg_kind_tag(ms[sid].meta.kind), atts, base),
        ) == Ok::<_, ProcessError>(
            (
                ms.remove(sid),
                la.remove(sid),
                seq![
                    LayoutView {
                        attachments_data: la[sid].attachments_data + atts.flatten(),
                        ..la[sid]
                    },
                ],
            ),
        ),
    decreases atts.len(),
{
    let tag = spec_msg_kind_tag(ms[sid].meta.kind);
    let s = ms[sid];
    let l = la[sid];
    if atts.len() == 1 {
        lemma_pipe_tail_attachment(ms, la, sid, kh, base, atts[0]);
        assert(atts.flatten() =~= atts[0]) by {
            assert(atts.drop_first() =~= Seq::<Seq<u8>>::empty());
            assert(Seq::<Seq<u8>>::empty().flatten() =~= Seq::<u8>::empty());
            assert(atts.first() == atts[0]);
            assert(atts[0] + Seq::<u8>::empty() =~= atts[0]);
        }
        assert((LayoutView { attachments_data: l.attachments_data + atts[0], ..l })
            == (LayoutView { attachments_data: l.attachments_data + atts.flatten(), ..l }));
    } else {
        lemma_pipe_att(ms, la, sid, kh, base, atts[0]);
        let s1 = StreamStView {
            att_idx: s.att_idx + 1,
            att_rem: s.meta.attachments[s.att_idx + 1].size,
            ..s
        };
        let l1 = LayoutView { attachments_data: l.attachments_data + atts[0], ..l };
        let ms1 = ms.insert(sid, s1);
        let la1 = la.insert(sid, l1);
        assert(atts.skip(1)[0] == atts[1]);
        assert(forall|j: int|
            0 <= j < atts.skip(1).len() ==> (#[trigger] atts.skip(1)[j]).len()
                == s.meta.attachments[base + 1 + j].size as int) by {
            assert(forall|j: int| 0 <= j < atts.len() - 1 ==> atts.skip(1)[j] == #[trigger] atts[
            j + 1]);
        }
        lemma_pipe_atts(ms1, la1, sid, kh, atts.skip(1), (base + 1) as u8);
        assert(atts_frames(sid, kh, tag, atts, base) == att_frames(sid, kh, tag, base, atts[0])
            + atts_frames(sid, kh, tag, atts.skip(1), (base + 1) as u8));
        lemma_pipe_concat(
            ms,
            la,
            att_frames(sid, kh, tag, base, atts[0]),
            atts_frames(sid, kh, tag, atts.skip(1), (base + 1) as u8),
            ms1,
            la1,
            Seq::<LayoutView>::empty(),
        );
        assert(ms1.remove(sid) =~= ms.remove(sid));
        assert(la1.remove(sid) =~= la.remove(sid));
        let done1 = LayoutView { attachments_data: l1.attachments_data + atts.skip(1).flatten(), ..l1 };
        assert(done1 == (LayoutView { attachments_data: l.attachments_data + atts.flatten(), ..l }))
            by {
            assert(atts.flatten() == atts.first() + atts.drop_first().flatten());
            assert(atts.first() == atts[0]);
            assert(atts.drop_first() =~= atts.skip(1));
            assert((l.attachments_data + atts[0]) + atts.skip(1).flatten() =~= l.attachments_data
                + (atts[0] + atts.skip(1).flatten()));
        }
        assert(Seq::<LayoutView>::empty() + seq![done1] =~= seq![done1]);
    }
}

/// Round trip of the whole message pipeline: the frames the encoder
/// writes for any acceptable message pass the read state machine and the
/// assembler and come out as exactly one finished message holding the
/// original header, the original payload bytes, and the attachment bytes
/// in declaration order; both ends finish with no stream left open.
#[verifier::rlimit(100)]
pub proof fn lemma_message_round_trip(
    sid: u64,
    kh: u64,
    m: MetaView,
    payload: Seq<u8>,
    atts: Seq<Seq<u8>>,
)
    requires
        spec_encode_err(m, payload, atts) is None,
    ensures
        spec_pipe_run(
            Map::<u64, StreamStView>::empty(),
            Map::<u64, LayoutView>::empty(),
            spec_encode_message(sid, kh, m, payload, atts),
        ) == Ok::<_, ProcessError>(
            (
                Map::<u64, StreamStView>::empty(),
                Map::<u64, LayoutView>::empty(),
                seq![
                    LayoutView {
                        id: sid,
                        msg_meta: m,
                        payload: payload,
                        attachments_data: atts.flatten(),
                    },
                ],
            ),
        ),
{
    let tag = spec_msg_kind_tag(m.kind);
    let ms0 = Map::<u64, StreamStView>::empty();
    let la0 = Map::<u64, LayoutView>::empty();
    lemma_pipe_meta_frame(ms0, la0, sid, kh, m);
    let ms1 = ms0.insert(sid, fresh_stream(m));
    let la1 = la0.insert(
        sid,
        LayoutView { id: sid, msg_meta: m, payload: Seq::empty(), attachments_data: Seq::empty() },
    );
    let l0 = la1[sid];
    if atts.len() == 0 {
        lemma_pipe_tail_payload(ms1, la1, sid, kh, payload);
        let rest = tail_frames(sid, kh, tag, FrameKind::PayloadData, 0, payload);
        lemma_pipe_concat(
            ms0,
            la0,
            seq![meta_frame(sid, kh, m)],
            rest,
            ms1,
            la1,
            Seq::<LayoutView>::empty(),
        );
        assert(ms1.remove(sid) =~= ms0);
        assert(la1.remove(sid) =~= la0);
        let done = LayoutView { payload: l0.payload + payload, ..l0 };
        assert(done == (LayoutView {
            id: sid,
            msg_meta: m,
            payload: payload,
            attachments_data: atts.flatten(),
        })) by {
            assert(l0.payload + payload =~= payload);
            assert(atts.flatten() =~= Seq::<u8>::empty());
        }
        assert(Seq::<LayoutView>::empty() + seq![done] =~= seq![done]);
    } else {
        lemma_pipe_mid_payload(ms1, la1, sid, kh, payload);
        let ms2 = ms1.insert(sid, StreamStView { payload_rem: 0, ..ms1[sid] });
        let la2 = la1.insert(sid, LayoutView { payload: l0.payload + payload, ..l0 });
        assert(ms2[sid].att_idx == 0 && ms2[sid].att_rem as int == atts[0].len());
        lemma_pipe_atts(ms2, la2, sid, kh, atts, 0);
        let mid = mid_payload_frames(sid, kh, tag, payload);
        let af = atts_frames(sid, kh, tag, atts, 0);
        lemma_pipe_concat(ms1, la1, mid, af, ms2, la2, Seq::<LayoutView>::empty());
        lemma_pipe_concat(
            ms0,
            la0,
            seq![meta_frame(sid, kh, m)],
            mid + af,
            ms1,
            la1,
            Seq::<LayoutView>::empty(),
        );
        assert(ms2.remove(sid) =~= ms0);
        assert(la2.remove(sid) =~= la0);
        let done = LayoutView { attachments_data: la2[sid].attachments_data + atts.flatten(), ..la2[sid] };
        assert(done == (LayoutView {
            id: sid,
            msg_meta: m,
            payload: payload,
            attachments_data: atts.flatten(),
        })) by {
            assert(l0.payload + payload =~= payload);
            assert(l0.attachments_data + atts.flatten() =~= atts.flatten());
        }
        assert(Seq::<LayoutView>::empty() + seq![done] =~= seq![done]);
        assert(Seq::<LayoutView>::empty() + (Seq::<LayoutView>::empty() + seq![done])
            =~= seq![done]);
    }
}

/// A run of the read state machine alone: the state reached, every
/// event emitted before the first protocol error, and that error if one
/// arose.
pub struct MachineRun {
    pub st: Map<u64, StreamStView>,
    pub evs: Seq<EventView>,
    pub err: Option<ProcessError>,
}

/// Feeds frames to the machine until they run out or one fails.
pub open spec fn spec_run(st: Map<u64, StreamStView>, fs: Seq<FrameView>) -> MachineRun
    decreases fs.len(),
{
    if fs.len() == 0 {
        MachineRun { st, evs: Seq::empty(), err: None }
    } else {
        match spec_step(st, fs[0]) {
            Err(e) => MachineRun { st, evs: Seq::empty(), err: Some(e) },
            Ok((st1, evs1)) => {
                let r = spec_run(st1, fs.skip(1));
                MachineRun { st: r.st, evs: evs1 + r.evs, err: r.err }
            },
        }
    }
}

/// The stream an event belongs to, when it names one.
pub open spec fn ev_stream(e: EventView) -> Option<u64> {
    match e {
        EventView::MsgMeta(sid, _, _) => Some(sid),
        EventView::PayloadData(sid, _, _) => Some(sid),
        EventView::PayloadFinished(sid, _, _) => Some(sid),
        EventView::AttachmentData(sid, _, _, _) => Some(sid),
        EventView::AttachmentFinished(sid, _, _, _) => Some(sid),
        EventView::MessageFinished(sid, _) => Some(sid),
        EventView::MessageAborted(o) => o,
    }
}

/// Whether an event announces a stream's header.
pub open spec fn is_meta_ev(e: EventView) -> bool {
    e is MsgMeta
}

/// Whether an event carries payload or attachment bytes mid-stream.
pub open spec fn is_data_ev(e: EventView) -> bool {
    e is PayloadData || e is AttachmentData
}

/// Whether an event ends its stream.
pub open spec fn is_terminal_ev(e: EventView) -> bool {
    e is MessageFinished || (e is MessageAborted && ev_stream(e) is Some)
}

/// What one accepted machine step can do, whatever the frame: every
/// event it emits names the frame's stream; data events only continue a
/// stream the machine already tracks; a header event only opens a fresh
/// stream; a terminal event closes its stream and comes last.
#[verifier::rlimit(100)]
pub proof fn lemma_step_facts(st: Map<u64, StreamStView>, f: FrameView)
    requires
        spec_step(st, f) is Ok,
    ensures
        ({
            let (st1, evs) = spec_step(st, f)->Ok_0;
            &&& 1 <= evs.len() <= 2
            &&& forall|i: int|
                0 <= i < evs.len() ==> (ev_stream(#[trigger] evs[i]) is Some ==> ev_stream(
                    evs[i],
                )->Some_0 == f.stream_id)
            &&& forall|i: int|
                0 <= i < evs.len() ==> (is_data_ev(#[trigger] evs[i]) ==> st.contains_key(
                    f.stream_id,
                ))
            &&& forall|i: int|
                0 <= i < evs.len() ==> (is_meta_ev(#[trigger] evs[i]) ==> f.kind
                    == FrameKind::MsgMeta)
            &&& forall|i: int|
                0 <= i < evs.len() ==> (is_terminal_ev(#[trigger] evs[i]) ==> st.contains_key(
                    f.stream_id,
                ) && !st1.contains_key(f.stream_id) && i == evs.len() - 1)
            &&& forall|sid: u64|
                #[trigger] st1.contains_key(sid) ==> st.contains_key(sid) || (f.kind
                    == FrameKind::MsgMeta && sid == f.stream_id)
            &&& (f.kind == FrameKind::MsgMeta ==> evs.len() == 1 && is_meta_ev(evs[0])
                && !st.contains_key(f.stream_id) && st1.contains_key(f.stream_id) && ev_stream(
                evs[0],
            ) == Some(f.stream_id))
            &&& forall|i: int|
                0 <= i < evs.len() ==> (ev_stream(#[trigger] evs[i]) is Some ==> (st.contains_key(
                    f.stream_id,
                ) || f.kind == FrameKind::MsgMeta))
        }),
{
    let (st1, evs) = spec_step(st, f)->Ok_0;
    match f.kind {
        FrameKind::MsgMeta => {
            assert(evs.len() == 1);
        },
        FrameKind::PayloadData => {
            assert(evs.len() == 1);
        },
        FrameKind::PayloadFinished => {
            assert(st.contains_key(f.stream_id));
            if st[f.stream_id].meta.attachments.len() == 0 {
                assert(evs.len() == 2);
            } else {
                assert(evs.len() == 1);
            }
        },
        FrameKind::AttachmentData => {
            assert(evs.len() == 1);
        },
        FrameKind::AttachmentFinished => {
            assert(st.contains_key(f.stream_id));
            let s = st[f.stream_id];
            if s.att_idx + 1 == s.meta.attachments.len() {
                assert(evs.len() == 2);
            } else {
                assert(evs.len() == 1);
            }
        },
        FrameKind::MessageFinished => {
            assert(evs.len() == 1);
        },
        FrameKind::MessageAborted => {
            assert(evs.len() == 1);
        },
    }
}

/// Whether some event before position `i` announces the header of
/// stream `sid`.
pub open spec fn has_meta_before(evs: Seq<EventView>, sid: u64, i: int) -> bool {
    exists|j: int|
        0 <= j < i && is_meta_ev(#[trigger] evs[j]) && ev_stream(evs[j]) == Some(sid)
}

/// Every payload or attachment data event is preceded by the header
/// event of its stream.
pub open spec fn data_preceded_by_meta(evs: Seq<EventView>) -> bool {
    forall|i: int|
        0 <= i < evs.len() && is_data_ev(#[trigger] evs[i]) ==> has_meta_before(
            evs,
            ev_stream(evs[i])->Some_0,
            i,
        )
}

proof fn lemma_run_meta_first(
    st: Map<u64, StreamStView>,
    fs: Seq<FrameView>,
    pre: Seq<EventView>,
)
    requires
        data_preceded_by_meta(pre),
        forall|sid: u64|
            #[trigger] st.contains_key(sid) ==> has_meta_before(pre, sid, pre.len() as int),
    ensures
        data_preceded_by_meta(pre + spec_run(st, fs).evs),
    decreases fs.len(),
{
    let r = spec_run(st, fs);
    if fs.len() == 0 || spec_step(st, fs[0]) is Err {
        assert(pre + r.evs =~= pre);
    } else {
        let f = fs[0];
        let (st1, evs1) = spec_step(st, f)->Ok_0;
        lemma_step_facts(st, f);
        let pre1 = pre + evs1;
        assert(forall|j: int| 0 <= j < pre.len() ==> #[trigger] pre1[j] == pre[j]);
        assert(data_preceded_by_meta(pre1)) by {
            assert forall|i: int|
                0 <= i < pre1.len() && is_data_ev(#[trigger] pre1[i]) implies has_meta_before(
                pre1,
                ev_stream(pre1[i])->Some_0,
                i,
            ) by {
                if i < pre.len() {
                    assert(has_meta_before(pre, ev_stream(pre[i])->Some_0, i));
                    let j = choose|j: int|
                        0 <= j < i && is_meta_ev(#[trigger] pre[j]) && ev_stream(pre[j]) == Some(
                            ev_stream(pre[i])->Some_0,
                        );
                    assert(is_meta_ev(pre1[j]));
                } else {
                    assert(st.contains_key(f.stream_id));
                    assert(has_meta_before(pre, f.stream_id, pre.len() as int));
                    let j = choose|j: int|
                        0 <= j < pre.len() && is_meta_ev(#[trigger] pre[j]) && ev_stream(pre[j])
                            == Some(f.stream_id);
                    assert(is_meta_ev(pre1[j]));
                }
            }
        }
        assert(forall|sid: u64|
            #[trigger] st1.contains_key(sid) ==> has_meta_before(pre1, sid, pre1.len() as int))
            by {
            assert forall|sid: u64| #[trigger] st1.contains_key(sid) implies has_meta_before(
                pre1,
                sid,
                pre1.len() as int,
            ) by {
                if st.contains_key(sid) {
                    let j = choose|j: int|
                        0 <= j < pre.len() && is_meta_ev(#[trigger] pre[j]) && ev_stream(pre[j])
                            == Some(sid);
                    assert(is_meta_ev(pre1[j]));
                } else {
                    assert(f.kind == FrameKind::MsgMeta && sid == f.stream_id);
                    assert(is_meta_ev(pre1[pre.len() as int]) && ev_stream(pre1[pre.len() as int])
                        == Some(sid));
                }
            }
        }
        lemma_run_meta_first(st1, fs.skip(1), pre1);
        assert(pre + r.evs =~= pre1 + spec_run(st1, fs.skip(1)).evs);
    }
}

/// Read-order safety: in any run of the machine from a fresh connection,
/// no payload or attachment data event for a stream id comes before that
/// stream's header event.
pub proof fn lemma_no_data_before_meta(fs: Seq<FrameView>)
    ensures
        data_preceded_by_meta(spec_run(Map::<u64, StreamStView>::empty(), fs).evs),
{
    let pre = Seq::<EventView>::empty();
    lemma_run_meta_first(Map::<u64, StreamStView>::empty(), fs, pre);
    assert(pre + spec_run(Map::<u64, StreamStView>::empty(), fs).evs =~= spec_run(
        Map::<u64, StreamStView>::empty(),
        fs,
    ).evs);
}

/// No event for a stream follows that stream's terminal event.
pub open spec fn no_event_after_terminal(evs: Seq<EventView>) -> bool {
    forall|i: int, j: int|
        0 <= i < j < evs.len() && is_terminal_ev(#[trigger] evs[i]) && ev_stream(evs[i])
            == ev_stream(#[trigger] evs[j]) ==> false
}

/// How many header frames for stream `sid` a frame sequence holds.
pub open spec fn count_metas(fs: Seq<FrameView>, sid: u64) -> int
    decreases fs.len(),
{
    if fs.len() == 0 {
        0
    } else {
        (if fs[0].kind == FrameKind::MsgMeta && fs[0].stream_id == sid {
            1int
        } else {
            0int
        }) + count_metas(fs.skip(1), sid)
    }
}

proof fn lemma_count_metas_nonneg(fs: Seq<FrameView>, sid: u64)
    ensures
        count_metas(fs, sid) >= 0,
    decreases fs.len(),
{
    if fs.len() > 0 {
        lemma_count_metas_nonneg(fs.skip(1), sid);
    }
}

/// Whether some event in `evs` is a terminal for `sid`.
pub open spec fn has_terminal(evs: Seq<EventView>, sid: u64) -> bool {
    exists|i: int|
        0 <= i < evs.len() && is_terminal_ev(#[trigger] evs[i]) && ev_stream(evs[i]) == Some(sid)
}

proof fn lemma_run_terminal(st: Map<u64, StreamStView>, fs: Seq<FrameView>, pre: Seq<EventView>)
    requires
        no_event_after_terminal(pre),
        forall|sid: u64| #[trigger] st.contains_key(sid) ==> !has_terminal(pre, sid),
        forall|sid: u64|
            (#[trigger] has_terminal(pre, sid) || st.contains_key(sid)) ==> count_metas(fs, sid)
                == 0,
        forall|sid: u64| #[trigger] count_metas(fs, sid) <= 1,
    ensures
        no_event_after_terminal(pre + spec_run(st, fs).evs),
    decreases fs.len(),
{
    let r = spec_run(st, fs);
    if fs.len() == 0 || spec_step(st, fs[0]) is Err {
        assert(pre + r.evs =~= pre);
    } else {
        let f = fs[0];
        let (st1, evs1) = spec_step(st, f)->Ok_0;
        lemma_step_facts(st, f);
        let pre1 = pre + evs1;
        let rest = fs.skip(1);
        assert(forall|j: int| 0 <= j < pre.len() ==> #[trigger] pre1[j] == pre[j]);
        // Counting header frames: consuming the head relates the counts.
        assert(forall|sid: u64|
            #[trigger] count_metas(fs, sid) == (if f.kind == FrameKind::MsgMeta && f.stream_id
                == sid {
                1int
            } else {
                0int
            }) + count_metas(rest, sid));
        assert(forall|sid: u64| #[trigger] count_metas(rest, sid) >= 0) by {
            assert forall|sid: u64| #[trigger] count_metas(rest, sid) >= 0 by {
                lemma_count_metas_nonneg(rest, sid);
            }
        }
        // The frame's stream saw no terminal yet when it is tracked or a
        // fresh header (whose count says no terminal could have been).
        assert((st.contains_key(f.stream_id) || f.kind == FrameKind::MsgMeta) ==> !has_terminal(
            pre,
            f.stream_id,
        )) by {
            if st.contains_key(f.stream_id) {
            } else if f.kind == FrameKind::MsgMeta {
                if has_terminal(pre, f.stream_id) {
                    assert(count_metas(fs, f.stream_id) == 0);
                    lemma_count_metas_nonneg(rest, f.stream_id);
                }
            }
        }
        // No event after a terminal in the extended trace.
        assert(no_event_after_terminal(pre1)) by {
            assert forall|i: int, j: int|
                0 <= i < j < pre1.len() && is_terminal_ev(#[trigger] pre1[i]) && ev_stream(pre1[i])
                    == ev_stream(#[trigger] pre1[j]) implies false by {
                if j < pre.len() {
                } else {
                    let je = pre1[j];
                    if ev_stream(je) is Some {
                        assert(ev_stream(je)->Some_0 == f.stream_id);
                        if i < pre.len() {
                            assert(is_terminal_ev(pre[i]) && ev_stream(pre[i]) == Some(
                                f.stream_id,
                            ));
                            assert(has_terminal(pre, f.stream_id));
                        } else {
                            assert(is_terminal_ev(evs1[i - pre.len()]));
                            assert(i - pre.len() == evs1.len() - 1);
                            assert(j - pre.len() > i - pre.len());
                        }
                    }
                }
            }
        }
        // Invariants for the rest of the run.
        assert(forall|sid: u64| #[trigger] st1.contains_key(sid) ==> !has_terminal(pre1, sid)) by {
            assert forall|sid: u64| #[trigger] st1.contains_key(sid) implies !has_terminal(
                pre1,
                sid,
            ) by {
                if has_terminal(pre1, sid) {
                    let i = choose|i: int|
                        0 <= i < pre1.len() && is_terminal_ev(#[trigger] pre1[i]) && ev_stream(
                            pre1[i],
                        ) == Some(sid);
                    if i < pre.len() {
                        assert(has_terminal(pre, sid));
                        assert(!st.contains_key(sid));
                        assert(f.kind == FrameKind::MsgMeta && sid == f.stream_id);
                        assert(count_metas(fs, sid) == 0);
                        lemma_count_metas_nonneg(rest, sid);
                    } else {
                        assert(is_terminal_ev(evs1[i - pre.len()]));
                        assert(ev_stream(evs1[i - pre.len()]) == Some(f.stream_id));
                        assert(sid == f.stream_id);
                        assert(!st1.contains_key(f.stream_id));
                    }
                }
            }
        }
        assert(forall|sid: u64|
            (#[trigger] has_terminal(pre1, sid) || st1.contains_key(sid)) ==> count_metas(
                rest,
                sid,
            ) == 0) by {
            assert forall|sid: u64|
                #[trigger] has_terminal(pre1, sid) || st1.contains_key(sid) implies count_metas(
                rest,
                sid,
            ) == 0 by {
                lemma_count_metas_nonneg(rest, sid);
                if has_terminal(pre1, sid) {
                    let i = choose|i: int|
                        0 <= i < pre1.len() && is_terminal_ev(#[trigger] pre1[i]) && ev_stream(
                            pre1[i],
                        ) == Some(sid);
                    if i < pre.len() {
                        assert(has_terminal(pre, sid));
                        assert(count_metas(fs, sid) == 0);
                    } else {
                        assert(sid == f.stream_id);
                        assert(st.contains_key(f.stream_id));
                        assert(count_metas(fs, sid) == 0);
                    }
                } else {
                    assert(st1.contains_key(sid));
                    if st.contains_key(sid) {
                        assert(count_metas(fs, sid) == 0);
                    } else {
                        assert(f.kind == FrameKind::MsgMeta && sid == f.stream_id);
                        assert(count_metas(fs, sid) <= 1);
                    }
                }
            }
        }
        assert(forall|sid: u64| #[trigger] count_metas(rest, sid) <= 1) by {
            assert forall|sid: u64| #[trigger] count_metas(rest, sid) <= 1 by {
                assert(count_metas(fs, sid) <= 1);
            }
        }
        lemma_run_terminal(st1, rest, pre1);
        assert(pre + r.evs =~= pre1 + spec_run(st1, rest).evs);
    }
}

/// Terminal-order safety: when every stream id opens at most once, a run
/// of the machine from a fresh connection emits at most one terminal
/// event per stream id, and no event for a stream id follows its
/// terminal.  (Two terminals for one stream would themselves violate the
/// order, so this covers both halves.)
pub proof fn lemma_one_terminal_per_stream(fs: Seq<FrameView>)
    requires
        forall|sid: u64| #[trigger] count_metas(fs, sid) <= 1,
    ensures
        no_event_after_terminal(spec_run(Map::<u64, StreamStView>::empty(), fs).evs),
{
    let pre = Seq::<EventView>::empty();
    assert(forall|sid: u64| !(#[trigger] has_terminal(pre, sid)));
    lemma_run_terminal(Map::<u64, StreamStView>::empty(), fs, pre);
    assert(pre + spec_run(Map::<u64, StreamStView>::empty(), fs).evs =~= spec_run(
        Map::<u64, StreamStView>::empty(),
        fs,
    ).evs);
}

} // verus!
