//! The write path: turning one logical message into its frame sequence.
//!
//! The header travels first, as a length-prefixed metadata blob in a
//! single frame; then the payload in full frames with a short closing
//! frame; then each attachment likewise; the final frame of the whole
//! message has the message-finished kind and piggybacks the last bytes.

use vstd::prelude::*;
use crate::err::ProcessError;
use crate::frame::{
    msg_kind_tag, spec_msg_kind_tag, wf_frame, Frame, FrameKind, FrameView, DATA_BUF_SIZE,
};
use crate::meta::{MsgMeta, MetaView, wf_meta};
use crate::metajson::{encode_meta, meta_json};
use crate::nums::{push_u32_be, u32_be};
use crate::vecs::{push_all, vec_copy_range};
use crate::json::wf_str;

verus! {

/// The views of a vector of frames.
pub open spec fn frames_view(v: Seq<Frame>) -> Seq<FrameView> {
    v.map_values(|f: Frame| f@)
}

/// The views of a vector of attachment buffers.
pub open spec fn bufs_view(v: Seq<Vec<u8>>) -> Seq<Seq<u8>> {
    v.map_values(|b: Vec<u8>| b@)
}

/// The metadata blob: a four-byte length prefix and the canonical
/// rendering of the header.
pub open spec fn meta_blob(m: MetaView) -> Seq<u8> {
    u32_be(meta_json(m).len() as u32) + meta_json(m)
}

/// A data-bearing frame of the given kind.
pub open spec fn data_frame(
    sid: u64,
    kh: u64,
    tag: u8,
    dk: FrameKind,
    idx: u8,
    d: Seq<u8>,
) -> FrameView {
    FrameView {
        stream_id: sid,
        kind: dk,
        att_index: idx,
        n: d.len() as u16,
        key_hash: kh,
        msg_type_tag: tag,
        data: d,
    }
}

/// The header frame of a stream.
pub open spec fn meta_frame(sid: u64, kh: u64, m: MetaView) -> FrameView {
    data_frame(sid, kh, spec_msg_kind_tag(m.kind), FrameKind::MsgMeta, 0, meta_blob(m))
}

/// Frames of the final segment of a message: full frames of `dk`, then
/// one message-finished frame piggybacking the remainder (possibly
/// empty).
pub open spec fn tail_frames(
    sid: u64,
    kh: u64,
    tag: u8,
    dk: FrameKind,
    idx: u8,
    d: Seq<u8>,
) -> Seq<FrameView>
    decreases d.len(),
{
    if d.len() <= DATA_BUF_SIZE as int {
        seq![data_frame(sid, kh, tag, FrameKind::MessageFinished, idx, d)]
    } else {
        seq![data_frame(sid, kh, tag, dk, idx, d.take(DATA_BUF_SIZE as int))] + tail_frames(
            sid,
            kh,
            tag,
            dk,
            idx,
            d.skip(DATA_BUF_SIZE as int),
        )
    }
}

/// Frames of a payload that attachments will follow: full payload
/// frames, then one short payload-finished frame; nothing when the
/// payload is empty.
pub open spec fn mid_payload_frames(sid: u64, kh: u64, tag: u8, d: Seq<u8>) -> Seq<FrameView>
    decreases d.len(),
{
    if d.len() == 0 {
        Seq::empty()
    } else if d.len() <= DATA_BUF_SIZE as int {
        seq![data_frame(sid, kh, tag, FrameKind::PayloadFinished, 0, d)]
    } else {
        seq![data_frame(sid, kh, tag, FrameKind::PayloadData, 0, d.take(DATA_BUF_SIZE as int))]
            + mid_payload_frames(sid, kh, tag, d.skip(DATA_BUF_SIZE as int))
    }
}

/// Frames of one attachment that is not the last: full frames, then one
/// attachment-finished frame (alone when the attachment is empty).
pub open spec fn att_frames(sid: u64, kh: u64, tag: u8, idx: u8, d: Seq<u8>) -> Seq<FrameView>
    decreases d.len(),
{
    if d.len() <= DATA_BUF_SIZE as int {
        seq![data_frame(sid, kh, tag, FrameKind::AttachmentFinished, idx, d)]
    } else {
        seq![data_frame(sid, kh, tag, FrameKind::AttachmentData, idx, d.take(DATA_BUF_SIZE as int))]
            + att_frames(sid, kh, tag, idx, d.skip(DATA_BUF_SIZE as int))
    }
}

/// Frames of the attachments from index `base` on; the last one closes
/// the whole message.
pub open spec fn atts_frames(sid: u64, kh: u64, tag: u8, atts: Seq<Seq<u8>>, base: u8) -> Seq<
    FrameView,
>
    decreases atts.len(),
{
    if atts.len() == 0 {
        Seq::empty()
    } else if atts.len() == 1 {
        tail_frames(sid, kh, tag, FrameKind::AttachmentData, base, atts[0])
    } else {
        att_frames(sid, kh, tag, base, atts[0]) + atts_frames(
            sid,
            kh,
            tag,
            atts.skip(1),
            (base + 1) as u8,
        )
    }
}

/// The whole frame sequence of one message.
pub open spec fn spec_encode_message(
    sid: u64,
    kh: u64,
    m: MetaView,
    payload: Seq<u8>,
    atts: Seq<Seq<u8>>,
) -> Seq<FrameView> {
    let tag = spec_msg_kind_tag(m.kind);
    seq![meta_frame(sid, kh, m)] + (if atts.len() == 0 {
        tail_frames(sid, kh, tag, FrameKind::PayloadData, 0, payload)
    } else {
        mid_payload_frames(sid, kh, tag, payload) + atts_frames(sid, kh, tag, atts, 0)
    })
}

/// Why the encoder refuses a message, if it does: a malformed header, a
/// declared size that does not match the bytes, or a header too large
/// for one frame.
pub open spec fn spec_encode_err(m: MetaView, payload: Seq<u8>, atts: Seq<Seq<u8>>) -> Option<
    ProcessError,
> {
    if !wf_meta(m) {
        Some(ProcessError::MalformedMeta)
    } else if payload.len() != m.payload_size as int {
        Some(ProcessError::SizeMismatch)
    } else if atts.len() != m.attachments.len() || (exists|i: int|
        0 <= i < atts.len() && (#[trigger] atts[i]).len() != m.attachments[i].size as int) {
        Some(ProcessError::SizeMismatch)
    } else if 4 + meta_json(m).len() > DATA_BUF_SIZE as int {
        Some(ProcessError::MetaTooLarge)
    } else {
        None
    }
}

/// Whether all bytes of `v` are above the control range.
pub fn is_wf_str(v: &Vec<u8>) -> (r: bool)
    ensures
        r == wf_str(v@),
{
    let l = v.len();
    let mut i: usize = 0;
    while i < l
        invariant
            i <= l,
            l == v@.len(),
            forall|k: int| 0 <= k < i ==> #[trigger] v@[k] >= 0x20,
        decreases l - i,
    {
        if v[i] < 0x20 {
            return false;
        }
        i = i + 1;
    }
    true
}

/// Whether a header is well formed, mirroring `wf_meta`.
pub fn is_wf_meta(m: &MsgMeta) -> (r: bool)
    ensures
        r == wf_meta(m@),
{
    if !is_wf_str(&m.tx) || !is_wf_str(&m.rx) || !is_wf_str(&m.key) || !is_wf_str(&m.route.source) {
        return false;
    }
    let lp = m.route.points.len();
    let mut i: usize = 0;
    while i < lp
        invariant
            i <= lp,
            lp == m.route.points@.len(),
            forall|k: int| 0 <= k < i ==> wf_str(#[trigger] m.route@.points[k]),
        decreases lp - i,
    {
        if !is_wf_str(&m.route.points[i]) {
            assert(!wf_str(m.route@.points[i as int]));
            return false;
        }
        assert(m.route@.points[i as int] == m.route.points@[i as int]@);
        i = i + 1;
    }
    let la = m.attachments.len();
    let mut j: usize = 0;
    while j < la
        invariant
            j <= la,
            la == m.attachments@.len(),
            forall|k: int| 0 <= k < j ==> wf_str(#[trigger] m@.attachments[k].name),
        decreases la - j,
    {
        if !is_wf_str(&m.attachments[j].name) {
            assert(!wf_str(m@.attachments[j as int].name));
            return false;
        }
        assert(m@.attachments[j as int].name == m.attachments@[j as int].name@);
        j = j + 1;
    }
    if la > 255 {
        return false;
    }
    let kind_ok = match m.kind {
        crate::frame::MsgKind::Event => true,
        _ => m.correlation_id.is_some(),
    };
    kind_ok
}

/// Appends the final segment of a message, mirroring `tail_frames`.
fn push_tail_frames(
    out: &mut Vec<Frame>,
    sid: u64,
    kh: u64,
    tag: u8,
    dk: FrameKind,
    idx: u8,
    d: &Vec<u8>,
)
    ensures
        frames_view(final(out)@) == frames_view(old(out)@) + tail_frames(sid, kh, tag, dk, idx, d@),
{
    let mut off: usize = 0;
    let l = d.len();
    assert(d@.skip(0) =~= d@);
    while l - off > DATA_BUF_SIZE
        invariant
            off <= l,
            l == d@.len(),
            frames_view(old(out)@) + tail_frames(sid, kh, tag, dk, idx, d@) == frames_view(out@)
                + tail_frames(sid, kh, tag, dk, idx, d@.skip(off as int)),
        decreases l - off,
    {
        let ghost before = frames_view(out@);
        let chunk = vec_copy_range(d, off, off + DATA_BUF_SIZE);
        let f = Frame {
            stream_id: sid,
            kind: dk,
            att_index: idx,
            n: DATA_BUF_SIZE as u16,
            key_hash: kh,
            msg_type_tag: tag,
            data: chunk,
        };
        proof {
            assert(d@.skip(off as int).take(DATA_BUF_SIZE as int) =~= d@.subrange(
                off as int,
                off + DATA_BUF_SIZE,
            ));
            assert(f@ == data_frame(sid, kh, tag, dk, idx, d@.skip(off as int).take(
                DATA_BUF_SIZE as int,
            )));
        }
        out.push(f);
        proof {
            assert(frames_view(out@) =~= before.push(data_frame(
                sid,
                kh,
                tag,
                dk,
                idx,
                d@.skip(off as int).take(DATA_BUF_SIZE as int),
            )));
            assert(d@.skip(off as int).skip(DATA_BUF_SIZE as int) =~= d@.skip(
                off + DATA_BUF_SIZE,
            ));
            assert(before + tail_frames(sid, kh, tag, dk, idx, d@.skip(off as int))
                =~= frames_view(out@) + tail_frames(sid, kh, tag, dk, idx, d@.skip(
                off + DATA_BUF_SIZE,
            )));
        }
        off = off + DATA_BUF_SIZE;
    }
    let ghost before = frames_view(out@);
    let rest = vec_copy_range(d, off, l);
    let f = Frame {
        stream_id: sid,
        kind: FrameKind::MessageFinished,
        att_index: idx,
        n: (l - off) as u16,
        key_hash: kh,
        msg_type_tag: tag,
        data: rest,
    };
    proof {
        assert(f@ == data_frame(sid, kh, tag, FrameKind::MessageFinished, idx, d@.skip(
            off as int,
        ))) by {
            assert(d@.subrange(off as int, l as int) =~= d@.skip(off as int));
        }
    }
    out.push(f);
    proof {
        assert(frames_view(out@) =~= before.push(data_frame(
            sid,
            kh,
            tag,
            FrameKind::MessageFinished,
            idx,
            d@.skip(off as int),
        )));
        assert(before + tail_frames(sid, kh, tag, dk, idx, d@.skip(off as int)) =~= frames_view(
            out@,
        ));
        assert(frames_view(old(out)@) + tail_frames(sid, kh, tag, dk, idx, d@) =~= frames_view(
            out@,
        ));
    }
}

/// Appends the payload segment of a message with attachments, mirroring
/// `mid_payload_frames`.
fn push_mid_payload_frames(out: &mut Vec<Frame>, sid: u64, kh: u64, tag: u8, d: &Vec<u8>)
    ensures
        frames_view(final(out)@) == frames_view(old(out)@) + mid_payload_frames(sid, kh, tag, d@),
{
    let l = d.len();
    if l == 0 {
        assert(frames_view(out@) =~= frames_view(old(out)@) + mid_payload_frames(
            sid,
            kh,
            tag,
            d@,
        ));
        return ;
    }
    let mut off: usize = 0;
    assert(d@.skip(0) =~= d@);
    while l - off > DATA_BUF_SIZE
        invariant
            off <= l,
            l == d@.len(),
            l - off > 0,
            frames_view(old(out)@) + mid_payload_frames(sid, kh, tag, d@) == frames_view(out@)
                + mid_payload_frames(sid, kh, tag, d@.skip(off as int)),
        decreases l - off,
    {
        let ghost before = frames_view(out@);
        let chunk = vec_copy_range(d, off, off + DATA_BUF_SIZE);
        let f = Frame {
            stream_id: sid,
            kind: FrameKind::PayloadData,
            att_index: 0,
            n: DATA_BUF_SIZE as u16,
            key_hash: kh,
            msg_type_tag: tag,
            data: chunk,
        };
        proof {
            assert(d@.skip(off as int).take(DATA_BUF_SIZE as int) =~= d@.subrange(
                off as int,
                off + DATA_BUF_SIZE,
            ));
            assert(f@ == data_frame(sid, kh, tag, FrameKind::PayloadData, 0, d@.skip(
                off as int,
            ).take(DATA_BUF_SIZE as int)));
        }
        out.push(f);
        proof {
            assert(frames_view(out@) =~= before.push(data_frame(
                sid,
                kh,
                tag,
                FrameKind::PayloadData,
                0,
                d@.skip(off as int).take(DATA_BUF_SIZE as int),
            )));
            assert(d@.skip(off as int).skip(DATA_BUF_SIZE as int) =~= d@.skip(
                off + DATA_BUF_SIZE,
            ));
            assert(before + mid_payload_frames(sid, kh, tag, d@.skip(off as int)) =~= frames_view(
                out@,
            ) + mid_payload_frames(sid, kh, tag, d@.skip(off + DATA_BUF_SIZE)));
        }
        off = off + DATA_BUF_SIZE;
    }
    let ghost before = frames_view(out@);
    let rest = vec_copy_range(d, off, l);
    let f = Frame {
        stream_id: sid,
        kind: FrameKind::PayloadFinished,
        att_index: 0,
        n: (l - off) as u16,
        key_hash: kh,
        msg_type_tag: tag,
        data: rest,
    };
    proof {
        assert(f@ == data_frame(sid, kh, tag, FrameKind::PayloadFinished, 0, d@.skip(
            off as int,
        ))) by {
            assert(d@.subrange(off as int, l as int) =~= d@.skip(off as int));
        }
    }
    out.push(f);
    proof {
        assert(frames_view(out@) =~= before.push(data_frame(
            sid,
            kh,
            tag,
            FrameKind::PayloadFinished,
            0,
            d@.skip(off as int),
        )));
        assert(before + mid_payload_frames(sid, kh, tag, d@.skip(off as int)) =~= frames_view(
            out@,
        ));
        assert(frames_view(old(out)@) + mid_payload_frames(sid, kh, tag, d@) =~= frames_view(out@));
    }
}

/// Appends the frames of one attachment that is not the last, mirroring
/// `att_frames`.
fn push_att_frames(out: &mut Vec<Frame>, sid: u64, kh: u64, tag: u8, idx: u8, d: &Vec<u8>)
    ensures
        frames_view(final(out)@) == frames_view(old(out)@) + att_frames(sid, kh, tag, idx, d@),
{
    let mut off: usize = 0;
    let l = d.len();
    assert(d@.skip(0) =~= d@);
    while l - off > DATA_BUF_SIZE
        invariant
            off <= l,
            l == d@.len(),
            frames_view(old(out)@) + att_frames(sid, kh, tag, idx, d@) == frames_view(out@)
                + att_frames(sid, kh, tag, idx, d@.skip(off as int)),
        decreases l - off,
    {
        let ghost before = frames_view(out@);
        let chunk = vec_copy_range(d, off, off + DATA_BUF_SIZE);
        let f = Frame {
            stream_id: sid,
            kind: FrameKind::AttachmentData,
            att_index: idx,
            n: DATA_BUF_SIZE as u16,
            key_hash: kh,
            msg_type_tag: tag,
            data: chunk,
        };
        proof {
            assert(d@.skip(off as int).take(DATA_BUF_SIZE as int) =~= d@.subrange(
                off as int,
                off + DATA_BUF_SIZE,
            ));
            assert(f@ == data_frame(sid, kh, tag, FrameKind::AttachmentData, idx, d@.skip(
                off as int,
            ).take(DATA_BUF_SIZE as int)));
        }
        out.push(f);
        proof {
            assert(frames_view(out@) =~= before.push(data_frame(
                sid,
                kh,
                tag,
                FrameKind::AttachmentData,
                idx,
                d@.skip(off as int).take(DATA_BUF_SIZE as int),
            )));
            assert(d@.skip(off as int).skip(DATA_BUF_SIZE as int) =~= d@.skip(
                off + DATA_BUF_SIZE,
            ));
            assert(before + att_frames(sid, kh, tag, idx, d@.skip(off as int)) =~= frames_view(
                out@,
            ) + att_frames(sid, kh, tag, idx, d@.skip(off + DATA_BUF_SIZE)));
        }
        off = off + DATA_BUF_SIZE;
    }
    let ghost before = frames_view(out@);
    let rest = vec_copy_range(d, off, l);
    let f = Frame {
        stream_id: sid,
        kind: FrameKind::AttachmentFinished,
        att_index: idx,
        n: (l - off) as u16,
        key_hash: kh,
        msg_type_tag: tag,
        data: rest,
    };
    proof {
        assert(f@ == data_frame(sid, kh, tag, FrameKind::AttachmentFinished, idx, d@.skip(
            off as int,
        ))) by {
            assert(d@.subrange(off as int, l as int) =~= d@.skip(off as int));
        }
    }
    out.push(f);
    proof {
        assert(frames_view(out@) =~= before.push(data_frame(
            sid,
            kh,
            tag,
            FrameKind::AttachmentFinished,
            idx,
            d@.skip(off as int),
        )));
        assert(before + att_frames(sid, kh, tag, idx, d@.skip(off as int)) =~= frames_view(out@));
        assert(frames_view(old(out)@) + att_frames(sid, kh, tag, idx, d@) =~= frames_view(out@));
    }
}

/// Encodes one message as its frame sequence: the header frame, the
/// payload frames, the attachment frames, closed by a message-finished
/// frame.  Refuses a malformed header, sizes that do not match the
/// bytes, and a header blob that does not fit one frame, exactly as
/// `spec_encode_err` says.
#[verifier::rlimit(100)]
pub fn encode_message(
    stream_id: u64,
    key_hash: u64,
    meta: &MsgMeta,
    payload: &Vec<u8>,
    attachments: &Vec<Vec<u8>>,
) -> (r: Result<Vec<Frame>, ProcessError>)
    ensures
        match r {
            Ok(frames) => spec_encode_err(meta@, payload@, bufs_view(attachments@)) is None
                && frames_view(frames@) == spec_encode_message(
                stream_id,
                key_hash,
                meta@,
                payload@,
                bufs_view(attachments@),
            ),
            Err(e) => spec_encode_err(meta@, payload@, bufs_view(attachments@)) == Some(e),
        },
{
    let ghost av = bufs_view(attachments@);
    if !is_wf_meta(meta) {
        return Err(ProcessError::MalformedMeta);
    }
    if payload.len() as u64 != meta.payload_size {
        return Err(ProcessError::SizeMismatch);
    }
    if attachments.len() != meta.attachments.len() {
        assert(av.len() != meta@.attachments.len());
        return Err(ProcessError::SizeMismatch);
    }
    let la = attachments.len();
    let mut i: usize = 0;
    while i < la
        invariant
            i <= la,
            la == attachments@.len(),
            la == meta.attachments@.len(),
            av == bufs_view(attachments@),
            av.len() == meta@.attachments.len(),
            wf_meta(meta@),
            payload@.len() == meta@.payload_size as int,
            forall|k: int| 0 <= k < i ==> (#[trigger] av[k]).len() == meta@.attachments[k].size,
        decreases la - i,
    {
        if attachments[i].len() as u64 != meta.attachments[i].size {
            assert(av[i as int].len() != meta@.attachments[i as int].size);
            return Err(ProcessError::SizeMismatch);
        }
        assert(av[i as int].len() == meta@.attachments[i as int].size);
        i = i + 1;
    }
    let mj = encode_meta(meta);
    if mj.len() > DATA_BUF_SIZE - 4 {
        return Err(ProcessError::MetaTooLarge);
    }
    assert(spec_encode_err(meta@, payload@, av) is None);
    let mut blob: Vec<u8> = Vec::new();
    push_u32_be(&mut blob, mj.len() as u32);
    push_all(&mut blob, &mj);
    assert(blob@ == meta_blob(meta@));
    let tag = msg_kind_tag(meta.kind);
    let mf = Frame {
        stream_id,
        kind: FrameKind::MsgMeta,
        att_index: 0,
        n: blob.len() as u16,
        key_hash,
        msg_type_tag: tag,
        data: blob,
    };
    assert(mf@ == meta_frame(stream_id, key_hash, meta@));
    let mut out: Vec<Frame> = Vec::new();
    out.push(mf);
    assert(frames_view(out@) =~= seq![meta_frame(stream_id, key_hash, meta@)]);
    if attachments.len() == 0 {
        push_tail_frames(&mut out, stream_id, key_hash, tag, FrameKind::PayloadData, 0, payload);
        assert(frames_view(out@) =~= spec_encode_message(stream_id, key_hash, meta@, payload@, av));
        return Ok(out);
    }
    push_mid_payload_frames(&mut out, stream_id, key_hash, tag, payload);
    let ghost mid_done = frames_view(out@);
    assert(av.skip(0) =~= av);
    let mut j: usize = 0;
    while j + 1 < la
        invariant
            j < la,
            la == attachments@.len(),
            la <= 255,
            av == bufs_view(attachments@),
            mid_done + atts_frames(stream_id, key_hash, tag, av, 0) == frames_view(out@)
                + atts_frames(stream_id, key_hash, tag, av.skip(j as int), j as u8),
        decreases la - j,
    {
        let ghost before = frames_view(out@);
        push_att_frames(&mut out, stream_id, key_hash, tag, j as u8, &attachments[j]);
        proof {
            assert(av.skip(j as int)[0] == av[j as int]);
            assert(av.skip(j as int).skip(1) =~= av.skip(j + 1));
            assert(atts_frames(stream_id, key_hash, tag, av.skip(j as int), j as u8) == att_frames(
                stream_id,
                key_hash,
                tag,
                j as u8,
                av[j as int],
            ) + atts_frames(stream_id, key_hash, tag, av.skip(j + 1), (j + 1) as u8));
            assert(before + att_frames(stream_id, key_hash, tag, j as u8, av[j as int])
                =~= frames_view(out@));
            assert(mid_done + atts_frames(stream_id, key_hash, tag, av, 0) =~= frames_view(out@)
                + atts_frames(stream_id, key_hash, tag, av.skip(j + 1), (j + 1) as u8));
        }
        j = j + 1;
    }
    let ghost before = frames_view(out@);
    push_tail_frames(
        &mut out,
        stream_id,
        key_hash,
        tag,
        FrameKind::AttachmentData,
        j as u8,
        &attachments[j],
    );
    proof {
        assert(av.skip(j as int).len() == 1);
        assert(av.skip(j as int)[0] == av[j as int]);
        assert(atts_frames(stream_id, key_hash, tag, av.skip(j as int), j as u8) == tail_frames(
            stream_id,
            key_hash,
            tag,
            FrameKind::AttachmentData,
            j as u8,
            av[j as int],
        ));
        assert(before + tail_frames(
            stream_id,
            key_hash,
            tag,
            FrameKind::AttachmentData,
            j as u8,
            av[j as int],
        ) =~= frames_view(out@));
        assert(mid_done + atts_frames(stream_id, key_hash, tag, av, 0) =~= frames_view(out@));
        assert(frames_view(out@) =~= spec_encode_message(stream_id, key_hash, meta@, payload@, av));
    }
    Ok(out)
}

} // verus!
