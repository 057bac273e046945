use streaming_platform::encode::encode_message;
use streaming_platform::err::ProcessError;
use streaming_platform::frame::{Frame, FrameKind, MsgKind, DATA_BUF_SIZE};
use streaming_platform::meta::{Attachment, MsgMeta, Route};
use streaming_platform::readstate::ReadState;

fn meta_with(payload_size: u64, atts: Vec<Attachment>) -> MsgMeta {
    MsgMeta {
        tx: b"A".to_vec(),
        rx: b"B".to_vec(),
        key: b"K".to_vec(),
        kind: MsgKind::Event,
        correlation_id: None,
        route: Route { source: b"A".to_vec(), points: vec![] },
        payload_size,
        attachments: atts,
    }
}

fn open_stream(state: &mut ReadState, sid: u64, payload_size: u64, atts: Vec<Attachment>) {
    let meta = meta_with(payload_size, atts.iter().map(|a| Attachment {
        name: a.name.clone(),
        size: a.size,
    }).collect());
    let payload = vec![0u8; payload_size as usize];
    let att_bufs: Vec<Vec<u8>> = atts.iter().map(|a| vec![0u8; a.size as usize]).collect();
    let frames = encode_message(sid, 0, &meta, &payload, &att_bufs).expect("encode");
    state.push_frame(&frames[0]).expect("header frame");
}

fn data_frame(sid: u64, kind: FrameKind, idx: u8, n: u16) -> Frame {
    Frame {
        stream_id: sid,
        kind,
        att_index: idx,
        n,
        key_hash: 0,
        msg_type_tag: 0,
        data: vec![0u8; n as usize],
    }
}

#[test]
fn payload_overrun_is_rejected() {
    let mut state = ReadState::new();
    open_stream(&mut state, 1, 3, vec![]);
    let f = data_frame(1, FrameKind::PayloadData, 0, 4);
    assert!(matches!(state.push_frame(&f), Err(ProcessError::PayloadOverrun)));
}

#[test]
fn payload_finish_must_match_remainder() {
    let mut state = ReadState::new();
    open_stream(&mut state, 2, 10, vec![Attachment { name: b"a".to_vec(), size: 1 }]);
    let f = data_frame(2, FrameKind::PayloadFinished, 0, 4);
    assert!(matches!(state.push_frame(&f), Err(ProcessError::PayloadFinishMismatch)));
}

#[test]
fn message_finish_must_complete_the_stream() {
    let mut state = ReadState::new();
    open_stream(&mut state, 3, 10, vec![]);
    let f = data_frame(3, FrameKind::MessageFinished, 0, 4);
    assert!(matches!(state.push_frame(&f), Err(ProcessError::FinishMismatch)));
}

#[test]
fn attachment_frames_must_name_the_attachment_in_progress() {
    let mut state = ReadState::new();
    open_stream(
        &mut state,
        4,
        0,
        vec![
            Attachment { name: b"a".to_vec(), size: 5 },
            Attachment { name: b"b".to_vec(), size: 5 },
        ],
    );
    let f = data_frame(4, FrameKind::AttachmentData, 1, 2);
    assert!(matches!(state.push_frame(&f), Err(ProcessError::AttachmentIndexMismatch)));
    let f = data_frame(4, FrameKind::AttachmentData, 0, 6);
    assert!(matches!(state.push_frame(&f), Err(ProcessError::AttachmentOverrun)));
    let f = data_frame(4, FrameKind::AttachmentFinished, 0, 2);
    assert!(matches!(state.push_frame(&f), Err(ProcessError::AttachmentFinishMismatch)));
}

#[test]
fn attachment_frames_before_payload_done_are_unexpected() {
    let mut state = ReadState::new();
    open_stream(&mut state, 5, 10, vec![Attachment { name: b"a".to_vec(), size: 5 }]);
    let f = data_frame(5, FrameKind::AttachmentData, 0, 2);
    assert!(matches!(state.push_frame(&f), Err(ProcessError::UnexpectedFrame)));
}

#[test]
fn oversize_header_does_not_fit_a_frame() {
    let meta = meta_with(0, vec![]);
    let mut big = meta;
    big.key = vec![b'k'; DATA_BUF_SIZE];
    assert!(matches!(
        encode_message(6, 0, &big, &vec![], &vec![]),
        Err(ProcessError::MetaTooLarge)
    ));
}

#[test]
fn clear_forgets_all_streams() {
    let mut state = ReadState::new();
    open_stream(&mut state, 7, 3, vec![]);
    state.clear();
    // The stream is gone: its data frame finds nothing.
    let f = data_frame(7, FrameKind::PayloadData, 0, 1);
    assert!(matches!(state.push_frame(&f), Err(ProcessError::StreamNotFound)));
}
