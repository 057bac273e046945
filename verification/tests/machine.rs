use streaming_platform::assemble::Assembler;
use streaming_platform::encode::encode_message;
use streaming_platform::err::ProcessError;
use streaming_platform::frame::{Frame, FrameKind, MsgKind, DATA_BUF_SIZE};
use streaming_platform::meta::{Attachment, MsgMeta, Route};
use streaming_platform::readstate::{ReadResult, ReadState};

fn route_of(a: &str) -> Route {
    Route { source: a.as_bytes().to_vec(), points: vec![a.as_bytes().to_vec()] }
}

fn meta_for(payload: &[u8], atts: &[(&str, &[u8])]) -> MsgMeta {
    MsgMeta {
        tx: b"A".to_vec(),
        rx: b"B".to_vec(),
        key: b"Ping".to_vec(),
        kind: MsgKind::Event,
        correlation_id: None,
        route: route_of("A"),
        payload_size: payload.len() as u64,
        attachments: atts
            .iter()
            .map(|(n, d)| Attachment { name: n.as_bytes().to_vec(), size: d.len() as u64 })
            .collect(),
    }
}

/// Runs encoded frames through the state machine and the assembler and
/// returns every finished message.
fn pump(frames: Vec<Frame>) -> Vec<streaming_platform::assemble::StreamLayout> {
    let mut state = ReadState::new();
    let mut builder = Assembler::new();
    let mut done = Vec::new();
    for f in frames.iter() {
        let evs = state.push_frame(f).expect("well-formed frames must step");
        for ev in evs {
            if let Some(l) = builder.apply(ev).expect("events must assemble") {
                done.push(l);
            }
        }
    }
    done
}

#[test]
fn round_trip_small_message() {
    let payload = b"hi".to_vec();
    let meta = meta_for(&payload, &[]);
    let frames = encode_message(7, 99, &meta, &payload, &vec![]).expect("must encode");
    assert_eq!(frames.len(), 2); // header + piggybacked finish
    assert_eq!(frames[0].kind, FrameKind::MsgMeta);
    assert_eq!(frames[1].kind, FrameKind::MessageFinished);
    assert_eq!(frames[1].key_hash, 99);
    let done = pump(frames);
    assert_eq!(done.len(), 1);
    assert_eq!(done[0].id, 7);
    assert_eq!(done[0].msg_meta.tx, b"A".to_vec());
    assert_eq!(done[0].payload, b"hi".to_vec());
    assert_eq!(done[0].attachments_data, Vec::<u8>::new());
}

#[test]
fn round_trip_large_payload_and_attachments() {
    // Payload longer than one frame, one large and one empty attachment.
    let payload: Vec<u8> = (0..(DATA_BUF_SIZE * 2 + 100)).map(|i| (i % 251) as u8).collect();
    let att0: Vec<u8> = (0..(DATA_BUF_SIZE + 1)).map(|i| (i % 13) as u8).collect();
    let att1: Vec<u8> = Vec::new();
    let meta = meta_for(&payload, &[("big", &att0), ("empty", &att1)]);
    let frames =
        encode_message(8, 0, &meta, &payload, &vec![att0.clone(), att1.clone()]).expect("encode");
    let done = pump(frames);
    assert_eq!(done.len(), 1);
    assert_eq!(done[0].payload, payload);
    let mut flat = att0.clone();
    flat.extend_from_slice(&att1);
    assert_eq!(done[0].attachments_data, flat);
}

#[test]
fn round_trip_empty_message() {
    let meta = meta_for(&[], &[]);
    let frames = encode_message(9, 0, &meta, &vec![], &vec![]).expect("encode");
    assert_eq!(frames.len(), 2);
    assert_eq!(frames[1].kind, FrameKind::MessageFinished);
    assert_eq!(frames[1].n, 0);
    let done = pump(frames);
    assert_eq!(done.len(), 1);
    assert_eq!(done[0].payload, Vec::<u8>::new());
}

#[test]
fn round_trip_zero_byte_attachment_only() {
    // A declared attachment of size zero and no payload: the header is
    // followed by one finish frame piggybacking nothing.
    let att: Vec<u8> = Vec::new();
    let meta = meta_for(&[], &[("empty", &att)]);
    let frames = encode_message(10, 0, &meta, &vec![], &vec![att]).expect("encode");
    assert_eq!(frames.len(), 2);
    assert_eq!(frames[1].kind, FrameKind::MessageFinished);
    assert_eq!(frames[1].n, 0);
    let done = pump(frames);
    assert_eq!(done.len(), 1);
    assert_eq!(done[0].attachments_data, Vec::<u8>::new());
}

#[test]
fn encoder_rejects_size_mismatch() {
    let meta = meta_for(b"xyz", &[]);
    assert!(matches!(
        encode_message(1, 0, &meta, &b"xy".to_vec(), &vec![]),
        Err(ProcessError::SizeMismatch)
    ));
    let meta = meta_for(b"", &[("a", b"abc")]);
    assert!(matches!(
        encode_message(1, 0, &meta, &vec![], &vec![b"ab".to_vec()]),
        Err(ProcessError::SizeMismatch)
    ));
}

#[test]
fn encoder_rejects_rpc_without_correlation_id() {
    let mut meta = meta_for(b"", &[]);
    meta.kind = MsgKind::RpcRequest;
    assert!(matches!(encode_message(1, 0, &meta, &vec![], &vec![]), Err(ProcessError::MalformedMeta)));
}

#[test]
fn data_frame_before_header_fails_the_connection() {
    let mut state = ReadState::new();
    let f = Frame {
        stream_id: 5,
        kind: FrameKind::PayloadData,
        att_index: 0,
        n: 1,
        key_hash: 0,
        msg_type_tag: 0,
        data: vec![1],
    };
    assert!(matches!(state.push_frame(&f), Err(ProcessError::StreamNotFound)));
}

#[test]
fn no_events_follow_the_terminal_for_a_stream() {
    let payload = b"once".to_vec();
    let meta = meta_for(&payload, &[]);
    let frames = encode_message(11, 0, &meta, &payload, &vec![]).expect("encode");
    let mut state = ReadState::new();
    let mut seen_terminal = false;
    for f in frames.iter() {
        for ev in state.push_frame(f).expect("step") {
            assert!(!seen_terminal, "no event may follow the terminal");
            if let ReadResult::MessageFinished(sid, _) = &ev {
                assert_eq!(*sid, 11);
                seen_terminal = true;
            }
        }
    }
    assert!(seen_terminal);
    // A stray frame for the finished stream is now a protocol error.
    let stray = Frame {
        stream_id: 11,
        kind: FrameKind::PayloadData,
        att_index: 0,
        n: 0,
        key_hash: 0,
        msg_type_tag: 0,
        data: vec![],
    };
    assert!(matches!(state.push_frame(&stray), Err(ProcessError::StreamNotFound)));
}

#[test]
fn duplicate_header_is_a_protocol_error() {
    let payload = b"abc".to_vec();
    let meta = meta_for(&payload, &[]);
    let frames = encode_message(12, 0, &meta, &payload, &vec![]).expect("encode");
    let mut state = ReadState::new();
    state.push_frame(&frames[0]).expect("first header");
    assert!(matches!(state.push_frame(&frames[0]), Err(ProcessError::StreamAlreadyActive)));
}

#[test]
fn abort_drops_the_stream() {
    let payload = b"abc".to_vec();
    let meta = meta_for(&payload, &[]);
    let frames = encode_message(13, 0, &meta, &payload, &vec![]).expect("encode");
    let mut state = ReadState::new();
    let mut builder = Assembler::new();
    for ev in state.push_frame(&frames[0]).expect("header") {
        builder.apply(ev).expect("assemble");
    }
    let abort = Frame {
        stream_id: 13,
        kind: FrameKind::MessageAborted,
        att_index: 0,
        n: 0,
        key_hash: 0,
        msg_type_tag: 0,
        data: vec![],
    };
    let evs = state.push_frame(&abort).expect("abort steps");
    assert_eq!(evs.len(), 1);
    match &evs[0] {
        ReadResult::MessageAborted(Some(13)) => {},
        other => panic!("unexpected event {:?}", std::mem::discriminant(other)),
    }
    // The data frame that follows the abort finds no stream.
    assert!(matches!(state.push_frame(&frames[1]), Err(ProcessError::StreamNotFound)));
}

#[test]
fn interleaved_streams_assemble_independently() {
    let p1 = b"first".to_vec();
    let p2 = b"second".to_vec();
    let m1 = meta_for(&p1, &[]);
    let m2 = meta_for(&p2, &[]);
    let f1 = encode_message(21, 0, &m1, &p1, &vec![]).expect("encode");
    let f2 = encode_message(22, 0, &m2, &p2, &vec![]).expect("encode");
    // Interleave the two streams frame by frame.
    let mut frames = Vec::new();
    frames.push(f1[0].duplicate());
    frames.push(f2[0].duplicate());
    frames.push(f1[1].duplicate());
    frames.push(f2[1].duplicate());
    let done = pump(frames);
    assert_eq!(done.len(), 2);
    assert_eq!(done[0].id, 21);
    assert_eq!(done[0].payload, p1);
    assert_eq!(done[1].id, 22);
    assert_eq!(done[1].payload, p2);
}
