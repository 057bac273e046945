use streaming_platform::dto::{
    get_msg_meta, make_dto, reply_to_rpc_dto2, rpc_dto2, rpc_dto_with_correlation_id,
    send_event_dto2,
};
use streaming_platform::err::ProcessError;
use streaming_platform::frame::{
    decode_frame, encode_frame, Frame, FrameKind, MsgKind, RpcResult, DATA_BUF_SIZE, FRAME_SIZE,
};
use streaming_platform::meta::{Attachment, MsgMeta, Route};
use streaming_platform::metajson::{encode_meta, parse_meta};

fn sample_route() -> Route {
    Route {
        source: b"ClientA".to_vec(),
        points: vec![b"ClientA".to_vec(), b"Broker".to_vec()],
    }
}

fn sample_meta() -> MsgMeta {
    MsgMeta {
        tx: b"ClientA".to_vec(),
        rx: b"FileServer".to_vec(),
        key: b"Upload".to_vec(),
        kind: MsgKind::RpcRequest,
        correlation_id: Some(0x1234_5678_9abc_def0_1122_3344_5566_7788u128),
        route: sample_route(),
        payload_size: 5,
        attachments: vec![
            Attachment { name: b"data.bin".to_vec(), size: 10 },
            Attachment { name: b"empty".to_vec(), size: 0 },
        ],
    }
}

#[test]
fn frame_codec_round_trip() {
    let f = Frame {
        stream_id: 0x0102030405060708,
        kind: FrameKind::PayloadData,
        att_index: 0,
        n: 3,
        key_hash: 0xdeadbeefcafe1234,
        msg_type_tag: 0,
        data: vec![10, 20, 30],
    };
    let bytes = encode_frame(&f);
    assert_eq!(bytes.len(), FRAME_SIZE);
    assert_eq!(&bytes[0..8], &[1, 2, 3, 4, 5, 6, 7, 8]);
    assert_eq!(bytes[8], 1); // payload-data tag
    assert_eq!(bytes[10], 0);
    assert_eq!(bytes[11], 3);
    let g = decode_frame(&bytes).expect("frame must decode");
    assert_eq!(g.stream_id, f.stream_id);
    assert_eq!(g.kind, FrameKind::PayloadData);
    assert_eq!(g.n, 3);
    assert_eq!(g.key_hash, f.key_hash);
    assert_eq!(g.data, vec![10, 20, 30]);
}

#[test]
fn frame_decode_rejects_bad_sizes() {
    assert!(matches!(decode_frame(&vec![0u8; 10]), Err(ProcessError::BadFrameSize)));
    let mut bytes = vec![0u8; FRAME_SIZE];
    bytes[8] = 9; // unknown frame kind tag
    assert!(matches!(decode_frame(&bytes), Err(ProcessError::BadFrameKind)));
    let mut bytes = vec![0u8; FRAME_SIZE];
    bytes[10] = 0xff; // n = 0xff00 > DATA_BUF_SIZE
    assert!(matches!(decode_frame(&bytes), Err(ProcessError::BadByteCount)));
    assert!(0xff00 > DATA_BUF_SIZE);
}

#[test]
fn meta_json_round_trip() {
    let m = sample_meta();
    let blob = encode_meta(&m);
    let back = parse_meta(&blob).expect("canonical rendering must parse");
    assert_eq!(back.tx, m.tx);
    assert_eq!(back.rx, m.rx);
    assert_eq!(back.key, m.key);
    assert_eq!(back.kind, m.kind);
    assert_eq!(back.correlation_id, m.correlation_id);
    assert_eq!(back.route.source, m.route.source);
    assert_eq!(back.route.points, m.route.points);
    assert_eq!(back.payload_size, m.payload_size);
    assert_eq!(back.attachments.len(), 2);
    assert_eq!(back.attachments[0].name, b"data.bin".to_vec());
    assert_eq!(back.attachments[0].size, 10);
    assert_eq!(back.attachments[1].size, 0);
}

#[test]
fn meta_json_escapes_quotes_and_backslashes() {
    let mut m = sample_meta();
    m.kind = MsgKind::Event;
    m.correlation_id = None;
    m.tx = b"a\"b\\c".to_vec();
    let blob = encode_meta(&m);
    let back = parse_meta(&blob).expect("escaped rendering must parse");
    assert_eq!(back.tx, b"a\"b\\c".to_vec());
}

#[test]
fn meta_json_is_real_json() {
    let m = sample_meta();
    let blob = encode_meta(&m);
    let v: serde_json::Value =
        serde_json::from_slice(&blob).expect("canonical rendering must be valid JSON");
    assert_eq!(v["tx"], "ClientA");
    assert_eq!(v["rx"], "FileServer");
    assert_eq!(v["key"], "Upload");
    assert_eq!(v["kind"], 1);
    assert_eq!(v["correlation_id"][0], 0x1234_5678_9abc_def0u64);
    assert_eq!(v["correlation_id"][1], 0x1122_3344_5566_7788u64);
    assert_eq!(v["route"]["source"], "ClientA");
    assert_eq!(v["route"]["points"][1], "Broker");
    assert_eq!(v["payload_size"], 5);
    assert_eq!(v["attachments"][0]["name"], "data.bin");
    assert_eq!(v["attachments"][0]["size"], 10);
}

#[test]
fn meta_parse_rejects_foreign_json() {
    // Same data, different key order: not the canonical rendering.
    let blob = br#"{"rx":"B","tx":"A","key":"K","kind":0,"correlation_id":null,"route":{"source":"A","points":[]},"payload_size":0,"attachments":[]}"#.to_vec();
    assert!(matches!(parse_meta(&blob), Err(ProcessError::MetaDecodeFailed)));
    // Trailing bytes are refused too.
    let mut canonical = encode_meta(&sample_meta());
    canonical.push(b' ');
    assert!(matches!(parse_meta(&canonical), Err(ProcessError::MetaDecodeFailed)));
}

#[test]
fn meta_parse_rejects_control_bytes() {
    let mut m = sample_meta();
    m.key = vec![0x01, 0x02];
    let blob = encode_meta(&m);
    assert!(matches!(parse_meta(&blob), Err(ProcessError::MetaDecodeFailed)));
}

#[test]
fn dto_round_trip() {
    let payload = b"hello".to_vec();
    let dto = send_event_dto2(
        b"A".to_vec(),
        b"B".to_vec(),
        b"Ping".to_vec(),
        sample_route(),
        payload.clone(),
    )
    .expect("event dto must build");
    let m = get_msg_meta(&dto).expect("dto header must parse");
    assert_eq!(m.tx, b"A".to_vec());
    assert_eq!(m.rx, b"B".to_vec());
    assert_eq!(m.key, b"Ping".to_vec());
    assert_eq!(m.kind, MsgKind::Event);
    assert_eq!(m.correlation_id, None);
    assert_eq!(m.payload_size, 5);
    // The payload rides behind the header blob, byte for byte.
    assert_eq!(&dto[dto.len() - 5..], b"hello");
}

#[test]
fn reply_dto_requires_correlation_id() {
    let r = reply_to_rpc_dto2(
        b"A".to_vec(),
        b"B".to_vec(),
        b"Add".to_vec(),
        None,
        RpcResult::Okay,
        sample_route(),
        vec![],
    );
    assert_eq!(r, Err(ProcessError::MalformedMeta));
    let ok = reply_to_rpc_dto2(
        b"A".to_vec(),
        b"B".to_vec(),
        b"Add".to_vec(),
        Some(7),
        RpcResult::Failed,
        sample_route(),
        vec![],
    );
    assert!(ok.is_ok());
    let m = get_msg_meta(&ok.unwrap()).unwrap();
    assert_eq!(m.kind, MsgKind::RpcResponse(RpcResult::Failed));
    assert_eq!(m.correlation_id, Some(7));
}

#[test]
fn rpc_dto_carries_version_4_correlation_id() {
    let (c, dto) = rpc_dto2(
        b"A".to_vec(),
        b"B".to_vec(),
        b"Add".to_vec(),
        sample_route(),
        b"{}".to_vec(),
    )
    .expect("rpc dto must build");
    assert_eq!((c >> 76) & 0xf, 4);
    assert_eq!((c >> 62) & 0x3, 2);
    let m = get_msg_meta(&dto).expect("rpc dto header must parse");
    assert_eq!(m.correlation_id, Some(c));
    assert_eq!(m.kind, MsgKind::RpcRequest);
    // A second id is version 4 as well, and fresh with overwhelming
    // probability.
    let (c2, _) = rpc_dto2(
        b"A".to_vec(),
        b"B".to_vec(),
        b"Add".to_vec(),
        sample_route(),
        b"{}".to_vec(),
    )
    .unwrap();
    assert_ne!(c, c2);
}

#[test]
fn rpc_dto_with_fixed_id_is_deterministic() {
    let a = rpc_dto_with_correlation_id(
        b"A".to_vec(),
        b"B".to_vec(),
        b"Add".to_vec(),
        sample_route(),
        b"{}".to_vec(),
        42,
    )
    .unwrap();
    let b = rpc_dto_with_correlation_id(
        b"A".to_vec(),
        b"B".to_vec(),
        b"Add".to_vec(),
        sample_route(),
        b"{}".to_vec(),
        42,
    )
    .unwrap();
    assert_eq!(a, b);
    let m = get_msg_meta(&a).unwrap();
    assert_eq!(m.correlation_id, Some(42));
}

#[test]
fn make_dto_rejects_control_bytes_in_strings() {
    let mut m = sample_meta();
    m.rx = vec![0x1f];
    assert_eq!(make_dto(&m, &vec![]), Err(ProcessError::MalformedMeta));
}

#[test]
fn get_msg_meta_rejects_short_and_corrupt_blobs() {
    assert!(matches!(get_msg_meta(&vec![0, 0]), Err(ProcessError::MetaDecodeFailed)));
    let dto = send_event_dto2(
        b"A".to_vec(),
        b"B".to_vec(),
        b"K".to_vec(),
        sample_route(),
        vec![],
    )
    .unwrap();
    let mut corrupt = dto.clone();
    corrupt[6] ^= 0xff;
    assert!(matches!(get_msg_meta(&corrupt), Err(ProcessError::MetaDecodeFailed)));
}
