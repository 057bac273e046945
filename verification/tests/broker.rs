use siphasher::sip::SipHasher24;
use streaming_platform::assemble::Assembler;
use streaming_platform::encode::encode_message;
use streaming_platform::err::ProcessError;
use streaming_platform::frame::{Frame, FrameKind, MsgKind};
use streaming_platform::meta::{MsgMeta, Route};
use streaming_platform::readstate::ReadState;
use streaming_platform::server::{
    auth_addr, eq_bytes, to_hashed_subscribes, ClientRegistry, ClientState, ConnectionRole,
    ServerMsg, SubscribeMaps,
};

fn frame_with(key_hash: u64, tag: u8, sid: u64) -> Frame {
    Frame {
        stream_id: sid,
        kind: FrameKind::MessageFinished,
        att_index: 0,
        n: 0,
        key_hash,
        msg_type_tag: tag,
        data: vec![],
    }
}

#[test]
fn subscription_resolution_matches_siphash() {
    let (k0, k1) = (11u64, 22u64);
    let subs = vec![
        (b"Ping".to_vec(), vec![b"A".to_vec(), b"B".to_vec()]),
        (b"Pong".to_vec(), vec![b"C".to_vec()]),
    ];
    let maps = SubscribeMaps {
        event_subscribes: to_hashed_subscribes(k0, k1, &subs),
        rpc_subscribes: to_hashed_subscribes(k0, k1, &vec![]),
        rpc_response_subscribes: to_hashed_subscribes(k0, k1, &vec![]),
    };
    // The key hash computed directly with siphasher finds the targets:
    // the library hashed with the same function, not with something else.
    let h = SipHasher24::new_with_keys(k0, k1).hash(b"Ping");
    let targets = maps.route_frame(&frame_with(h, 0, 1)).expect("route");
    assert_eq!(targets, vec![b"A".to_vec(), b"B".to_vec()]);
    let h2 = SipHasher24::new_with_keys(k0, k1).hash(b"Pong");
    assert_ne!(h, h2);
    let targets2 = maps.route_frame(&frame_with(h2, 0, 1)).expect("route");
    assert_eq!(targets2, vec![b"C".to_vec()]);
}

#[test]
fn routing_miss_and_kind_separation() {
    let (k0, k1) = (1u64, 2u64);
    let subs = vec![(b"Add".to_vec(), vec![b"S".to_vec()])];
    let maps = SubscribeMaps {
        event_subscribes: to_hashed_subscribes(k0, k1, &vec![]),
        rpc_subscribes: to_hashed_subscribes(k0, k1, &subs),
        rpc_response_subscribes: to_hashed_subscribes(k0, k1, &vec![]),
    };
    let h = SipHasher24::new_with_keys(k0, k1).hash(b"Add");
    // An RPC request for the key routes to the subscriber.
    assert_eq!(maps.route_frame(&frame_with(h, 1, 1)).unwrap(), vec![b"S".to_vec()]);
    // The same key as an event has no subscribers: dropped, not an error.
    assert_eq!(maps.route_frame(&frame_with(h, 0, 1)).unwrap(), Vec::<Vec<u8>>::new());
    // An unknown message-kind tag is a protocol error.
    assert!(matches!(maps.route_frame(&frame_with(h, 9, 1)), Err(ProcessError::BadMsgType)));
}

#[test]
fn lookup_is_stable_across_repeated_reads() {
    let (k0, k1) = (3u64, 4u64);
    let subs = vec![(b"Ping".to_vec(), vec![b"A".to_vec()])];
    let maps = SubscribeMaps {
        event_subscribes: to_hashed_subscribes(k0, k1, &subs),
        rpc_subscribes: to_hashed_subscribes(k0, k1, &vec![]),
        rpc_response_subscribes: to_hashed_subscribes(k0, k1, &vec![]),
    };
    let h = SipHasher24::new_with_keys(k0, k1).hash(b"Ping");
    let first = maps.route_frame(&frame_with(h, 0, 1)).unwrap();
    for _ in 0..100 {
        assert_eq!(maps.route_frame(&frame_with(h, 0, 1)).unwrap(), first);
    }
}

#[test]
fn registry_add_send_remove() {
    let mut reg = ClientRegistry::new();
    assert!(reg.process(ServerMsg::Send(b"A".to_vec(), frame_with(0, 0, 1))).is_none());
    reg.process(ServerMsg::AddClient(b"A".to_vec(), 77));
    let (token, f) = reg
        .process(ServerMsg::Send(b"A".to_vec(), frame_with(5, 0, 2)))
        .expect("registered client receives");
    assert_eq!(token, 77);
    assert_eq!(f.key_hash, 5);
    // A reconnect replaces the writer.
    reg.process(ServerMsg::AddClient(b"A".to_vec(), 78));
    let (token, _) = reg.process(ServerMsg::Send(b"A".to_vec(), frame_with(5, 0, 3))).unwrap();
    assert_eq!(token, 78);
    reg.process(ServerMsg::RemoveClient(b"A".to_vec()));
    assert!(reg.process(ServerMsg::Send(b"A".to_vec(), frame_with(5, 0, 4))).is_none());
}

#[test]
fn fanin_preserves_per_sender_order_and_count() {
    // Two senders, three frames each, one subscriber: six frames arrive,
    // and each sender's frames arrive in publication order.
    let mut reg = ClientRegistry::new();
    reg.process(ServerMsg::AddClient(b"Sub".to_vec(), 1));
    let mut inbox = Vec::new();
    for i in 0..3u64 {
        inbox.push(ServerMsg::Send(b"Sub".to_vec(), frame_with(i, 0, 100 + i)));
        inbox.push(ServerMsg::Send(b"Sub".to_vec(), frame_with(i, 0, 200 + i)));
    }
    let mut delivered = Vec::new();
    for msg in inbox {
        if let Some((token, f)) = reg.process(msg) {
            assert_eq!(token, 1);
            delivered.push(f.stream_id);
        }
    }
    assert_eq!(delivered.len(), 6);
    let a: Vec<u64> = delivered.iter().copied().filter(|s| *s < 200).collect();
    let b: Vec<u64> = delivered.iter().copied().filter(|s| *s >= 200).collect();
    assert_eq!(a, vec![100, 101, 102]);
    assert_eq!(b, vec![200, 201, 202]);
}

#[test]
fn connection_roles_alternate() {
    let mut st = ClientState::new();
    assert!(!st.has_writer);
    assert_eq!(st.assign_role(), ConnectionRole::WriteDirection);
    assert_eq!(st.assign_role(), ConnectionRole::ReadAndRoute);
    assert_eq!(st.assign_role(), ConnectionRole::WriteDirection);
}

#[test]
fn auth_accepts_only_auth_rpc_requests() {
    let route = Route { source: b"C".to_vec(), points: vec![b"C".to_vec()] };
    let payload = b"{\"access_key\":\"k\"}".to_vec();
    let meta = MsgMeta {
        tx: b"Client42".to_vec(),
        rx: b"Server".to_vec(),
        key: b"Auth".to_vec(),
        kind: MsgKind::RpcRequest,
        correlation_id: Some(1),
        route,
        payload_size: payload.len() as u64,
        attachments: vec![],
    };
    let frames = encode_message(33, 0, &meta, &payload, &vec![]).expect("encode auth");
    let mut state = ReadState::new();
    let mut builder = Assembler::new();
    let mut done = None;
    for f in frames.iter() {
        for ev in state.push_frame(f).expect("step") {
            if let Some(l) = builder.apply(ev).expect("assemble") {
                done = Some(l);
            }
        }
    }
    let layout = done.expect("auth message must assemble");
    let addr = auth_addr(&layout).expect("auth request must authenticate");
    assert_eq!(addr, b"Client42".to_vec());
    // An event under another key does not authenticate.
    let mut other = layout;
    other.msg_meta.kind = MsgKind::Event;
    assert_eq!(auth_addr(&other), Err(ProcessError::AuthRejected));
}

#[test]
fn byte_equality_checks_contents() {
    assert!(eq_bytes(&b"abc".to_vec(), &b"abc".to_vec()));
    assert!(!eq_bytes(&b"abc".to_vec(), &b"abd".to_vec()));
    assert!(!eq_bytes(&b"abc".to_vec(), &b"ab".to_vec()));
}
