use streaming_platform::client::{dispatch, DispatchAction, RpcTable, StreamIdSource};
use streaming_platform::frame::{MsgKind, RpcResult};
use streaming_platform::meta::{MsgMeta, Route};
use streaming_platform::paths::build_storage_path;

fn meta_of(kind: MsgKind, corr: Option<u128>) -> MsgMeta {
    MsgMeta {
        tx: b"A".to_vec(),
        rx: b"B".to_vec(),
        key: b"Add".to_vec(),
        kind,
        correlation_id: corr,
        route: Route { source: b"A".to_vec(), points: vec![] },
        payload_size: 0,
        attachments: vec![],
    }
}

#[test]
fn stream_ids_are_salted_and_monotonic() {
    let mut src = StreamIdSource::new(0xabcd0001);
    let a = src.get_stream_id();
    let b = src.get_stream_id();
    let c = src.get_stream_id();
    assert!(a < b && b < c);
    assert_eq!(a >> 32, 0xabcd0001);
    assert_eq!(a & 0xffff_ffff, 1);
    let mut other = StreamIdSource::new(0xabcd0002);
    let d = other.get_stream_id();
    assert_ne!(a, d);
    assert_ne!(b, d);
}

#[test]
fn rpc_table_consumes_entries_exactly_once() {
    let mut t: RpcTable<u32> = RpcTable::new();
    t.add_rpc(7, 700);
    t.add_rpc(9, 900);
    assert_eq!(t.take(7), Some(700));
    assert_eq!(t.take(7), None);
    assert_eq!(t.take(8), None);
    assert_eq!(t.take(9), Some(900));
}

#[test]
fn cancelled_response_is_dropped_without_error() {
    let mut t: RpcTable<u32> = RpcTable::new();
    t.add_rpc(5, 500);
    t.cancel_rpc(5);
    // The late response finds no waiter and is dropped.
    let m = meta_of(MsgKind::RpcResponse(RpcResult::Okay), Some(5));
    match dispatch(&mut t, &m) {
        DispatchAction::DropResponse => {},
        _ => panic!("a cancelled caller's response must be dropped"),
    }
}

#[test]
fn dispatch_routes_by_kind() {
    let mut t: RpcTable<u32> = RpcTable::new();
    match dispatch(&mut t, &meta_of(MsgKind::Event, None)) {
        DispatchAction::HandleEvent => {},
        _ => panic!("events go to the event handler"),
    }
    match dispatch(&mut t, &meta_of(MsgKind::RpcRequest, Some(1))) {
        DispatchAction::HandleRpcRequest => {},
        _ => panic!("requests go to the rpc handler"),
    }
    t.add_rpc(3, 300);
    match dispatch(&mut t, &meta_of(MsgKind::RpcResponse(RpcResult::Okay), Some(3))) {
        DispatchAction::DeliverResponse(w) => assert_eq!(w, 300),
        _ => panic!("a waiting response is delivered"),
    }
    // The waiter is consumed: a duplicate response is dropped.
    match dispatch(&mut t, &meta_of(MsgKind::RpcResponse(RpcResult::Okay), Some(3))) {
        DispatchAction::DropResponse => {},
        _ => panic!("a duplicate response is dropped"),
    }
    // A response without a correlation id is dropped.
    match dispatch(&mut t, &meta_of(MsgKind::RpcResponse(RpcResult::Failed), None)) {
        DispatchAction::DropResponse => {},
        _ => panic!("a response without an id is dropped"),
    }
}

#[test]
fn storage_path_joins_segments() {
    let p = build_storage_path(
        &b"/srv/store".to_vec(),
        &b"svc".to_vec(),
        &b"dom".to_vec(),
        &b"tok".to_vec(),
        &b"f123".to_vec(),
    );
    assert_eq!(p, b"/srv/store/svc/dom/tok/f123".to_vec());
}
