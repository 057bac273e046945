//! Building and reading message DTOs: a length-prefixed metadata blob
//! followed by the payload bytes, the form in which whole messages are
//! handed to the frame writer and in which the broker's auth exchange
//! reads them back.

use vstd::prelude::*;
use crate::client::fresh_correlation_id;
use crate::err::ProcessError;
use crate::frame::{MsgKind, RpcResult};
use crate::meta::{MsgMeta, MetaView, Route, RouteView, wf_meta};
use crate::metajson::{encode_meta, meta_json, parse_meta, spec_parse_meta};
use crate::nums::{push_u32_be, read_u32_be, u32_be, u32_of_be, lemma_u32_be_round};
use crate::vecs::{push_all, vec_copy_range};

verus! {

/// The bytes of a DTO: four length bytes, the canonical header, the
/// payload.
pub open spec fn dto_bytes(m: MetaView, payload: Seq<u8>) -> Seq<u8> {
    u32_be(meta_json(m).len() as u32) + meta_json(m) + payload
}

/// Why a DTO cannot be built, if it cannot: a malformed header, or one
/// whose rendering does not fit the length prefix.
pub open spec fn spec_dto_err(m: MetaView) -> Option<ProcessError> {
    if !wf_meta(m) {
        Some(ProcessError::MalformedMeta)
    } else if meta_json(m).len() > u32::MAX as int {
        Some(ProcessError::MetaTooLarge)
    } else {
        None
    }
}

/// The header of an event message.
pub open spec fn spec_event_meta(
    tx: Seq<u8>,
    rx: Seq<u8>,
    key: Seq<u8>,
    route: RouteView,
    payload_size: u64,
) -> MetaView {
    MetaView {
        tx,
        rx,
        key,
        kind: MsgKind::Event,
        correlation_id: None,
        route,
        payload_size,
        attachments: Seq::empty(),
    }
}

/// The header of an RPC request under a given correlation id.
pub open spec fn spec_rpc_meta(
    tx: Seq<u8>,
    rx: Seq<u8>,
    key: Seq<u8>,
    route: RouteView,
    payload_size: u64,
    c: u128,
) -> MetaView {
    MetaView {
        tx,
        rx,
        key,
        kind: MsgKind::RpcRequest,
        correlation_id: Some(c),
        route,
        payload_size,
        attachments: Seq::empty(),
    }
}

/// The header of an RPC reply.
pub open spec fn spec_reply_meta(
    tx: Seq<u8>,
    rx: Seq<u8>,
    key: Seq<u8>,
    route: RouteView,
    payload_size: u64,
    c: Option<u128>,
    res: RpcResult,
) -> MetaView {
    MetaView {
        tx,
        rx,
        key,
        kind: MsgKind::RpcResponse(res),
        correlation_id: c,
        route,
        payload_size,
        attachments: Seq::empty(),
    }
}

/// Builds the DTO of a message from its header and payload.
pub fn make_dto(meta: &MsgMeta, payload: &Vec<u8>) -> (r: Result<Vec<u8>, ProcessError>)
    ensures
        match r {
            Ok(b) => spec_dto_err(meta@) is None && b@ == dto_bytes(meta@, payload@),
            Err(e) => spec_dto_err(meta@) == Some(e),
        },
{
    if !crate::encode::is_wf_meta(meta) {
        return Err(ProcessError::MalformedMeta);
    }
    let mj = encode_meta(meta);
    if mj.len() > u32::MAX as usize {
        return Err(ProcessError::MetaTooLarge);
    }
    let mut out: Vec<u8> = Vec::new();
    push_u32_be(&mut out, mj.len() as u32);
    push_all(&mut out, &mj);
    push_all(&mut out, payload);
    assert(out@ =~= dto_bytes(meta@, payload@));
    Ok(out)
}

/// Builds the DTO of an event message.
pub fn send_event_dto2(tx: Vec<u8>, rx: Vec<u8>, key: Vec<u8>, route: Route, payload: Vec<u8>) -> (r:
    Result<Vec<u8>, ProcessError>)
    requires
        payload@.len() <= u64::MAX,
    ensures
        match r {
            Ok(b) => spec_dto_err(
                spec_event_meta(tx@, rx@, key@, route@, payload@.len() as u64),
            ) is None && b@ == dto_bytes(
                spec_event_meta(tx@, rx@, key@, route@, payload@.len() as u64),
                payload@,
            ),
            Err(e) => spec_dto_err(spec_event_meta(tx@, rx@, key@, route@, payload@.len() as u64))
                == Some(e),
        },
{
    let psize = payload.len() as u64;
    let meta = MsgMeta {
        tx,
        rx,
        key,
        kind: MsgKind::Event,
        correlation_id: None,
        route,
        payload_size: psize,
        attachments: Vec::new(),
    };
    assert(meta@.attachments =~= Seq::<crate::meta::AttachmentView>::empty());
    assert(meta@ == spec_event_meta(meta.tx@, meta.rx@, meta.key@, meta.route@, psize));
    make_dto(&meta, &payload)
}

/// Builds the DTO of an RPC reply carrying the caller's correlation id.
pub fn reply_to_rpc_dto2(
    tx: Vec<u8>,
    rx: Vec<u8>,
    key: Vec<u8>,
    correlation_id: Option<u128>,
    rpc_result: RpcResult,
    route: Route,
    payload: Vec<u8>,
) -> (r: Result<Vec<u8>, ProcessError>)
    requires
        payload@.len() <= u64::MAX,
    ensures
        match r {
            Ok(b) => spec_dto_err(
                spec_reply_meta(
                    tx@,
                    rx@,
                    key@,
                    route@,
                    payload@.len() as u64,
                    correlation_id,
                    rpc_result,
                ),
            ) is None && b@ == dto_bytes(
                spec_reply_meta(
                    tx@,
                    rx@,
                    key@,
                    route@,
                    payload@.len() as u64,
                    correlation_id,
                    rpc_result,
                ),
                payload@,
            ),
            Err(e) => spec_dto_err(
                spec_reply_meta(
                    tx@,
                    rx@,
                    key@,
                    route@,
                    payload@.len() as u64,
                    correlation_id,
                    rpc_result,
                ),
            ) == Some(e),
        },
{
    let psize = payload.len() as u64;
    let meta = MsgMeta {
        tx,
        rx,
        key,
        kind: MsgKind::RpcResponse(rpc_result),
        correlation_id,
        route,
        payload_size: psize,
        attachments: Vec::new(),
    };
    assert(meta@.attachments =~= Seq::<crate::meta::AttachmentView>::empty());
    make_dto(&meta, &payload)
}

/// Builds the DTO of an RPC request under a given correlation id.
pub fn rpc_dto_with_correlation_id(
    tx: Vec<u8>,
    rx: Vec<u8>,
    key: Vec<u8>,
    route: Route,
    payload: Vec<u8>,
    correlation_id: u128,
) -> (r: Result<Vec<u8>, ProcessError>)
    requires
        payload@.len() <= u64::MAX,
    ensures
        match r {
            Ok(b) => spec_dto_err(
                spec_rpc_meta(tx@, rx@, key@, route@, payload@.len() as u64, correlation_id),
            ) is None && b@ == dto_bytes(
                spec_rpc_meta(tx@, rx@, key@, route@, payload@.len() as u64, correlation_id),
                payload@,
            ),
            Err(e) => spec_dto_err(
                spec_rpc_meta(tx@, rx@, key@, route@, payload@.len() as u64, correlation_id),
            ) == Some(e),
        },
{
    let psize = payload.len() as u64;
    let meta = MsgMeta {
        tx,
        rx,
        key,
        kind: MsgKind::RpcRequest,
        correlation_id: Some(correlation_id),
        route,
        payload_size: psize,
        attachments: Vec::new(),
    };
    assert(meta@.attachments =~= Seq::<crate::meta::AttachmentView>::empty());
    make_dto(&meta, &payload)
}

/// Builds the DTO of an RPC request under a fresh correlation id, which
/// it returns beside the bytes so the caller can await the reply.
pub fn rpc_dto2(tx: Vec<u8>, rx: Vec<u8>, key: Vec<u8>, route: Route, payload: Vec<u8>) -> (r:
    Result<(u128, Vec<u8>), ProcessError>)
    requires
        payload@.len() <= u64::MAX,
    ensures
        match r {
            Ok((c, b)) => (c >> 76) & 0xf == 4 && (c >> 62) & 0x3 == 2 && spec_dto_err(
                spec_rpc_meta(tx@, rx@, key@, route@, payload@.len() as u64, c),
            ) is None && b@ == dto_bytes(
                spec_rpc_meta(tx@, rx@, key@, route@, payload@.len() as u64, c),
                payload@,
            ),
            Err(e) => exists|c: u128|
                #[trigger] spec_dto_err(
                    spec_rpc_meta(tx@, rx@, key@, route@, payload@.len() as u64, c),
                ) == Some(e),
        },
{
    let c = fresh_correlation_id();
    match rpc_dto_with_correlation_id(tx, rx, key, route, payload, c) {
        Ok(b) => Ok((c, b)),
        Err(e) => Err(e),
    }
}

/// Reading a header back from DTO bytes: the length prefix must cover a
/// canonical header within the buffer.
pub open spec fn spec_get_msg_meta(b: Seq<u8>) -> Result<MetaView, ProcessError> {
    if b.len() < 4 {
        Err(ProcessError::MetaDecodeFailed)
    } else {
        let len = u32_of_be(b[0], b[1], b[2], b[3]) as int;
        if 4 + len > b.len() {
            Err(ProcessError::MetaDecodeFailed)
        } else {
            match spec_parse_meta(b.subrange(4, 4 + len)) {
                Some(m) => Ok(m),
                None => Err(ProcessError::MetaDecodeFailed),
            }
        }
    }
}

/// Reads the header out of a DTO, leaving the payload bytes untouched.
pub fn get_msg_meta(data: &Vec<u8>) -> (r: Result<MsgMeta, ProcessError>)
    ensures
        match (r, spec_get_msg_meta(data@)) {
            (Ok(m), Ok(mv)) => m@ == mv && wf_meta(mv),
            (Err(e), Err(e2)) => e == e2,
            _ => false,
        },
{
    let l = data.len();
    if l < 4 {
        return Err(ProcessError::MetaDecodeFailed);
    }
    let len = read_u32_be(data, 0) as usize;
    if !(len <= l && 4 <= l - len) {
        return Err(ProcessError::MetaDecodeFailed);
    }
    let body = vec_copy_range(data, 4, 4 + len);
    match parse_meta(&body) {
        Ok(m) => Ok(m),
        Err(e) => Err(e),
    }
}

/// Reading back the DTO of any well-formed message yields its header.
pub proof fn lemma_dto_round_trip(m: MetaView, payload: Seq<u8>)
    requires
        spec_dto_err(m) is None,
    ensures
        spec_get_msg_meta(dto_bytes(m, payload)) == Ok::<MetaView, ProcessError>(m),
{
    let b = dto_bytes(m, payload);
    let mj = meta_json(m);
    lemma_u32_be_round(mj.len() as u32);
    assert(b[0] == u32_be(mj.len() as u32)[0] && b[1] == u32_be(mj.len() as u32)[1] && b[2]
        == u32_be(mj.len() as u32)[2] && b[3] == u32_be(mj.len() as u32)[3]);
    assert(u32_of_be(b[0], b[1], b[2], b[3]) as int == mj.len());
    assert(b.subrange(4, 4 + mj.len() as int) =~= mj);
    crate::metajson::lemma_meta_json_round(m);
}

} // verus!
