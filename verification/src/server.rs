//! The broker's routing fabric: hashed subscription maps, the per-frame
//! routing decision, the client registry, and the role each new
//! connection takes.
//!
//! The subscription maps are built once at startup and only ever read;
//! the registry is driven by a single command inbox, so frames for one
//! subscriber leave in inbox order.

use vstd::prelude::*;
use std::collections::HashMap;
use crate::assemble::StreamLayout;
use crate::err::ProcessError;
use crate::frame::{spec_get_msg_type, Frame, FrameView, MsgKind};
use crate::vecs::vec_copy_range;

verus! {

broadcast use vstd::std_specs::hash::group_hash_axioms;

/// The keyed 64-bit hash of a byte string under SipHash-2-4: a function
/// of the two key halves and the bytes alone.
pub uninterp spec fn sip24_of(k0: u64, k1: u64, data: Seq<u8>) -> u64;

/// Relies on siphasher's `SipHasher24::new_with_keys` and `hash`: a
/// keyed SipHash-2-4 digest of the byte slice, deterministic in the keys
/// and the bytes.
#[verifier::external_body]
fn sip24_hash(k0: u64, k1: u64, data: &Vec<u8>) -> (r: u64)
    ensures
        r == sip24_of(k0, k1, data@),
{
    siphasher::sip::SipHasher24::new_with_keys(k0, k1).hash(data.as_slice())
}

/// The views of a list of subscriber addresses.
pub open spec fn addrs_view(v: Seq<Vec<u8>>) -> Seq<Seq<u8>> {
    v.map_values(|a: Vec<u8>| a@)
}

/// The view of a hashed subscription map: key hash to subscriber
/// addresses.
pub open spec fn subs_view(m: Map<u64, Vec<Vec<u8>>>) -> Map<u64, Seq<Seq<u8>>> {
    Map::new(|h: u64| m.contains_key(h), |h: u64| addrs_view(m[h]@))
}

/// The map that hashing a subscription list with the given keys must
/// produce: one entry per listed key, hashed.
pub open spec fn spec_hashed_subscribes(
    k0: u64,
    k1: u64,
    subs: Seq<(Seq<u8>, Seq<Seq<u8>>)>,
) -> Map<u64, Seq<Seq<u8>>>
    decreases subs.len(),
{
    if subs.len() == 0 {
        Map::empty()
    } else {
        spec_hashed_subscribes(k0, k1, subs.drop_last()).insert(
            sip24_of(k0, k1, subs.last().0),
            subs.last().1,
        )
    }
}

/// The view of a subscription list given as key and subscriber
/// addresses.
pub open spec fn sub_list_view(v: Seq<(Vec<u8>, Vec<Vec<u8>>)>) -> Seq<(Seq<u8>, Seq<Seq<u8>>)> {
    v.map_values(|p: (Vec<u8>, Vec<Vec<u8>>)| (p.0@, addrs_view(p.1@)))
}

/// Resolves one subscription list into its hashed form, hashing every
/// key with the run's SipHash keys.
pub fn to_hashed_subscribes(k0: u64, k1: u64, subscribes: &Vec<(Vec<u8>, Vec<Vec<u8>>)>) -> (r:
    HashMap<u64, Vec<Vec<u8>>>)
    ensures
        subs_view(r@) == spec_hashed_subscribes(k0, k1, sub_list_view(subscribes@)),
{
    let mut r: HashMap<u64, Vec<Vec<u8>>> = HashMap::new();
    assert(subs_view(r@) =~= spec_hashed_subscribes(
        k0,
        k1,
        sub_list_view(subscribes@).take(0),
    ));
    let l = subscribes.len();
    let mut i: usize = 0;
    while i < l
        invariant
            i <= l,
            l == subscribes@.len(),
            subs_view(r@) == spec_hashed_subscribes(k0, k1, sub_list_view(subscribes@).take(
                i as int,
            )),
        decreases l - i,
    {
        let h = sip24_hash(k0, k1, &subscribes[i].0);
        let mut targets: Vec<Vec<u8>> = Vec::new();
        let lt = subscribes[i].1.len();
        let mut j: usize = 0;
        while j < lt
            invariant
                j <= lt,
                lt == subscribes@[i as int].1@.len(),
                i < subscribes@.len(),
                addrs_view(targets@) == addrs_view(subscribes@[i as int].1@).take(j as int),
            decreases lt - j,
        {
            let ghost oldview = addrs_view(targets@);
            targets.push(vec_copy_range(&subscribes[i].1[j], 0, subscribes[i].1[j].len()));
            proof {
                assert(targets@[targets@.len() - 1]@ =~= subscribes@[i as int].1@[j as int]@);
                assert(addrs_view(targets@) =~= oldview.push(addrs_view(
                    subscribes@[i as int].1@,
                )[j as int]));
                assert(oldview.push(addrs_view(subscribes@[i as int].1@)[j as int]) =~= addrs_view(
                    subscribes@[i as int].1@,
                ).take(j + 1));
            }
            j = j + 1;
        }
        assert(addrs_view(targets@) =~= addrs_view(subscribes@[i as int].1@));
        let ghost before = subs_view(r@);
        r.insert(h, targets);
        proof {
            assert(subs_view(r@) =~= before.insert(h, addrs_view(subscribes@[i as int].1@)));
            assert(sub_list_view(subscribes@).take(i + 1).drop_last() =~= sub_list_view(
                subscribes@,
            ).take(i as int));
            assert(sub_list_view(subscribes@).take(i + 1).last() == sub_list_view(subscribes@)[
            i as int]);
            assert(subs_view(r@) =~= spec_hashed_subscribes(k0, k1, sub_list_view(
                subscribes@,
            ).take(i + 1)));
        }
        i = i + 1;
    }
    assert(sub_list_view(subscribes@).take(l as int) =~= sub_list_view(subscribes@));
    r
}

/// The broker's three immutable routing indexes, one per message kind.
pub struct SubscribeMaps {
    pub event_subscribes: HashMap<u64, Vec<Vec<u8>>>,
    pub rpc_subscribes: HashMap<u64, Vec<Vec<u8>>>,
    pub rpc_response_subscribes: HashMap<u64, Vec<Vec<u8>>>,
}

/// The subscribers a frame goes to: chosen by its message-kind tag and
/// its key hash; a miss routes to nobody; an unknown tag is a protocol
/// error.
pub open spec fn spec_route(
    ev: Map<u64, Seq<Seq<u8>>>,
    rpc: Map<u64, Seq<Seq<u8>>>,
    resp: Map<u64, Seq<Seq<u8>>>,
    f: FrameView,
) -> Result<Seq<Seq<u8>>, ProcessError> {
    match spec_get_msg_type(f) {
        Err(e) => Err(e),
        Ok(kind) => {
            let m = match kind {
                MsgKind::Event => ev,
                MsgKind::RpcRequest => rpc,
                MsgKind::RpcResponse(_) => resp,
            };
            if m.contains_key(f.key_hash) {
                Ok(m[f.key_hash])
            } else {
                Ok(Seq::empty())
            }
        },
    }
}

impl SubscribeMaps {
    /// The routing decision for one frame: the subscribers of the
    /// frame's (kind, key hash), in subscription order; nobody on a
    /// miss; a protocol error only on an unknown message-kind tag.
    /// The maps are taken immutably: equal frames get equal answers, no
    /// matter how many readers ask at once.
    pub fn route_frame(&self, f: &Frame) -> (r: Result<Vec<Vec<u8>>, ProcessError>)
        ensures
            match (r, spec_route(
                subs_view(self.event_subscribes@),
                subs_view(self.rpc_subscribes@),
                subs_view(self.rpc_response_subscribes@),
                f@,
            )) {
                (Ok(ts), Ok(ts2)) => addrs_view(ts@) == ts2,
                (Err(e), Err(e2)) => e == e2,
                _ => false,
            },
    {
        let kind = match f.get_msg_type() {
            Ok(k) => k,
            Err(e) => {
                return Err(e);
            },
        };
        let m = match kind {
            MsgKind::Event => &self.event_subscribes,
            MsgKind::RpcRequest => &self.rpc_subscribes,
            MsgKind::RpcResponse(_) => &self.rpc_response_subscribes,
        };
        match m.get(&f.key_hash) {
            Some(targets) => {
                let mut out: Vec<Vec<u8>> = Vec::new();
                let l = targets.len();
                let mut j: usize = 0;
                while j < l
                    invariant
                        j <= l,
                        l == targets@.len(),
                        addrs_view(out@) == addrs_view(targets@).take(j as int),
                    decreases l - j,
                {
                    let ghost oldview = addrs_view(out@);
                    out.push(vec_copy_range(&targets[j], 0, targets[j].len()));
                    proof {
                        assert(out@[out@.len() - 1]@ =~= targets@[j as int]@);
                        assert(addrs_view(out@) =~= oldview.push(addrs_view(targets@)[j as int]));
                        assert(oldview.push(addrs_view(targets@)[j as int]) =~= addrs_view(
                            targets@,
                        ).take(j + 1));
                    }
                    j = j + 1;
                }
                assert(addrs_view(out@) =~= addrs_view(targets@));
                Ok(out)
            },
            None => {
                let out: Vec<Vec<u8>> = Vec::new();
                assert(addrs_view(out@) =~= Seq::<Seq<u8>>::empty());
                Ok(out)
            },
        }
    }
}

/// Subscription lookup is stable: the routing decision is a function of
/// the (immutable) maps and the frame alone, so concurrent readers that
/// ask about the same frame always get the same answer.
pub proof fn lemma_route_stable(
    ev: Map<u64, Seq<Seq<u8>>>,
    rpc: Map<u64, Seq<Seq<u8>>>,
    resp: Map<u64, Seq<Seq<u8>>>,
    f1: FrameView,
    f2: FrameView,
)
    requires
        f1 == f2,
    ensures
        spec_route(ev, rpc, resp, f1) == spec_route(ev, rpc, resp, f2),
{
}

/// A command for the registry task.
pub enum ServerMsg {
    /// A participant's write direction came up: its address and the
    /// token of the writer that will drain its queue.
    AddClient(Vec<u8>, u64),
    /// Deliver a frame to a participant.
    Send(Vec<u8>, Frame),
    /// The participant's writer failed; forget it.
    RemoveClient(Vec<u8>),
}

/// Model of a registry command.
pub enum ServerMsgView {
    AddClient(Seq<u8>, u64),
    Send(Seq<u8>, FrameView),
    RemoveClient(Seq<u8>),
}

impl View for ServerMsg {
    type V = ServerMsgView;

    open spec fn view(&self) -> ServerMsgView {
        match self {
            ServerMsg::AddClient(a, t) => ServerMsgView::AddClient(a@, *t),
            ServerMsg::Send(a, f) => ServerMsgView::Send(a@, f@),
            ServerMsg::RemoveClient(a) => ServerMsgView::RemoveClient(a@),
        }
    }
}

/// The client registry: participant address to writer token, with each
/// address registered once.
pub struct ClientRegistry {
    pub entries: Vec<(Vec<u8>, u64)>,
}

impl View for ClientRegistry {
    type V = Map<Seq<u8>, u64>;

    open spec fn view(&self) -> Map<Seq<u8>, u64> {
        Map::new(
            |a: Seq<u8>| exists|i: int| 0 <= i < self.entries@.len() && (#[trigger] self.entries@[i]).0@ == a,
            |a: Seq<u8>|
                {
                    let i = choose|i: int|
                        0 <= i < self.entries@.len() && (#[trigger] self.entries@[i]).0@ == a;
                    self.entries@[i].1
                },
        )
    }
}

/// The registered addresses never repeat.
pub open spec fn wf_registry(entries: Seq<(Vec<u8>, u64)>) -> bool {
    forall|i: int, j: int|
        0 <= i < j < entries.len() ==> (#[trigger] entries[i]).0@ != (#[trigger] entries[j]).0@
}

impl ClientRegistry {
    /// The broker starts with no clients.
    pub fn new() -> (r: ClientRegistry)
        ensures
            r@ == Map::<Seq<u8>, u64>::empty(),
            wf_registry(r.entries@),
    {
        let r = ClientRegistry { entries: Vec::new() };
        proof {
            assert(r@ =~= Map::<Seq<u8>, u64>::empty());
        }
        r
    }

    /// Finds the position of an address, if it is registered.
    fn find(&self, addr: &Vec<u8>) -> (r: Option<usize>)
        ensures
            match r {
                Some(i) => i < self.entries@.len() && self.entries@[i as int].0@ == addr@,
                None => forall|i: int|
                    0 <= i < self.entries@.len() ==> (#[trigger] self.entries@[i]).0@ != addr@,
            },
    {
        let l = self.entries.len();
        let mut i: usize = 0;
        while i < l
            invariant
                i <= l,
                l == self.entries@.len(),
                forall|k: int| 0 <= k < i ==> (#[trigger] self.entries@[k]).0@ != addr@,
            decreases l - i,
        {
            if eq_bytes(&self.entries[i].0, addr) {
                return Some(i);
            }
            i = i + 1;
        }
        None
    }

    /// Looks up the writer token of an address.
    pub fn lookup(&self, addr: &Vec<u8>) -> (r: Option<u64>)
        requires
            wf_registry(self.entries@),
        ensures
            r == (if self@.contains_key(addr@) {
                Some(self@[addr@])
            } else {
                None::<u64>
            }),
    {
        match self.find(addr) {
            Some(i) => {
                assert(self@.contains_key(addr@));
                assert(self@[addr@] == self.entries@[i as int].1) by {
                    let k = choose|k: int|
                        0 <= k < self.entries@.len() && (#[trigger] self.entries@[k]).0@ == addr@;
                    assert(k == i as int);
                }
                Some(self.entries[i].1)
            },
            None => {
                assert(!self@.contains_key(addr@));
                None
            },
        }
    }

    /// Registers a participant's writer, replacing any earlier entry for
    /// the same address (a reconnect).
    pub fn add_client(&mut self, addr: Vec<u8>, token: u64)
        requires
            wf_registry(old(self).entries@),
        ensures
            wf_registry(final(self).entries@),
            final(self)@ == old(self)@.insert(addr@, token),
    {
        self.remove_client(&addr);
        let ghost mid = self@;
        let ghost oldentries = self.entries@;
        self.entries.push((addr, token));
        proof {
            let a = self.entries@[self.entries@.len() - 1].0@;
            assert(!mid.contains_key(a));
            assert forall|i: int| 0 <= i < oldentries.len() implies (#[trigger] oldentries[i]).0@
                != a by {
                if oldentries[i].0@ == a {
                    assert(mid.contains_key(a));
                }
            }
            assert(forall|i: int|
                0 <= i < oldentries.len() ==> self.entries@[i] == #[trigger] oldentries[i]);
            assert(wf_registry(self.entries@));
            assert(self@ =~= mid.insert(a, token)) by {
                assert(forall|b: Seq<u8>|
                    self@.contains_key(b) <==> (mid.contains_key(b) || b == a));
            }
            assert(mid.insert(a, token) =~= old(self)@.insert(a, token));
        }
    }

    /// Forgets a participant's writer, if one is registered.
    pub fn remove_client(&mut self, addr: &Vec<u8>)
        requires
            wf_registry(old(self).entries@),
        ensures
            wf_registry(final(self).entries@),
            final(self)@ == old(self)@.remove(addr@),
    {
        match self.find(addr) {
            Some(i) => {
                let ghost oldentries = self.entries@;
                self.entries.remove(i);
                proof {
                    assert(forall|k: int|
                        0 <= k < self.entries@.len() ==> #[trigger] self.entries@[k] == (if k
                            < i as int {
                            oldentries[k]
                        } else {
                            oldentries[k + 1]
                        }));
                    assert(wf_registry(self.entries@));
                    assert(self@ =~= old(self)@.remove(addr@)) by {
                        assert(forall|b: Seq<u8>|
                            #![auto]
                            self@.contains_key(b) ==> old(self)@.contains_key(b) && b != addr@
                                && self@[b] == old(self)@[b]);
                        assert forall|b: Seq<u8>|
                            #![auto]
                            old(self)@.contains_key(b) && b != addr@ implies self@.contains_key(
                            b,
                        ) by {
                            let k = choose|k: int|
                                0 <= k < oldentries.len() && (#[trigger] oldentries[k]).0@ == b;
                            if k < i as int {
                                assert(self.entries@[k].0@ == b);
                            } else {
                                assert(self.entries@[k - 1].0@ == b);
                            }
                        }
                    }
                }
            },
            None => {
                proof {
                    assert(self@ =~= old(self)@.remove(addr@));
                }
            },
        }
    }

    /// Handles one registry command: additions and removals change the
    /// registry; a send leaves it unchanged and names the writer token
    /// the frame goes to, or nobody when the participant is unknown.
    pub fn process(&mut self, msg: ServerMsg) -> (r: Option<(u64, Frame)>)
        requires
            wf_registry(old(self).entries@),
        ensures
            wf_registry(final(self).entries@),
            match msg@ {
                ServerMsgView::AddClient(a, t) => final(self)@ == old(self)@.insert(a, t) && r
                    is None,
                ServerMsgView::RemoveClient(a) => final(self)@ == old(self)@.remove(a) && r
                    is None,
                ServerMsgView::Send(a, fv) => final(self)@ == old(self)@ && (match r {
                    Some((t, f)) => old(self)@.contains_key(a) && t == old(self)@[a] && f@ == fv,
                    None => !old(self)@.contains_key(a),
                }),
            },
    {
        match msg {
            ServerMsg::AddClient(addr, token) => {
                self.add_client(addr, token);
                None
            },
            ServerMsg::RemoveClient(addr) => {
                self.remove_client(&addr);
                None
            },
            ServerMsg::Send(addr, frame) => {
                match self.lookup(&addr) {
                    Some(t) => Some((t, frame)),
                    None => None,
                }
            },
        }
    }
}

/// The frames handed to the writer with token `token` when the registry
/// processes `inbox` in order, its map evolving with each command.
pub open spec fn spec_deliveries(
    reg: Map<Seq<u8>, u64>,
    inbox: Seq<ServerMsgView>,
    token: u64,
) -> Seq<FrameView>
    decreases inbox.len(),
{
    if inbox.len() == 0 {
        Seq::empty()
    } else {
        match inbox[0] {
            ServerMsgView::AddClient(a, t) => spec_deliveries(reg.insert(a, t), inbox.skip(1), token),
            ServerMsgView::RemoveClient(a) => spec_deliveries(reg.remove(a), inbox.skip(1), token),
            ServerMsgView::Send(a, f) => (if reg.contains_key(a) && reg[a] == token {
                seq![f]
            } else {
                Seq::empty()
            }) + spec_deliveries(reg, inbox.skip(1), token),
        }
    }
}

/// The frame carried by a send command.
pub open spec fn send_frame(m: ServerMsgView) -> FrameView
    recommends
        m is Send,
{
    match m {
        ServerMsgView::Send(a, f) => f,
        _ => FrameView {
            stream_id: 0,
            kind: crate::frame::FrameKind::MessageAborted,
            att_index: 0,
            n: 0,
            key_hash: 0,
            msg_type_tag: 0,
            data: Seq::empty(),
        },
    }
}

/// Fan-in delivery: when any number of senders publish frames to one
/// subscriber, the registry hands that subscriber's writer exactly the
/// frames that entered its inbox, in inbox order.  Since each sender's
/// frames enter the inbox in the order that sender published them, each
/// sender's frames reach the subscriber in publication order, and with N
/// senders of M frames each exactly N·M frames arrive.
pub proof fn lemma_fanin_delivery(
    reg: Map<Seq<u8>, u64>,
    inbox: Seq<ServerMsgView>,
    sub: Seq<u8>,
    token: u64,
)
    requires
        reg.contains_key(sub),
        reg[sub] == token,
        forall|i: int| 0 <= i < inbox.len() ==> #[trigger] inbox[i] == ServerMsgView::Send(
            sub,
            send_frame(inbox[i]),
        ),
    ensures
        spec_deliveries(reg, inbox, token) == inbox.map_values(|m: ServerMsgView| send_frame(m)),
    decreases inbox.len(),
{
    if inbox.len() == 0 {
        assert(spec_deliveries(reg, inbox, token) =~= inbox.map_values(
            |m: ServerMsgView| send_frame(m),
        ));
    } else {
        assert(inbox[0] == ServerMsgView::Send(sub, send_frame(inbox[0])));
        lemma_fanin_delivery(reg, inbox.skip(1), sub, token);
        assert(forall|i: int|
            0 <= i < inbox.skip(1).len() ==> #[trigger] inbox.skip(1)[i] == inbox[i + 1]);
        assert(spec_deliveries(reg, inbox, token) =~= inbox.map_values(
            |m: ServerMsgView| send_frame(m),
        ));
    }
}

/// Whether two byte vectors hold the same bytes.
pub fn eq_bytes(a: &Vec<u8>, b: &Vec<u8>) -> (r: bool)
    ensures
        r == (a@ == b@),
{
    if a.len() != b.len() {
        assert(a@ != b@);
        return false;
    }
    let l = a.len();
    let mut i: usize = 0;
    while i < l
        invariant
            i <= l,
            l == a@.len(),
            l == b@.len(),
            forall|k: int| 0 <= k < i ==> a@[k] == #[trigger] b@[k],
        decreases l - i,
    {
        if a[i] != b[i] {
            return false;
        }
        i = i + 1;
    }
    assert(a@ =~= b@);
    true
}

/// The routing key that every connection's first message must carry.
pub open spec fn auth_key() -> Seq<u8> {
    // Auth
    seq![0x41u8, 0x75, 0x74, 0x68]
}

/// Checks the first assembled message of a connection and yields the
/// participant address it authenticates: the message must be an RPC
/// request under the auth key.  The access-key comparison on its JSON
/// payload stays with the caller.
pub fn auth_addr(layout: &StreamLayout) -> (r: Result<Vec<u8>, ProcessError>)
    ensures
        match r {
            Ok(a) => layout.msg_meta@.kind == MsgKind::RpcRequest && layout.msg_meta@.key
                == auth_key() && a@ == layout.msg_meta@.tx,
            Err(e) => e == ProcessError::AuthRejected && !(layout.msg_meta@.kind
                == MsgKind::RpcRequest && layout.msg_meta@.key == auth_key()),
        },
{
    let is_rpc = match layout.msg_meta.kind {
        MsgKind::RpcRequest => true,
        _ => false,
    };
    if !is_rpc {
        return Err(ProcessError::AuthRejected);
    }
    let mut expect: Vec<u8> = Vec::new();
    expect.push(0x41);
    expect.push(0x75);
    expect.push(0x74);
    expect.push(0x68);
    assert(expect@ =~= auth_key());
    if !eq_bytes(&layout.msg_meta.key, &expect) {
        return Err(ProcessError::AuthRejected);
    }
    let a = vec_copy_range(&layout.msg_meta.tx, 0, layout.msg_meta.tx.len());
    assert(a@ =~= layout.msg_meta@.tx);
    Ok(a)
}

/// What a participant's next connection becomes.
#[derive(Debug, Clone, Copy, PartialEq, Eq, Structural)]
pub enum ConnectionRole {
    /// The broker reads from this socket and routes its frames.
    ReadAndRoute,
    /// The broker writes queued frames to this socket.
    WriteDirection,
}

/// Per-participant connection bookkeeping at the broker.
pub struct ClientState {
    pub has_writer: bool,
}

impl ClientState {
    /// A participant starts with no writer connection.
    pub fn new() -> (r: ClientState)
        ensures
            !r.has_writer,
    {
        ClientState { has_writer: false }
    }

    /// Assigns the next authenticated connection its role: the first
    /// becomes the write direction, the second the read direction, and
    /// the flag resets so a reconnect starts afresh.
    pub fn assign_role(&mut self) -> (r: ConnectionRole)
        ensures
            !old(self).has_writer ==> r == ConnectionRole::WriteDirection && final(self).has_writer,
            old(self).has_writer ==> r == ConnectionRole::ReadAndRoute && !final(self).has_writer,
    {
        if !self.has_writer {
            self.has_writer = true;
            ConnectionRole::WriteDirection
        } else {
            self.has_writer = false;
            ConnectionRole::ReadAndRoute
        }
    }
}

} // verus!
