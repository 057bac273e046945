//! The client runtime's verified core: stream id allocation, the RPC
//! correlation table, and the dispatch decision for assembled messages.
//!
//! The channels, sockets and handler tasks around these live outside the
//! library; they feed frames in and carry decisions out.

use vstd::prelude::*;
use crate::frame::MsgKind;
use crate::meta::MsgMeta;

verus! {

/// Relies on uuid's `Uuid::new_v4` and `Uuid::as_u128`: a version-4
/// UUID drawn from the operating system's randomness; nothing is
/// promised of the value beyond the version and variant bits that
/// `new_v4` documents.
#[verifier::external_body]
pub(crate) fn fresh_correlation_id() -> (r: u128)
    ensures
        (r >> 76) & 0xf == 4,
        (r >> 62) & 0x3 == 2,
{
    uuid::Uuid::new_v4().as_u128()
}

/// Allocates this participant's stream ids: a per-address salt in the
/// high half, a strictly growing counter in the low half, so ids are
/// unique across the cluster as long as salts differ.
pub struct StreamIdSource {
    pub salt: u32,
    pub counter: u32,
}

/// The id the source hands out for a given salt and counter value.
pub open spec fn spec_stream_id(salt: u32, counter: u32) -> u64 {
    ((salt as u64) << 32) | (counter as u64)
}

impl StreamIdSource {
    /// A fresh source for a participant whose addresses hash to `salt`.
    pub fn new(salt: u32) -> (r: StreamIdSource)
        ensures
            r.salt == salt,
            r.counter == 0,
    {
        StreamIdSource { salt, counter: 0 }
    }

    /// The next stream id: monotonic within this source, prefixed by the
    /// salt.
    pub fn get_stream_id(&mut self) -> (r: u64)
        requires
            old(self).counter < u32::MAX,
        ensures
            final(self).salt == old(self).salt,
            final(self).counter == old(self).counter + 1,
            r == spec_stream_id(old(self).salt, final(self).counter),
    {
        self.counter = self.counter + 1;
        ((self.salt as u64) << 32) | (self.counter as u64)
    }
}

/// Ids from one source grow strictly with the counter.
pub proof fn lemma_stream_id_monotonic(salt: u32, c1: u32, c2: u32)
    requires
        c1 < c2,
    ensures
        spec_stream_id(salt, c1) < spec_stream_id(salt, c2),
{
    assert(c1 < c2 ==> (((salt as u64) << 32) | (c1 as u64)) < (((salt as u64) << 32) | (
    c2 as u64))) by (bit_vector);
}

/// Ids from sources with different salts never collide.
pub proof fn lemma_stream_id_distinct(s1: u32, s2: u32, c1: u32, c2: u32)
    requires
        s1 != s2,
    ensures
        spec_stream_id(s1, c1) != spec_stream_id(s2, c2),
{
    assert(s1 != s2 ==> (((s1 as u64) << 32) | (c1 as u64)) != (((s2 as u64) << 32) | (
    c2 as u64))) by (bit_vector);
}

/// The RPC correlation table: correlation id to the waiter that the
/// matching response must reach.  Entries are consumed exactly once.
pub struct RpcTable<W> {
    pub entries: Vec<(u128, W)>,
}

impl<W> View for RpcTable<W> {
    type V = Map<u128, W>;

    open spec fn view(&self) -> Map<u128, W> {
        Map::new(
            |c: u128| exists|i: int| 0 <= i < self.entries@.len() && (#[trigger] self.entries@[i]).0 == c,
            |c: u128|
                {
                    let i = choose|i: int|
                        0 <= i < self.entries@.len() && (#[trigger] self.entries@[i]).0 == c;
                    self.entries@[i].1
                },
        )
    }
}

/// The registered correlation ids never repeat.
pub open spec fn wf_rpc_table<W>(entries: Seq<(u128, W)>) -> bool {
    forall|i: int, j: int|
        0 <= i < j < entries.len() ==> (#[trigger] entries[i]).0 != (#[trigger] entries[j]).0
}

impl<W> RpcTable<W> {
    /// A client starts with no RPC in flight.
    pub fn new() -> (r: RpcTable<W>)
        ensures
            r@ == Map::<u128, W>::empty(),
            wf_rpc_table(r.entries@),
    {
        let r = RpcTable { entries: Vec::new() };
        proof {
            assert(r@ =~= Map::<u128, W>::empty());
        }
        r
    }

    /// Finds the position of a correlation id, if it is waiting.
    fn find(&self, c: u128) -> (r: Option<usize>)
        ensures
            match r {
                Some(i) => i < self.entries@.len() && self.entries@[i as int].0 == c,
                None => forall|i: int|
                    0 <= i < self.entries@.len() ==> (#[trigger] self.entries@[i]).0 != c,
            },
    {
        let l = self.entries.len();
        let mut i: usize = 0;
        while i < l
            invariant
                i <= l,
                l == self.entries@.len(),
                forall|k: int| 0 <= k < i ==> (#[trigger] self.entries@[k]).0 != c,
            decreases l - i,
        {
            if self.entries[i].0 == c {
                return Some(i);
            }
            i = i + 1;
        }
        None
    }

    /// Registers a caller's waiter under its fresh correlation id.
    /// Correlation ids are unique within a client's lifetime, so the id
    /// must not be waiting already.
    pub fn add_rpc(&mut self, c: u128, w: W)
        requires
            wf_rpc_table(old(self).entries@),
            !old(self)@.contains_key(c),
        ensures
            wf_rpc_table(final(self).entries@),
            final(self)@ == old(self)@.insert(c, w),
    {
        let ghost oldentries = self.entries@;
        self.entries.push((c, w));
        proof {
            assert forall|i: int| 0 <= i < oldentries.len() implies (#[trigger] oldentries[i]).0
                != c by {
                if oldentries[i].0 == c {
                    assert(old(self)@.contains_key(c));
                }
            }
            assert(forall|i: int|
                0 <= i < oldentries.len() ==> self.entries@[i] == #[trigger] oldentries[i]);
            assert(wf_rpc_table(self.entries@));
            assert(self@ =~= old(self)@.insert(c, self.entries@[self.entries@.len() - 1].1)) by {
                assert forall|b: u128| self@.contains_key(b) implies (old(self)@.contains_key(b)
                    || b == c) by {
                    let k = choose|k: int|
                        0 <= k < self.entries@.len() && (#[trigger] self.entries@[k]).0 == b;
                    if k < oldentries.len() {
                        assert(oldentries[k].0 == b);
                    }
                }
                assert forall|b: u128| (old(self)@.contains_key(b) || b == c) implies
                    self@.contains_key(b) by {
                    if b == c {
                        assert(self.entries@[self.entries@.len() - 1].0 == c);
                    } else {
                        let k = choose|k: int|
                            0 <= k < oldentries.len() && (#[trigger] oldentries[k]).0 == b;
                        assert(self.entries@[k].0 == b);
                    }
                }
            }
        }
    }

    /// Takes the waiter for a correlation id out of the table: the entry
    /// is consumed, so a second response for the same id, or one for an
    /// id the caller has cancelled, finds nothing and is dropped.
    pub fn take(&mut self, c: u128) -> (r: Option<W>)
        requires
            wf_rpc_table(old(self).entries@),
        ensures
            wf_rpc_table(final(self).entries@),
            match r {
                Some(w) => old(self)@.contains_key(c) && w == old(self)@[c] && final(self)@ == old(
                    self,
                )@.remove(c),
                None => !old(self)@.contains_key(c) && final(self)@ == old(self)@,
            },
    {
        match self.find(c) {
            Some(i) => {
                let ghost oldentries = self.entries@;
                assert(self@.contains_key(c));
                assert(self@[c] == self.entries@[i as int].1) by {
                    let k = choose|k: int|
                        0 <= k < self.entries@.len() && (#[trigger] self.entries@[k]).0 == c;
                    assert(k == i as int);
                }
                let (_, w) = self.entries.remove(i);
                proof {
                    assert(forall|k: int|
                        0 <= k < self.entries@.len() ==> #[trigger] self.entries@[k] == (if k
                            < i as int {
                            oldentries[k]
                        } else {
                            oldentries[k + 1]
                        }));
                    assert(wf_rpc_table(self.entries@));
                    assert(self@ =~= old(self)@.remove(c)) by {
                        assert(forall|b: u128|
                            #![auto]
                            self@.contains_key(b) ==> old(self)@.contains_key(b) && b != c && self@[
                            b] == old(self)@[b]);
                        assert forall|b: u128|
                            #![auto]
                            old(self)@.contains_key(b) && b != c implies self@.contains_key(b) by {
                            let k = choose|k: int|
                                0 <= k < oldentries.len() && (#[trigger] oldentries[k]).0 == b;
                            if k < i as int {
                                assert(self.entries@[k].0 == b);
                            } else {
                                assert(self.entries@[k - 1].0 == b);
                            }
                        }
                    }
                }
                Some(w)
            },
            None => {
                assert(!self@.contains_key(c));
                None
            },
        }
    }

    /// Cancels an outstanding RPC: the caller gave up, so the entry
    /// leaves the table and a late response will find nothing.
    pub fn cancel_rpc(&mut self, c: u128)
        requires
            wf_rpc_table(old(self).entries@),
        ensures
            wf_rpc_table(final(self).entries@),
            final(self)@ == old(self)@.remove(c),
    {
        let r = self.take(c);
        proof {
            if !old(self)@.contains_key(c) {
                assert(self@ =~= old(self)@.remove(c));
            }
        }
    }
}

/// What the table does with a correlation id: the waiter it yields, if
/// any, and the table afterwards.
pub open spec fn spec_take<W>(t: Map<u128, W>, c: u128) -> (Map<u128, W>, Option<W>) {
    if t.contains_key(c) {
        (t.remove(c), Some(t[c]))
    } else {
        (t, None)
    }
}

/// A response that arrives after its caller cancelled is dropped without
/// error: once the entry is gone, looking the id up again yields nothing
/// and leaves the table as it was.
pub proof fn lemma_cancelled_response_dropped<W>(t: Map<u128, W>, c: u128)
    ensures
        spec_take(spec_take(t, c).0, c).1 is None,
        spec_take(spec_take(t, c).0, c).0 == spec_take(t, c).0,
{
    let t1 = spec_take(t, c).0;
    assert(!t1.contains_key(c));
}

/// How a client in full-message mode handles one assembled message.
pub enum DispatchAction<W> {
    /// An event: hand the message to the event handler.
    HandleEvent,
    /// An RPC request: run the RPC handler and send its reply back.
    HandleRpcRequest,
    /// An RPC response whose caller is waiting: hand it to this waiter.
    DeliverResponse(W),
    /// An RPC response nobody waits for (late, duplicate or cancelled):
    /// drop it.
    DropResponse,
}

/// The decision `dispatch` must take, given the table and the header.
pub open spec fn spec_dispatch<W>(t: Map<u128, W>, kind: MsgKind, corr: Option<u128>) -> (
    Map<u128, W>,
    DispatchAction<W>,
) {
    match kind {
        MsgKind::Event => (t, DispatchAction::HandleEvent),
        MsgKind::RpcRequest => (t, DispatchAction::HandleRpcRequest),
        MsgKind::RpcResponse(_) => match corr {
            Some(c) => {
                let (t2, w) = spec_take(t, c);
                match w {
                    Some(w) => (t2, DispatchAction::DeliverResponse(w)),
                    None => (t2, DispatchAction::DropResponse),
                }
            },
            None => (t, DispatchAction::DropResponse),
        },
    }
}

/// Decides what to do with one assembled message: events and RPC
/// requests go to their handlers; an RPC response consumes its waiter,
/// and is dropped when no waiter remains.
pub fn dispatch<W>(table: &mut RpcTable<W>, meta: &MsgMeta) -> (r: DispatchAction<W>)
    requires
        wf_rpc_table(old(table).entries@),
    ensures
        wf_rpc_table(final(table).entries@),
        (final(table)@, r) == spec_dispatch(old(table)@, meta.kind, meta.correlation_id),
{
    match meta.kind {
        MsgKind::Event => DispatchAction::HandleEvent,
        MsgKind::RpcRequest => DispatchAction::HandleRpcRequest,
        MsgKind::RpcResponse(_) => {
            match meta.correlation_id {
                Some(c) => {
                    match table.take(c) {
                        Some(w) => DispatchAction::DeliverResponse(w),
                        None => DispatchAction::DropResponse,
                    }
                },
                None => DispatchAction::DropResponse,
            }
        },
    }
}

} // verus!
