//! Message metadata: the logical header carried by the first frame of
//! every stream.
//!
//! Addresses, keys and attachment names are UTF-8 byte strings held as
//! plain byte vectors; the canonical JSON codec for `MsgMeta` lives in
//! `metajson`.

use vstd::prelude::*;
use crate::frame::MsgKind;
use crate::json::wf_str;

verus! {

/// A declared attachment: its name and its size in bytes.
pub struct Attachment {
    pub name: Vec<u8>,
    pub size: u64,
}

/// Model of an attachment declaration.
pub struct AttachmentView {
    pub name: Seq<u8>,
    pub size: u64,
}

impl View for Attachment {
    type V = AttachmentView;

    open spec fn view(&self) -> AttachmentView {
        AttachmentView { name: self.name@, size: self.size }
    }
}

/// Where a message came from and which participants it has visited.
pub struct Route {
    pub source: Vec<u8>,
    pub points: Vec<Vec<u8>>,
}

/// Model of a route.
pub struct RouteView {
    pub source: Seq<u8>,
    pub points: Seq<Seq<u8>>,
}

impl View for Route {
    type V = RouteView;

    open spec fn view(&self) -> RouteView {
        RouteView { source: self.source@, points: self.points@.map_values(|p: Vec<u8>| p@) }
    }
}

/// The logical message header: sender, receiver, routing key, kind,
/// correlation id for RPC, route, and the declared payload and
/// attachment sizes that the read state machine enforces.
pub struct MsgMeta {
    pub tx: Vec<u8>,
    pub rx: Vec<u8>,
    pub key: Vec<u8>,
    pub kind: MsgKind,
    pub correlation_id: Option<u128>,
    pub route: Route,
    pub payload_size: u64,
    pub attachments: Vec<Attachment>,
}

/// Model of a message header.
pub struct MetaView {
    pub tx: Seq<u8>,
    pub rx: Seq<u8>,
    pub key: Seq<u8>,
    pub kind: MsgKind,
    pub correlation_id: Option<u128>,
    pub route: RouteView,
    pub payload_size: u64,
    pub attachments: Seq<AttachmentView>,
}

impl View for MsgMeta {
    type V = MetaView;

    open spec fn view(&self) -> MetaView {
        MetaView {
            tx: self.tx@,
            rx: self.rx@,
            key: self.key@,
            kind: self.kind,
            correlation_id: self.correlation_id,
            route: self.route@,
            payload_size: self.payload_size,
            attachments: self.attachments@.map_values(|a: Attachment| a@),
        }
    }
}

impl Attachment {
    /// Deep copy of an attachment declaration.
    pub fn duplicate(&self) -> (r: Attachment)
        ensures
            r@ == self@,
    {
        let r = Attachment {
            name: crate::vecs::vec_copy_range(&self.name, 0, self.name.len()),
            size: self.size,
        };
        assert(r.name@ =~= self.name@);
        r
    }
}

impl Route {
    /// Deep copy of a route.
    pub fn duplicate(&self) -> (r: Route)
        ensures
            r@ == self@,
    {
        let source = crate::vecs::vec_copy_range(&self.source, 0, self.source.len());
        assert(source@ =~= self.source@);
        let mut points: Vec<Vec<u8>> = Vec::new();
        let l = self.points.len();
        let mut i: usize = 0;
        while i < l
            invariant
                i <= l,
                l == self.points@.len(),
                points@.map_values(|p: Vec<u8>| p@) == self.points@.map_values(
                    |p: Vec<u8>| p@,
                ).take(i as int),
            decreases l - i,
        {
            let ghost oldview = points@.map_values(|p: Vec<u8>| p@);
            let p = crate::vecs::vec_copy_range(&self.points[i], 0, self.points[i].len());
            assert(p@ =~= self.points@[i as int]@);
            points.push(p);
            proof {
                assert(points@.map_values(|p: Vec<u8>| p@) =~= oldview.push(
                    self.points@.map_values(|p: Vec<u8>| p@)[i as int],
                ));
                assert(oldview.push(self.points@.map_values(|p: Vec<u8>| p@)[i as int])
                    =~= self.points@.map_values(|p: Vec<u8>| p@).take(i + 1));
            }
            i = i + 1;
        }
        let r = Route { source, points };
        assert(self.points@.map_values(|p: Vec<u8>| p@).take(l as int) =~= self.points@.map_values(
            |p: Vec<u8>| p@,
        ));
        r
    }
}

impl MsgMeta {
    /// Deep copy of a header, for keeping per-stream state while the
    /// header itself travels on in an event.
    pub fn duplicate(&self) -> (r: MsgMeta)
        ensures
            r@ == self@,
    {
        let tx = crate::vecs::vec_copy_range(&self.tx, 0, self.tx.len());
        let rx = crate::vecs::vec_copy_range(&self.rx, 0, self.rx.len());
        let key = crate::vecs::vec_copy_range(&self.key, 0, self.key.len());
        assert(tx@ =~= self.tx@ && rx@ =~= self.rx@ && key@ =~= self.key@);
        let mut attachments: Vec<Attachment> = Vec::new();
        let l = self.attachments.len();
        let mut i: usize = 0;
        while i < l
            invariant
                i <= l,
                l == self.attachments@.len(),
                attachments@.map_values(|a: Attachment| a@) == self.attachments@.map_values(
                    |a: Attachment| a@,
                ).take(i as int),
            decreases l - i,
        {
            let ghost oldview = attachments@.map_values(|a: Attachment| a@);
            attachments.push(self.attachments[i].duplicate());
            proof {
                assert(attachments@.map_values(|a: Attachment| a@) =~= oldview.push(
                    self.attachments@.map_values(|a: Attachment| a@)[i as int],
                ));
                assert(oldview.push(self.attachments@.map_values(|a: Attachment| a@)[i as int])
                    =~= self.attachments@.map_values(|a: Attachment| a@).take(i + 1));
            }
            i = i + 1;
        }
        assert(self.attachments@.map_values(|a: Attachment| a@).take(l as int)
            =~= self.attachments@.map_values(|a: Attachment| a@));
        MsgMeta {
            tx,
            rx,
            key,
            kind: self.kind,
            correlation_id: self.correlation_id,
            route: self.route.duplicate(),
            payload_size: self.payload_size,
            attachments,
        }
    }
}

/// A header is well formed when its strings carry no control bytes, it
/// declares at most as many attachments as an index byte can name, and
/// RPC messages carry the correlation id that routing a reply needs.
pub open spec fn wf_meta(m: MetaView) -> bool {
    &&& wf_str(m.tx)
    &&& wf_str(m.rx)
    &&& wf_str(m.key)
    &&& wf_str(m.route.source)
    &&& forall|i: int| 0 <= i < m.route.points.len() ==> wf_str(#[trigger] m.route.points[i])
    &&& forall|i: int|
        0 <= i < m.attachments.len() ==> wf_str(#[trigger] m.attachments[i].name)
    &&& m.attachments.len() <= 255
    &&& (m.kind != MsgKind::Event ==> m.correlation_id is Some)
}

} // verus!
