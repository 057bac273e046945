//! The canonical JSON rendering of `MsgMeta`, and its parser.
//!
//! Both ends of a connection write metadata with `encode_meta` and read
//! it with `parse_meta`; the parser accepts exactly the canonical
//! rendering, so any tampered or foreign blob fails the connection
//! instead of decoding to something else.

use vstd::prelude::*;
use crate::err::ProcessError;
use crate::frame::{spec_msg_kind_of_tag, spec_msg_kind_tag, msg_kind_tag, msg_kind_of_tag, MsgKind};
use crate::json::{
    lemma_parse_dec_complete, lemma_parse_dec_sound, lemma_parse_jstr_complete,
    lemma_parse_jstr_sound,
    dec_u64, jstr, push_dec_u64, push_jstr, parse_dec, parse_jstr, spec_parse_dec, spec_parse_jstr,
    wf_str,
};
use crate::meta::{Attachment, AttachmentView, MsgMeta, MetaView, Route, RouteView, wf_meta};

verus! {

// The fixed punctuation of the canonical rendering, as byte strings.
pub open spec fn lit_tx() -> Seq<u8> {
    // {"tx":
    seq![0x7bu8, 0x22, 0x74, 0x78, 0x22, 0x3a]
}

pub open spec fn lit_rx() -> Seq<u8> {
    // ,"rx":
    seq![0x2cu8, 0x22, 0x72, 0x78, 0x22, 0x3a]
}

pub open spec fn lit_key() -> Seq<u8> {
    // ,"key":
    seq![0x2cu8, 0x22, 0x6b, 0x65, 0x79, 0x22, 0x3a]
}

pub open spec fn lit_kind() -> Seq<u8> {
    // ,"kind":
    seq![0x2cu8, 0x22, 0x6b, 0x69, 0x6e, 0x64, 0x22, 0x3a]
}

pub open spec fn lit_corr() -> Seq<u8> {
    // ,"correlation_id":
    seq![
        0x2cu8,
        0x22,
        0x63,
        0x6f,
        0x72,
        0x72,
        0x65,
        0x6c,
        0x61,
        0x74,
        0x69,
        0x6f,
        0x6e,
        0x5f,
        0x69,
        0x64,
        0x22,
        0x3a,
    ]
}

pub open spec fn lit_null() -> Seq<u8> {
    // null
    seq![0x6eu8, 0x75, 0x6c, 0x6c]
}

pub open spec fn lit_route() -> Seq<u8> {
    // ,"route":{"source":
    seq![
        0x2cu8,
        0x22,
        0x72,
        0x6f,
        0x75,
        0x74,
        0x65,
        0x22,
        0x3a,
        0x7b,
        0x22,
        0x73,
        0x6f,
        0x75,
        0x72,
        0x63,
        0x65,
        0x22,
        0x3a,
    ]
}

pub open spec fn lit_points() -> Seq<u8> {
    // ,"points":[
    seq![0x2cu8, 0x22, 0x70, 0x6f, 0x69, 0x6e, 0x74, 0x73, 0x22, 0x3a, 0x5b]
}

pub open spec fn lit_payload_size() -> Seq<u8> {
    // ]},"payload_size":
    seq![
        0x5du8,
        0x7d,
        0x2c,
        0x22,
        0x70,
        0x61,
        0x79,
        0x6c,
        0x6f,
        0x61,
        0x64,
        0x5f,
        0x73,
        0x69,
        0x7a,
        0x65,
        0x22,
        0x3a,
    ]
}

pub open spec fn lit_atts() -> Seq<u8> {
    // ,"attachments":[
    seq![
        0x2cu8,
        0x22,
        0x61,
        0x74,
        0x74,
        0x61,
        0x63,
        0x68,
        0x6d,
        0x65,
        0x6e,
        0x74,
        0x73,
        0x22,
        0x3a,
        0x5b,
    ]
}

pub open spec fn lit_name() -> Seq<u8> {
    // {"name":
    seq![0x7bu8, 0x22, 0x6e, 0x61, 0x6d, 0x65, 0x22, 0x3a]
}

pub open spec fn lit_size() -> Seq<u8> {
    // ,"size":
    seq![0x2cu8, 0x22, 0x73, 0x69, 0x7a, 0x65, 0x22, 0x3a]
}

pub open spec fn lit_end() -> Seq<u8> {
    // ]}
    seq![0x5du8, 0x7d]
}

/// High half of a correlation id.
pub open spec fn hi64(v: u128) -> u64 {
    (v >> 64) as u64
}

/// Low half of a correlation id.
pub open spec fn lo64(v: u128) -> u64 {
    v as u64
}

/// Joining the halves recovers the id.
pub proof fn lemma_hi_lo_join(v: u128)
    ensures
        ((hi64(v) as u128) << 64) | (lo64(v) as u128) == v,
{
    assert(((((v >> 64) as u64) as u128) << 64) | ((v as u64) as u128) == v) by (bit_vector);
}

/// JSON for the correlation id: `null`, or the two decimal halves.
pub open spec fn corr_json(c: Option<u128>) -> Seq<u8> {
    match c {
        None => lit_null(),
        Some(v) => seq![0x5bu8] + dec_u64(hi64(v)) + seq![0x2cu8] + dec_u64(lo64(v)) + seq![0x5du8],
    }
}

/// JSON for the list of visited participants, comma separated.
pub open spec fn points_json(ps: Seq<Seq<u8>>) -> Seq<u8>
    decreases ps.len(),
{
    if ps.len() == 0 {
        Seq::empty()
    } else {
        jstr(ps[0]) + points_rest_json(ps.skip(1))
    }
}

/// The tail of a participant list: each element preceded by a comma.
pub open spec fn points_rest_json(ps: Seq<Seq<u8>>) -> Seq<u8>
    decreases ps.len(),
{
    if ps.len() == 0 {
        Seq::empty()
    } else {
        seq![0x2cu8] + jstr(ps[0]) + points_rest_json(ps.skip(1))
    }
}

/// JSON for one attachment declaration.
pub open spec fn att_json(a: AttachmentView) -> Seq<u8> {
    lit_name() + jstr(a.name) + lit_size() + dec_u64(a.size) + seq![0x7du8]
}

/// JSON for the attachment list, comma separated.
pub open spec fn atts_json(s: Seq<AttachmentView>) -> Seq<u8>
    decreases s.len(),
{
    if s.len() == 0 {
        Seq::empty()
    } else {
        att_json(s[0]) + atts_rest_json(s.skip(1))
    }
}

/// The tail of an attachment list: each element preceded by a comma.
pub open spec fn atts_rest_json(s: Seq<AttachmentView>) -> Seq<u8>
    decreases s.len(),
{
    if s.len() == 0 {
        Seq::empty()
    } else {
        seq![0x2cu8] + att_json(s[0]) + atts_rest_json(s.skip(1))
    }
}

/// The canonical JSON rendering of a message header.
pub open spec fn meta_json(m: MetaView) -> Seq<u8> {
    lit_tx() + jstr(m.tx) + lit_rx() + jstr(m.rx) + lit_key() + jstr(m.key) + lit_kind() + dec_u64(
        spec_msg_kind_tag(m.kind) as u64,
    ) + lit_corr() + corr_json(m.correlation_id) + lit_route() + jstr(m.route.source)
        + lit_points() + points_json(m.route.points) + lit_payload_size() + dec_u64(m.payload_size)
        + lit_atts() + atts_json(m.attachments) + lit_end()
}

/// Appending one participant to the list extends its rendering by a
/// separator (when the list was not empty) and the quoted participant.
pub proof fn lemma_points_json_snoc(ps: Seq<Seq<u8>>, x: Seq<u8>)
    ensures
        points_json(ps.push(x)) == points_json(ps) + (if ps.len() == 0 {
            Seq::<u8>::empty()
        } else {
            seq![0x2cu8]
        }) + jstr(x),
    decreases ps.len(),
{
    if ps.len() == 0 {
        assert(ps.push(x)[0] == x);
        assert(ps.push(x).skip(1) =~= Seq::<Seq<u8>>::empty());
        assert(points_json(ps.push(x)) == jstr(x) + Seq::<u8>::empty());
        assert(points_json(ps.push(x)) =~= points_json(ps) + Seq::<u8>::empty() + jstr(x));
    } else {
        lemma_points_rest_json_snoc(ps.skip(1), x);
        assert(ps.push(x).skip(1) =~= ps.skip(1).push(x));
        assert(points_json(ps.push(x)) == jstr(ps[0]) + points_rest_json(ps.skip(1).push(x)));
        assert(points_json(ps.push(x)) =~= points_json(ps) + seq![0x2cu8] + jstr(x));
    }
}

proof fn lemma_points_rest_json_snoc(ps: Seq<Seq<u8>>, x: Seq<u8>)
    ensures
        points_rest_json(ps.push(x)) == points_rest_json(ps) + seq![0x2cu8] + jstr(x),
    decreases ps.len(),
{
    if ps.len() == 0 {
        assert(ps.push(x)[0] == x);
        assert(ps.push(x).skip(1) =~= Seq::<Seq<u8>>::empty());
        assert(points_rest_json(Seq::<Seq<u8>>::empty()) == Seq::<u8>::empty());
        assert(points_rest_json(ps) == Seq::<u8>::empty());
        assert(points_rest_json(ps.push(x)) == seq![0x2cu8] + jstr(x) + points_rest_json(
            Seq::<Seq<u8>>::empty(),
        ));
        assert(points_rest_json(ps.push(x)) =~= points_rest_json(ps) + seq![0x2cu8] + jstr(x));
    } else {
        lemma_points_rest_json_snoc(ps.skip(1), x);
        assert(ps.push(x).skip(1) =~= ps.skip(1).push(x));
        assert(ps.push(x)[0] == ps[0]);
        assert(points_rest_json(ps.push(x)) == seq![0x2cu8] + jstr(ps[0]) + points_rest_json(
            ps.skip(1).push(x),
        ));
        assert(points_rest_json(ps.push(x)) =~= points_rest_json(ps) + seq![0x2cu8] + jstr(x));
    }
}

/// Appending one attachment extends the rendering likewise.
pub proof fn lemma_atts_json_snoc(s: Seq<AttachmentView>, a: AttachmentView)
    ensures
        atts_json(s.push(a)) == atts_json(s) + (if s.len() == 0 {
            Seq::<u8>::empty()
        } else {
            seq![0x2cu8]
        }) + att_json(a),
    decreases s.len(),
{
    if s.len() == 0 {
        assert(s.push(a)[0] == a);
        assert(s.push(a).skip(1) =~= Seq::<AttachmentView>::empty());
        assert(atts_json(s.push(a)) == att_json(a) + Seq::<u8>::empty());
        assert(atts_json(s.push(a)) =~= atts_json(s) + Seq::<u8>::empty() + att_json(a));
    } else {
        lemma_atts_rest_json_snoc(s.skip(1), a);
        assert(s.push(a).skip(1) =~= s.skip(1).push(a));
        assert(atts_json(s.push(a)) == att_json(s[0]) + atts_rest_json(s.skip(1).push(a)));
        assert(atts_json(s.push(a)) =~= atts_json(s) + seq![0x2cu8] + att_json(a));
    }
}

proof fn lemma_atts_rest_json_snoc(s: Seq<AttachmentView>, a: AttachmentView)
    ensures
        atts_rest_json(s.push(a)) == atts_rest_json(s) + seq![0x2cu8] + att_json(a),
    decreases s.len(),
{
    if s.len() == 0 {
        assert(s.push(a)[0] == a);
        assert(s.push(a).skip(1) =~= Seq::<AttachmentView>::empty());
        assert(atts_rest_json(Seq::<AttachmentView>::empty()) == Seq::<u8>::empty());
        assert(atts_rest_json(s) == Seq::<u8>::empty());
        assert(atts_rest_json(s.push(a)) == seq![0x2cu8] + att_json(a) + atts_rest_json(
            Seq::<AttachmentView>::empty(),
        ));
        assert(atts_rest_json(s.push(a)) =~= atts_rest_json(s) + seq![0x2cu8] + att_json(a));
    } else {
        lemma_atts_rest_json_snoc(s.skip(1), a);
        assert(s.push(a).skip(1) =~= s.skip(1).push(a));
        assert(s.push(a)[0] == s[0]);
        assert(atts_rest_json(s.push(a)) == seq![0x2cu8] + att_json(s[0]) + atts_rest_json(
            s.skip(1).push(a),
        ));
        assert(atts_rest_json(s.push(a)) =~= atts_rest_json(s) + seq![0x2cu8] + att_json(a));
    }
}

/// Appends the given punctuation bytes.  The ghost literal pins the
/// exact bytes appended.
fn push_bytes(out: &mut Vec<u8>, bytes: &[u8])
    ensures
        final(out)@ == old(out)@ + bytes@,
{
    let l = bytes.len();
    let mut i: usize = 0;
    while i < l
        invariant
            i <= l,
            l == bytes@.len(),
            out@ == old(out)@ + bytes@.subrange(0, i as int),
        decreases l - i,
    {
        out.push(bytes[i]);
        i = i + 1;
        assert(out@ =~= old(out)@ + bytes@.subrange(0, i as int));
    }
    assert(bytes@.subrange(0, bytes@.len() as int) =~= bytes@);
}

/// Writes the canonical JSON rendering of `m`.
pub fn encode_meta(m: &MsgMeta) -> (r: Vec<u8>)
    ensures
        r@ == meta_json(m@),
{
    let mut out: Vec<u8> = Vec::new();
    let lit1: [u8; 6] = [0x7b, 0x22, 0x74, 0x78, 0x22, 0x3a];
    push_bytes(&mut out, lit1.as_slice());
    assert(out@ =~= lit_tx());
    push_jstr(&mut out, &m.tx);
    let lit2: [u8; 6] = [0x2c, 0x22, 0x72, 0x78, 0x22, 0x3a];
    push_bytes(&mut out, lit2.as_slice());
    assert(lit2@ =~= lit_rx());
    push_jstr(&mut out, &m.rx);
    let lit3: [u8; 7] = [0x2c, 0x22, 0x6b, 0x65, 0x79, 0x22, 0x3a];
    push_bytes(&mut out, lit3.as_slice());
    assert(lit3@ =~= lit_key());
    push_jstr(&mut out, &m.key);
    let lit4: [u8; 8] = [0x2c, 0x22, 0x6b, 0x69, 0x6e, 0x64, 0x22, 0x3a];
    push_bytes(&mut out, lit4.as_slice());
    assert(lit4@ =~= lit_kind());
    let tag = msg_kind_tag(m.kind);
    push_dec_u64(&mut out, tag as u64);
    let lit5: [u8; 18] = [
        0x2c,
        0x22,
        0x63,
        0x6f,
        0x72,
        0x72,
        0x65,
        0x6c,
        0x61,
        0x74,
        0x69,
        0x6f,
        0x6e,
        0x5f,
        0x69,
        0x64,
        0x22,
        0x3a,
    ];
    push_bytes(&mut out, lit5.as_slice());
    assert(lit5@ =~= lit_corr());
    match m.correlation_id {
        None => {
            let litn: [u8; 4] = [0x6e, 0x75, 0x6c, 0x6c];
            push_bytes(&mut out, litn.as_slice());
            assert(litn@ =~= lit_null());
            assert(out@.subrange(out@.len() - 4, out@.len() as int) =~= lit_null());
        },
        Some(c) => {
            out.push(0x5b);
            push_dec_u64(&mut out, (c >> 64) as u64);
            out.push(0x2c);
            push_dec_u64(&mut out, #[verifier::truncate] (c as u64));
            out.push(0x5d);
        },
    }
    assert(out@ =~= lit_tx() + jstr(m.tx@) + lit_rx() + jstr(m.rx@) + lit_key() + jstr(m.key@)
        + lit_kind() + dec_u64(spec_msg_kind_tag(m.kind) as u64) + lit_corr() + corr_json(
        m.correlation_id,
    ));
    let lit6: [u8; 19] = [
        0x2c,
        0x22,
        0x72,
        0x6f,
        0x75,
        0x74,
        0x65,
        0x22,
        0x3a,
        0x7b,
        0x22,
        0x73,
        0x6f,
        0x75,
        0x72,
        0x63,
        0x65,
        0x22,
        0x3a,
    ];
    push_bytes(&mut out, lit6.as_slice());
    assert(lit6@ =~= lit_route());
    push_jstr(&mut out, &m.route.source);
    let lit7: [u8; 11] = [0x2c, 0x22, 0x70, 0x6f, 0x69, 0x6e, 0x74, 0x73, 0x22, 0x3a, 0x5b];
    push_bytes(&mut out, lit7.as_slice());
    assert(lit7@ =~= lit_points());
    push_points(&mut out, &m.route.points);
    let lit8: [u8; 18] = [
        0x5d,
        0x7d,
        0x2c,
        0x22,
        0x70,
        0x61,
        0x79,
        0x6c,
        0x6f,
        0x61,
        0x64,
        0x5f,
        0x73,
        0x69,
        0x7a,
        0x65,
        0x22,
        0x3a,
    ];
    push_bytes(&mut out, lit8.as_slice());
    assert(lit8@ =~= lit_payload_size());
    push_dec_u64(&mut out, m.payload_size);
    let lit9: [u8; 16] = [
        0x2c,
        0x22,
        0x61,
        0x74,
        0x74,
        0x61,
        0x63,
        0x68,
        0x6d,
        0x65,
        0x6e,
        0x74,
        0x73,
        0x22,
        0x3a,
        0x5b,
    ];
    push_bytes(&mut out, lit9.as_slice());
    assert(lit9@ =~= lit_atts());
    push_atts(&mut out, &m.attachments);
    let lit10: [u8; 2] = [0x5d, 0x7d];
    push_bytes(&mut out, lit10.as_slice());
    assert(lit10@ =~= lit_end());
    assert(out@ =~= meta_json(m@));
    out
}

/// Appends the participant list rendering.
fn push_points(out: &mut Vec<u8>, ps: &Vec<Vec<u8>>)
    ensures
        final(out)@ == old(out)@ + points_json(ps@.map_values(|p: Vec<u8>| p@)),
{
    let ghost view = ps@.map_values(|p: Vec<u8>| p@);
    let l = ps.len();
    let mut i: usize = 0;
    while i < l
        invariant
            i <= l,
            l == ps@.len(),
            view == ps@.map_values(|p: Vec<u8>| p@),
            out@ == old(out)@ + points_json(view.take(i as int)),
        decreases l - i,
    {
        if i > 0 {
            out.push(0x2c);
        }
        push_jstr(out, &ps[i]);
        proof {
            lemma_points_json_snoc(view.take(i as int), view[i as int]);
            assert(view.take(i + 1) =~= view.take(i as int).push(view[i as int]));
            assert(out@ =~= old(out)@ + points_json(view.take(i + 1)));
        }
        i = i + 1;
    }
    assert(view.take(l as int) =~= view);
}

/// Appends the attachment list rendering.
fn push_atts(out: &mut Vec<u8>, s: &Vec<Attachment>)
    ensures
        final(out)@ == old(out)@ + atts_json(s@.map_values(|a: Attachment| a@)),
{
    let ghost view = s@.map_values(|a: Attachment| a@);
    let l = s.len();
    let mut i: usize = 0;
    while i < l
        invariant
            i <= l,
            l == s@.len(),
            view == s@.map_values(|a: Attachment| a@),
            out@ == old(out)@ + atts_json(view.take(i as int)),
        decreases l - i,
    {
        if i > 0 {
            out.push(0x2c);
        }
        let litn: [u8; 8] = [0x7b, 0x22, 0x6e, 0x61, 0x6d, 0x65, 0x22, 0x3a];
        push_bytes(out, litn.as_slice());
        assert(litn@ =~= lit_name());
        push_jstr(out, &s[i].name);
        let lits: [u8; 8] = [0x2c, 0x22, 0x73, 0x69, 0x7a, 0x65, 0x22, 0x3a];
        push_bytes(out, lits.as_slice());
        assert(lits@ =~= lit_size());
        push_dec_u64(out, s[i].size);
        out.push(0x7d);
        proof {
            lemma_atts_json_snoc(view.take(i as int), view[i as int]);
            assert(view.take(i + 1) =~= view.take(i as int).push(view[i as int]));
            assert(att_json(view[i as int]) == lit_name() + jstr(s@[i as int].name@) + lit_size()
                + dec_u64(s@[i as int].size) + seq![0x7du8]);
            assert(out@ =~= old(out)@ + atts_json(view.take(i + 1)));
        }
        i = i + 1;
    }
    assert(view.take(l as int) =~= view);
}

/// Match of a fixed literal at position `i`.
pub open spec fn spec_parse_lit(b: Seq<u8>, i: int, l: Seq<u8>) -> Option<int> {
    if 0 <= i && i + l.len() <= b.len() && b.subrange(i, i + l.len() as int) == l {
        Some(i + l.len() as int)
    } else {
        None
    }
}

/// Checks the literal `l` at position `i`, mirroring `spec_parse_lit`.
fn eat_lit(b: &Vec<u8>, i: usize, l: &[u8]) -> (r: Option<usize>)
    ensures
        match r {
            Some(j) => spec_parse_lit(b@, i as int, l@) == Some(j as int) && j <= b@.len(),
            None => spec_parse_lit(b@, i as int, l@) is None,
        },
{
    let bl = b.len();
    let ll = l.len();
    if !(ll <= bl && i <= bl - ll) {
        return None;
    }
    let mut k: usize = 0;
    while k < ll
        invariant
            k <= ll,
            ll <= bl,
            i <= bl - ll,
            bl == b@.len(),
            ll == l@.len(),
            forall|t: int| 0 <= t < k ==> b@[i + t] == l@[t],
        decreases ll - k,
    {
        if b[i + k] != l[k] {
            proof {
                assert(b@.subrange(i as int, i + l@.len() as int)[k as int] != l@[k as int]);
            }
            return None;
        }
        k = k + 1;
    }
    assert(b@.subrange(i as int, i + l@.len() as int) =~= l@);
    Some(i + ll)
}

/// Parse of the correlation id field: `null` or the two decimal halves.
pub open spec fn spec_parse_corr(b: Seq<u8>, i: int) -> Option<(Option<u128>, int)> {
    match spec_parse_lit(b, i, lit_null()) {
        Some(j) => Some((None, j)),
        None => if 0 <= i < b.len() && b[i] == 0x5b {
            match spec_parse_dec(b, i + 1) {
                None => None,
                Some((hi, j1)) => if j1 < b.len() && b[j1] == 0x2c {
                    match spec_parse_dec(b, j1 + 1) {
                        None => None,
                        Some((lo, j2)) => if j2 < b.len() && b[j2] == 0x5d {
                            Some((Some(((hi as u128) << 64) | (lo as u128)), j2 + 1))
                        } else {
                            None
                        },
                    }
                } else {
                    None
                },
            }
        } else {
            None
        },
    }
}

/// Reads the correlation id field, mirroring `spec_parse_corr`.
fn parse_corr(b: &Vec<u8>, i: usize) -> (r: Option<(Option<u128>, usize)>)
    requires
        i <= b@.len(),
    ensures
        match r {
            Some((c, j)) => spec_parse_corr(b@, i as int) == Some((c, j as int)) && j <= b@.len(),
            None => spec_parse_corr(b@, i as int) is None,
        },
{
    let litn: [u8; 4] = [0x6e, 0x75, 0x6c, 0x6c];
    proof {
        assert(litn@ =~= lit_null());
    }
    match eat_lit(b, i, litn.as_slice()) {
        Some(j) => Some((None, j)),
        None => {
            let l = b.len();
            if !(i < l && b[i] == 0x5b) {
                return None;
            }
            let (hi, j1) = match parse_dec(b, i + 1) {
                Some(p) => p,
                None => {
                    return None;
                },
            };
            if !(j1 < l && b[j1] == 0x2c) {
                return None;
            }
            let (lo, j2) = match parse_dec(b, j1 + 1) {
                Some(p) => p,
                None => {
                    return None;
                },
            };
            if !(j2 < l && b[j2] == 0x5d) {
                return None;
            }
            Some((Some(((hi as u128) << 64) | (lo as u128)), j2 + 1))
        },
    }
}

/// Parse of the participant list between `[` and `]`.
pub open spec fn spec_parse_points(b: Seq<u8>, i: int) -> Option<(Seq<Seq<u8>>, int)> {
    if 0 <= i < b.len() && b[i] == 0x22 {
        match spec_parse_jstr(b, i) {
            None => None,
            Some((s, j)) => if i < j {
                spec_parse_points_rest(b, j, seq![s])
            } else {
                None
            },
        }
    } else {
        Some((Seq::empty(), i))
    }
}

/// Tail of the participant list: comma-preceded elements.
pub open spec fn spec_parse_points_rest(b: Seq<u8>, i: int, acc: Seq<Seq<u8>>) -> Option<
    (Seq<Seq<u8>>, int),
>
    decreases b.len() - i,
{
    if 0 <= i < b.len() && b[i] == 0x2c {
        match spec_parse_jstr(b, i + 1) {
            None => None,
            Some((s, j)) => if i + 1 < j && j <= b.len() {
                spec_parse_points_rest(b, j, acc.push(s))
            } else {
                None
            },
        }
    } else {
        Some((acc, i))
    }
}

/// Reads the participant list, mirroring `spec_parse_points`.
fn parse_points(b: &Vec<u8>, i: usize) -> (r: Option<(Vec<Vec<u8>>, usize)>)
    requires
        i <= b@.len(),
    ensures
        match r {
            Some((ps, j)) => spec_parse_points(b@, i as int) == Some(
                (ps@.map_values(|p: Vec<u8>| p@), j as int),
            ) && j <= b@.len(),
            None => spec_parse_points(b@, i as int) is None,
        },
{
    let l = b.len();
    if !(i < l && b[i] == 0x22) {
        let ps: Vec<Vec<u8>> = Vec::new();
        assert(ps@.map_values(|p: Vec<u8>| p@) =~= Seq::<Seq<u8>>::empty());
        return Some((ps, i));
    }
    let (s0, j0) = match parse_jstr(b, i) {
        Some(p) => p,
        None => {
            return None;
        },
    };
    let mut ps: Vec<Vec<u8>> = Vec::new();
    ps.push(s0);
    assert(ps@.map_values(|p: Vec<u8>| p@) =~= seq![s0@]);
    let mut j: usize = j0;
    loop
        invariant
            j <= b@.len(),
            l == b@.len(),
            spec_parse_points(b@, i as int) == spec_parse_points_rest(
                b@,
                j as int,
                ps@.map_values(|p: Vec<u8>| p@),
            ),
        decreases b@.len() - j + 1,
    {
        if !(j < l && b[j] == 0x2c) {
            return Some((ps, j));
        }
        let ghost jold = j as int;
        let ghost oldview = ps@.map_values(|p: Vec<u8>| p@);
        let (s, j2) = match parse_jstr(b, j + 1) {
            Some(p) => p,
            None => {
                return None;
            },
        };
        ps.push(s);
        proof {
            assert(ps@.map_values(|p: Vec<u8>| p@) =~= oldview.push(s@));
            assert(spec_parse_points_rest(b@, jold, oldview) == spec_parse_points_rest(
                b@,
                j2 as int,
                oldview.push(s@),
            ));
        }
        j = j2;
    }
}

/// Parse of one attachment declaration.
pub open spec fn spec_parse_att(b: Seq<u8>, i: int) -> Option<(AttachmentView, int)> {
    match spec_parse_lit(b, i, lit_name()) {
        None => None,
        Some(j1) => match spec_parse_jstr(b, j1) {
            None => None,
            Some((name, j2)) => match spec_parse_lit(b, j2, lit_size()) {
                None => None,
                Some(j3) => match spec_parse_dec(b, j3) {
                    None => None,
                    Some((size, j4)) => if j4 < b.len() && b[j4] == 0x7d {
                        Some((AttachmentView { name, size }, j4 + 1))
                    } else {
                        None
                    },
                },
            },
        },
    }
}

/// Reads one attachment declaration, mirroring `spec_parse_att`.
fn parse_att(b: &Vec<u8>, i: usize) -> (r: Option<(Attachment, usize)>)
    requires
        i <= b@.len(),
    ensures
        match r {
            Some((a, j)) => spec_parse_att(b@, i as int) == Some((a@, j as int)) && i < j
                <= b@.len(),
            None => spec_parse_att(b@, i as int) is None,
        },
{
    let litn: [u8; 8] = [0x7b, 0x22, 0x6e, 0x61, 0x6d, 0x65, 0x22, 0x3a];
    proof {
        assert(litn@ =~= lit_name());
    }
    let j1 = match eat_lit(b, i, litn.as_slice()) {
        Some(j) => j,
        None => {
            return None;
        },
    };
    let (name, j2) = match parse_jstr(b, j1) {
        Some(p) => p,
        None => {
            return None;
        },
    };
    let lits: [u8; 8] = [0x2c, 0x22, 0x73, 0x69, 0x7a, 0x65, 0x22, 0x3a];
    proof {
        assert(lits@ =~= lit_size());
    }
    let j3 = match eat_lit(b, j2, lits.as_slice()) {
        Some(j) => j,
        None => {
            return None;
        },
    };
    let (size, j4) = match parse_dec(b, j3) {
        Some(p) => p,
        None => {
            return None;
        },
    };
    let l = b.len();
    if !(j4 < l && b[j4] == 0x7d) {
        return None;
    }
    Some((Attachment { name, size }, j4 + 1))
}

/// Parse of the attachment list between `[` and `]`.
pub open spec fn spec_parse_atts(b: Seq<u8>, i: int) -> Option<(Seq<AttachmentView>, int)> {
    if 0 <= i < b.len() && b[i] == 0x7b {
        match spec_parse_att(b, i) {
            None => None,
            Some((a, j)) => if i < j {
                spec_parse_atts_rest(b, j, seq![a])
            } else {
                None
            },
        }
    } else {
        Some((Seq::empty(), i))
    }
}

/// Tail of the attachment list: comma-preceded elements.
pub open spec fn spec_parse_atts_rest(b: Seq<u8>, i: int, acc: Seq<AttachmentView>) -> Option<
    (Seq<AttachmentView>, int),
>
    decreases b.len() - i,
{
    if 0 <= i < b.len() && b[i] == 0x2c {
        match spec_parse_att(b, i + 1) {
            None => None,
            Some((a, j)) => if i + 1 < j && j <= b.len() {
                spec_parse_atts_rest(b, j, acc.push(a))
            } else {
                None
            },
        }
    } else {
        Some((acc, i))
    }
}

/// Reads the attachment list, mirroring `spec_parse_atts`.
fn parse_atts(b: &Vec<u8>, i: usize) -> (r: Option<(Vec<Attachment>, usize)>)
    requires
        i <= b@.len(),
    ensures
        match r {
            Some((s, j)) => spec_parse_atts(b@, i as int) == Some(
                (s@.map_values(|a: Attachment| a@), j as int),
            ) && j <= b@.len(),
            None => spec_parse_atts(b@, i as int) is None,
        },
{
    let l = b.len();
    if !(i < l && b[i] == 0x7b) {
        let s: Vec<Attachment> = Vec::new();
        assert(s@.map_values(|a: Attachment| a@) =~= Seq::<AttachmentView>::empty());
        return Some((s, i));
    }
    let (a0, j0) = match parse_att(b, i) {
        Some(p) => p,
        None => {
            return None;
        },
    };
    let mut s: Vec<Attachment> = Vec::new();
    s.push(a0);
    assert(s@.map_values(|a: Attachment| a@) =~= seq![s@[0]@]);
    let mut j: usize = j0;
    loop
        invariant
            j <= b@.len(),
            l == b@.len(),
            spec_parse_atts(b@, i as int) == spec_parse_atts_rest(
                b@,
                j as int,
                s@.map_values(|a: Attachment| a@),
            ),
        decreases b@.len() - j + 1,
    {
        if !(j < l && b[j] == 0x2c) {
            return Some((s, j));
        }
        let ghost jold = j as int;
        let ghost oldview = s@.map_values(|a: Attachment| a@);
        let (a, j2) = match parse_att(b, j + 1) {
            Some(p) => p,
            None => {
                return None;
            },
        };
        s.push(a);
        proof {
            assert(s@.map_values(|a: Attachment| a@) =~= oldview.push(a@));
            assert(spec_parse_atts_rest(b@, jold, oldview) == spec_parse_atts_rest(
                b@,
                j2 as int,
                oldview.push(a@),
            ));
        }
        j = j2;
    }
}

/// Parse of a whole canonical metadata blob.  Succeeds only when the
/// blob is exactly the canonical rendering of a well-formed header.
#[verifier::opaque]
pub open spec fn spec_parse_meta(b: Seq<u8>) -> Option<MetaView> {
    match spec_parse_lit(b, 0, lit_tx()) {
        None => None,
        Some(i1) => match spec_parse_jstr(b, i1) {
            None => None,
            Some((tx, i2)) => match spec_parse_lit(b, i2, lit_rx()) {
                None => None,
                Some(i3) => match spec_parse_jstr(b, i3) {
                    None => None,
                    Some((rx, i4)) => match spec_parse_lit(b, i4, lit_key()) {
                        None => None,
                        Some(i5) => match spec_parse_jstr(b, i5) {
                            None => None,
                            Some((key, i6)) => match spec_parse_lit(b, i6, lit_kind()) {
                                None => None,
                                Some(i7) => spec_parse_meta_tail(b, i7, tx, rx, key),
                            },
                        },
                    },
                },
            },
        },
    }
}

/// Continuation of `spec_parse_meta` after the three address strings.
pub open spec fn spec_parse_meta_tail(
    b: Seq<u8>,
    i7: int,
    tx: Seq<u8>,
    rx: Seq<u8>,
    key: Seq<u8>,
) -> Option<MetaView> {
    match spec_parse_dec(b, i7) {
        None => None,
        Some((tagv, i8)) => if tagv > 3 {
            None
        } else {
            match spec_msg_kind_of_tag(tagv as u8) {
                None => None,
                Some(kind) => match spec_parse_lit(b, i8, lit_corr()) {
                    None => None,
                    Some(i9) => match spec_parse_corr(b, i9) {
                        None => None,
                        Some((corr, i10)) => match spec_parse_lit(b, i10, lit_route()) {
                            None => None,
                            Some(i11) => match spec_parse_jstr(b, i11) {
                                None => None,
                                Some((source, i12)) => match spec_parse_lit(b, i12, lit_points()) {
                                    None => None,
                                    Some(i13) => match spec_parse_points(b, i13) {
                                        None => None,
                                        Some((points, i14)) => spec_parse_meta_end(
                                            b,
                                            i14,
                                            MetaView {
                                                tx,
                                                rx,
                                                key,
                                                kind,
                                                correlation_id: corr,
                                                route: RouteView { source, points },
                                                payload_size: 0,
                                                attachments: Seq::empty(),
                                            },
                                        ),
                                    },
                                },
                            },
                        },
                    },
                },
            }
        },
    }
}

/// Continuation of `spec_parse_meta` after the route.
pub open spec fn spec_parse_meta_end(b: Seq<u8>, i14: int, partial: MetaView) -> Option<MetaView> {
    match spec_parse_lit(b, i14, lit_payload_size()) {
        None => None,
        Some(i15) => match spec_parse_dec(b, i15) {
            None => None,
            Some((psize, i16)) => match spec_parse_lit(b, i16, lit_atts()) {
                None => None,
                Some(i17) => match spec_parse_atts(b, i17) {
                    None => None,
                    Some((atts, i18)) => match spec_parse_lit(b, i18, lit_end()) {
                        None => None,
                        Some(i19) => {
                            let m = MetaView {
                                payload_size: psize,
                                attachments: atts,
                                ..partial
                            };
                            if i19 == b.len() && atts.len() <= 255 && (m.kind != MsgKind::Event
                                ==> m.correlation_id is Some) {
                                Some(m)
                            } else {
                                None
                            }
                        },
                    },
                },
            },
        },
    }
}

/// Reads a whole canonical metadata blob, mirroring `spec_parse_meta`.
#[verifier::rlimit(60)]
pub fn parse_meta(b: &Vec<u8>) -> (r: Result<MsgMeta, ProcessError>)
    ensures
        match r {
            Ok(m) => spec_parse_meta(b@) == Some(m@) && wf_meta(m@),
            Err(e) => spec_parse_meta(b@) is None && e == ProcessError::MetaDecodeFailed,
        },
{
    proof {
        reveal(spec_parse_meta);
    }
    let fail = ProcessError::MetaDecodeFailed;
    let lit1: [u8; 6] = [0x7b, 0x22, 0x74, 0x78, 0x22, 0x3a];
    proof {
        assert(lit1@ =~= lit_tx());
    }
    let i1 = match eat_lit(b, 0, lit1.as_slice()) {
        Some(j) => j,
        None => {
            return Err(fail);
        },
    };
    let (tx, i2) = match parse_jstr(b, i1) {
        Some(p) => p,
        None => {
            return Err(fail);
        },
    };
    let lit2: [u8; 6] = [0x2c, 0x22, 0x72, 0x78, 0x22, 0x3a];
    proof {
        assert(lit2@ =~= lit_rx());
    }
    let i3 = match eat_lit(b, i2, lit2.as_slice()) {
        Some(j) => j,
        None => {
            return Err(fail);
        },
    };
    let (rx, i4) = match parse_jstr(b, i3) {
        Some(p) => p,
        None => {
            return Err(fail);
        },
    };
    let lit3: [u8; 7] = [0x2c, 0x22, 0x6b, 0x65, 0x79, 0x22, 0x3a];
    proof {
        assert(lit3@ =~= lit_key());
    }
    let i5 = match eat_lit(b, i4, lit3.as_slice()) {
        Some(j) => j,
        None => {
            return Err(fail);
        },
    };
    let (key, i6) = match parse_jstr(b, i5) {
        Some(p) => p,
        None => {
            return Err(fail);
        },
    };
    let lit4: [u8; 8] = [0x2c, 0x22, 0x6b, 0x69, 0x6e, 0x64, 0x22, 0x3a];
    proof {
        assert(lit4@ =~= lit_kind());
    }
    let i7 = match eat_lit(b, i6, lit4.as_slice()) {
        Some(j) => j,
        None => {
            return Err(fail);
        },
    };
    let (tagv, i8) = match parse_dec(b, i7) {
        Some(p) => p,
        None => {
            return Err(fail);
        },
    };
    if tagv > 3 {
        return Err(fail);
    }
    let kind = match msg_kind_of_tag(tagv as u8) {
        Some(k) => k,
        None => {
            return Err(fail);
        },
    };
    let lit5: [u8; 18] = [
        0x2c,
        0x22,
        0x63,
        0x6f,
        0x72,
        0x72,
        0x65,
        0x6c,
        0x61,
        0x74,
        0x69,
        0x6f,
        0x6e,
        0x5f,
        0x69,
        0x64,
        0x22,
        0x3a,
    ];
    proof {
        assert(lit5@ =~= lit_corr());
    }
    let i9 = match eat_lit(b, i8, lit5.as_slice()) {
        Some(j) => j,
        None => {
            return Err(fail);
        },
    };
    let (corr, i10) = match parse_corr(b, i9) {
        Some(p) => p,
        None => {
            return Err(fail);
        },
    };
    let lit6: [u8; 19] = [
        0x2c,
        0x22,
        0x72,
        0x6f,
        0x75,
        0x74,
        0x65,
        0x22,
        0x3a,
        0x7b,
        0x22,
        0x73,
        0x6f,
        0x75,
        0x72,
        0x63,
        0x65,
        0x22,
        0x3a,
    ];
    proof {
        assert(lit6@ =~= lit_route());
    }
    let i11 = match eat_lit(b, i10, lit6.as_slice()) {
        Some(j) => j,
        None => {
            return Err(fail);
        },
    };
    let (source, i12) = match parse_jstr(b, i11) {
        Some(p) => p,
        None => {
            return Err(fail);
        },
    };
    let lit7: [u8; 11] = [0x2c, 0x22, 0x70, 0x6f, 0x69, 0x6e, 0x74, 0x73, 0x22, 0x3a, 0x5b];
    proof {
        assert(lit7@ =~= lit_points());
    }
    let i13 = match eat_lit(b, i12, lit7.as_slice()) {
        Some(j) => j,
        None => {
            return Err(fail);
        },
    };
    let (points, i14) = match parse_points(b, i13) {
        Some(p) => p,
        None => {
            return Err(fail);
        },
    };
    let lit8: [u8; 18] = [
        0x5d,
        0x7d,
        0x2c,
        0x22,
        0x70,
        0x61,
        0x79,
        0x6c,
        0x6f,
        0x61,
        0x64,
        0x5f,
        0x73,
        0x69,
        0x7a,
        0x65,
        0x22,
        0x3a,
    ];
    proof {
        assert(lit8@ =~= lit_payload_size());
    }
    let i15 = match eat_lit(b, i14, lit8.as_slice()) {
        Some(j) => j,
        None => {
            return Err(fail);
        },
    };
    let (psize, i16) = match parse_dec(b, i15) {
        Some(p) => p,
        None => {
            return Err(fail);
        },
    };
    let lit9: [u8; 16] = [
        0x2c,
        0x22,
        0x61,
        0x74,
        0x74,
        0x61,
        0x63,
        0x68,
        0x6d,
        0x65,
        0x6e,
        0x74,
        0x73,
        0x22,
        0x3a,
        0x5b,
    ];
    proof {
        assert(lit9@ =~= lit_atts());
    }
    let i17 = match eat_lit(b, i16, lit9.as_slice()) {
        Some(j) => j,
        None => {
            return Err(fail);
        },
    };
    let (atts, i18) = match parse_atts(b, i17) {
        Some(p) => p,
        None => {
            return Err(fail);
        },
    };
    let lit10: [u8; 2] = [0x5d, 0x7d];
    proof {
        assert(lit10@ =~= lit_end());
    }
    let i19 = match eat_lit(b, i18, lit10.as_slice()) {
        Some(j) => j,
        None => {
            return Err(fail);
        },
    };
    if !(i19 == b.len() && atts.len() <= 255) {
        return Err(fail);
    }
    let is_event = match kind {
        MsgKind::Event => true,
        _ => false,
    };
    if !is_event && corr.is_none() {
        return Err(fail);
    }
    let m = MsgMeta {
        tx,
        rx,
        key,
        kind,
        correlation_id: corr,
        route: Route { source, points },
        payload_size: psize,
        attachments: atts,
    };
    proof {
        lemma_parse_jstr_sound(b@, i1 as int, m.tx@, i2 as int);
        lemma_parse_jstr_sound(b@, i3 as int, m.rx@, i4 as int);
        lemma_parse_jstr_sound(b@, i5 as int, m.key@, i6 as int);
        lemma_parse_jstr_sound(b@, i11 as int, m.route.source@, i12 as int);
        lemma_parse_points_sound_wf(b@, i13 as int, m.route@.points, i14 as int);
        lemma_parse_atts_sound_wf(b@, i17 as int, m@.attachments, i18 as int);
    }
    Ok(m)
}

/// Peels the first piece off a suffix of `b` that is known to be a
/// concatenation, giving the subrange facts that the piece parsers need.
proof fn lemma_peel(b: Seq<u8>, i: int, piece: Seq<u8>, rest: Seq<u8>)
    requires
        0 <= i <= b.len(),
        b.subrange(i, b.len() as int) == piece + rest,
    ensures
        i + piece.len() + rest.len() == b.len(),
        b.subrange(i, i + piece.len() as int) == piece,
        b.subrange(i + piece.len() as int, b.len() as int) == rest,
{
    assert(b.subrange(i, b.len() as int).len() == piece.len() + rest.len());
    assert(i + piece.len() + rest.len() == b.len());
    assert(b.subrange(i, i + piece.len() as int) =~= piece) by {
        assert(forall|k: int|
            0 <= k < piece.len() ==> b[i + k] == b.subrange(i, b.len() as int)[k]
                && b.subrange(i, b.len() as int)[k] == (piece + rest)[k] && (piece
                + rest)[k] == #[trigger] piece[k]);
    }
    assert(b.subrange(i + piece.len() as int, b.len() as int) =~= rest) by {
        assert(forall|k: int|
            0 <= k < rest.len() ==> b[i + piece.len() + k] == b.subrange(i, b.len() as int)[
            piece.len() + k] && b.subrange(i, b.len() as int)[piece.len() + k]
                == (piece + rest)[piece.len() + k] && (piece + rest)[piece.len() + k]
                == #[trigger] rest[k]);
    }
}

proof fn lemma_parse_lit_complete(b: Seq<u8>, i: int, l: Seq<u8>)
    requires
        0 <= i,
        i + l.len() <= b.len(),
        b.subrange(i, i + l.len() as int) == l,
    ensures
        spec_parse_lit(b, i, l) == Some(i + l.len() as int),
{
}

proof fn lemma_parse_corr_complete(b: Seq<u8>, i: int, c: Option<u128>)
    requires
        0 <= i,
        i + corr_json(c).len() <= b.len(),
        b.subrange(i, i + corr_json(c).len() as int) == corr_json(c),
    ensures
        spec_parse_corr(b, i) == Some((c, i + corr_json(c).len() as int)),
{
    let w = corr_json(c);
    match c {
        None => {
            lemma_parse_lit_complete(b, i, lit_null());
        },
        Some(v) => {
            // The blob starts with `[`, so the `null` literal cannot match.
            assert(b[i] == w[0] && w[0] == 0x5b);
            assert(spec_parse_lit(b, i, lit_null()) is None) by {
                if spec_parse_lit(b, i, lit_null()) is Some {
                    assert(b.subrange(i, i + 4)[0] == lit_null()[0]);
                }
            }
            let hi = hi64(v);
            let lo = lo64(v);
            let dh = dec_u64(hi);
            let dl = dec_u64(lo);
            assert(w == seq![0x5bu8] + dh + seq![0x2cu8] + dl + seq![0x5du8]);
            let o1 = i + 1;
            let o2 = o1 + dh.len() as int;
            let o3 = o2 + 1;
            let o4 = o3 + dl.len() as int;
            assert(b.subrange(o1, o2) =~= dh) by {
                assert(forall|k: int| 0 <= k < dh.len() ==> b[o1 + k] == w[1 + k] && w[1 + k]
                    == #[trigger] dh[k]);
            }
            assert(b[o2] == w[1 + dh.len() as int] && w[1 + dh.len() as int] == 0x2c);
            crate::json::lemma_dec_u64_digits(hi);
            crate::json::lemma_dec_u64_digits(lo);
            lemma_parse_dec_complete(b, o1, hi);
            assert(b.subrange(o3, o4) =~= dl) by {
                assert(forall|k: int| 0 <= k < dl.len() ==> b[o3 + k] == w[2 + dh.len() + k] && w[2
                    + dh.len() + k] == #[trigger] dl[k]);
            }
            assert(b[o4] == w[w.len() - 1] && w[w.len() - 1] == 0x5d);
            lemma_parse_dec_complete(b, o3, lo);
            lemma_hi_lo_join(v);
        },
    }
}

proof fn lemma_parse_points_rest_complete(b: Seq<u8>, i: int, acc: Seq<Seq<u8>>, ps: Seq<Seq<u8>>)
    requires
        0 <= i,
        forall|k: int| 0 <= k < ps.len() ==> wf_str(#[trigger] ps[k]),
        i + points_rest_json(ps).len() < b.len(),
        b.subrange(i, i + points_rest_json(ps).len() as int) == points_rest_json(ps),
        b[i + points_rest_json(ps).len()] != 0x2c,
    ensures
        spec_parse_points_rest(b, i, acc) == Some(
            (acc + ps, i + points_rest_json(ps).len() as int),
        ),
    decreases ps.len(),
{
    let w = points_rest_json(ps);
    if ps.len() == 0 {
        assert(acc + ps =~= acc);
        assert(!(0 <= i < b.len() && b[i] == 0x2c));
    } else {
        let p0 = ps[0];
        let js = jstr(p0);
        assert(w == seq![0x2cu8] + js + points_rest_json(ps.skip(1)));
        assert(b[i] == w[0] && w[0] == 0x2c);
        let o1 = i + 1;
        let o2 = o1 + js.len() as int;
        assert(b.subrange(o1, o1 + js.len() as int) =~= js) by {
            assert(forall|k: int| 0 <= k < js.len() ==> b[o1 + k] == w[1 + k] && w[1 + k]
                == #[trigger] js[k]);
        }
        crate::json::lemma_parse_jstr_complete(b, o1, p0);
        let w2 = points_rest_json(ps.skip(1));
        assert(b.subrange(o2, o2 + w2.len() as int) =~= w2) by {
            assert(forall|k: int| 0 <= k < w2.len() ==> b[o2 + k] == w[1 + js.len() + k] && w[1
                + js.len() + k] == #[trigger] w2[k]);
        }
        lemma_parse_points_rest_complete(b, o2, acc.push(p0), ps.skip(1));
        assert(acc.push(p0) + ps.skip(1) =~= acc + ps);
    }
}

proof fn lemma_parse_points_complete(b: Seq<u8>, i: int, ps: Seq<Seq<u8>>)
    requires
        0 <= i,
        forall|k: int| 0 <= k < ps.len() ==> wf_str(#[trigger] ps[k]),
        i + points_json(ps).len() < b.len(),
        b.subrange(i, i + points_json(ps).len() as int) == points_json(ps),
        b[i + points_json(ps).len()] == 0x5d,
    ensures
        spec_parse_points(b, i) == Some((ps, i + points_json(ps).len() as int)),
{
    let w = points_json(ps);
    if ps.len() == 0 {
        assert(b[i] == 0x5d);
        assert(ps =~= Seq::<Seq<u8>>::empty());
    } else {
        let p0 = ps[0];
        let js = jstr(p0);
        assert(w == js + points_rest_json(ps.skip(1)));
        assert(b[i] == w[0] && w[0] == js[0] && js[0] == 0x22);
        assert(b.subrange(i, i + js.len() as int) =~= js) by {
            assert(forall|k: int| 0 <= k < js.len() ==> b[i + k] == w[k] && w[k]
                == #[trigger] js[k]);
        }
        crate::json::lemma_parse_jstr_complete(b, i, p0);
        let o2 = i + js.len() as int;
        let w2 = points_rest_json(ps.skip(1));
        assert(b.subrange(o2, o2 + w2.len() as int) =~= w2) by {
            assert(forall|k: int| 0 <= k < w2.len() ==> b[o2 + k] == w[js.len() + k] && w[js.len()
                + k] == #[trigger] w2[k]);
        }
        assert(b[o2 + w2.len()] != 0x2c);
        lemma_parse_points_rest_complete(b, o2, seq![p0], ps.skip(1));
        assert(seq![p0] + ps.skip(1) =~= ps);
    }
}

proof fn lemma_parse_att_complete(b: Seq<u8>, i: int, a: AttachmentView)
    requires
        0 <= i,
        wf_str(a.name),
        i + att_json(a).len() <= b.len(),
        b.subrange(i, i + att_json(a).len() as int) == att_json(a),
    ensures
        spec_parse_att(b, i) == Some((a, i + att_json(a).len() as int)),
{
    let w = att_json(a);
    let js = jstr(a.name);
    let ds = dec_u64(a.size);
    let o1 = i + lit_name().len() as int;
    let o2 = o1 + js.len() as int;
    let o3 = o2 + lit_size().len() as int;
    let o4 = o3 + ds.len() as int;
    assert(b.subrange(i, o1) =~= lit_name()) by {
        assert(forall|k: int| 0 <= k < lit_name().len() ==> b[i + k] == #[trigger] w[k]);
    }
    lemma_parse_lit_complete(b, i, lit_name());
    assert(b.subrange(o1, o2) =~= js) by {
        assert(forall|k: int| 0 <= k < js.len() ==> b[o1 + k] == w[lit_name().len() + k] && w[
        lit_name().len() + k] == #[trigger] js[k]);
    }
    crate::json::lemma_parse_jstr_complete(b, o1, a.name);
    assert(b.subrange(o2, o3) =~= lit_size()) by {
        assert(forall|k: int| 0 <= k < lit_size().len() ==> b[o2 + k] == w[lit_name().len()
            + js.len() + k] && w[lit_name().len() + js.len() + k] == #[trigger] lit_size()[k]);
    }
    lemma_parse_lit_complete(b, o2, lit_size());
    assert(b.subrange(o3, o4) =~= ds) by {
        assert(forall|k: int| 0 <= k < ds.len() ==> b[o3 + k] == w[lit_name().len() + js.len()
            + lit_size().len() + k] && w[lit_name().len() + js.len() + lit_size().len() + k]
            == #[trigger] ds[k]);
    }
    assert(b[o4] == w[w.len() - 1] && w[w.len() - 1] == 0x7d);
    crate::json::lemma_dec_u64_digits(a.size);
    lemma_parse_dec_complete(b, o3, a.size);
}

proof fn lemma_parse_atts_rest_complete(
    b: Seq<u8>,
    i: int,
    acc: Seq<AttachmentView>,
    s: Seq<AttachmentView>,
)
    requires
        0 <= i,
        forall|k: int| 0 <= k < s.len() ==> wf_str(#[trigger] s[k].name),
        i + atts_rest_json(s).len() < b.len(),
        b.subrange(i, i + atts_rest_json(s).len() as int) == atts_rest_json(s),
        b[i + atts_rest_json(s).len()] != 0x2c,
    ensures
        spec_parse_atts_rest(b, i, acc) == Some((acc + s, i + atts_rest_json(s).len() as int)),
    decreases s.len(),
{
    let w = atts_rest_json(s);
    if s.len() == 0 {
        assert(acc + s =~= acc);
        assert(!(0 <= i < b.len() && b[i] == 0x2c));
    } else {
        let a0 = s[0];
        let aj = att_json(a0);
        assert(w == seq![0x2cu8] + aj + atts_rest_json(s.skip(1)));
        assert(b[i] == w[0] && w[0] == 0x2c);
        let o1 = i + 1;
        let o2 = o1 + aj.len() as int;
        assert(b.subrange(o1, o1 + aj.len() as int) =~= aj) by {
            assert(forall|k: int| 0 <= k < aj.len() ==> b[o1 + k] == w[1 + k] && w[1 + k]
                == #[trigger] aj[k]);
        }
        lemma_parse_att_complete(b, o1, a0);
        let w2 = atts_rest_json(s.skip(1));
        assert(b.subrange(o2, o2 + w2.len() as int) =~= w2) by {
            assert(forall|k: int| 0 <= k < w2.len() ==> b[o2 + k] == w[1 + aj.len() + k] && w[1
                + aj.len() + k] == #[trigger] w2[k]);
        }
        lemma_parse_atts_rest_complete(b, o2, acc.push(a0), s.skip(1));
        assert(acc.push(a0) + s.skip(1) =~= acc + s);
    }
}

proof fn lemma_parse_atts_complete(b: Seq<u8>, i: int, s: Seq<AttachmentView>)
    requires
        0 <= i,
        forall|k: int| 0 <= k < s.len() ==> wf_str(#[trigger] s[k].name),
        i + atts_json(s).len() < b.len(),
        b.subrange(i, i + atts_json(s).len() as int) == atts_json(s),
        b[i + atts_json(s).len()] == 0x5d,
    ensures
        spec_parse_atts(b, i) == Some((s, i + atts_json(s).len() as int)),
{
    let w = atts_json(s);
    if s.len() == 0 {
        assert(b[i] == 0x5d);
        assert(s =~= Seq::<AttachmentView>::empty());
    } else {
        let a0 = s[0];
        let aj = att_json(a0);
        assert(w == aj + atts_rest_json(s.skip(1)));
        assert(b[i] == w[0] && w[0] == aj[0] && aj[0] == 0x7b);
        assert(b.subrange(i, i + aj.len() as int) =~= aj) by {
            assert(forall|k: int| 0 <= k < aj.len() ==> b[i + k] == w[k] && w[k]
                == #[trigger] aj[k]);
        }
        lemma_parse_att_complete(b, i, a0);
        let o2 = i + aj.len() as int;
        let w2 = atts_rest_json(s.skip(1));
        assert(b.subrange(o2, o2 + w2.len() as int) =~= w2) by {
            assert(forall|k: int| 0 <= k < w2.len() ==> b[o2 + k] == w[aj.len() + k] && w[aj.len()
                + k] == #[trigger] w2[k]);
        }
        assert(b[o2 + w2.len()] != 0x2c);
        lemma_parse_atts_rest_complete(b, o2, seq![a0], s.skip(1));
        assert(seq![a0] + s.skip(1) =~= s);
    }
}

/// The `k`-th piece of the canonical rendering: literals alternating
/// with the encoded fields, nineteen in all.
pub open spec fn meta_piece(m: MetaView, k: int) -> Seq<u8> {
    if k == 0 {
        lit_tx()
    } else if k == 1 {
        jstr(m.tx)
    } else if k == 2 {
        lit_rx()
    } else if k == 3 {
        jstr(m.rx)
    } else if k == 4 {
        lit_key()
    } else if k == 5 {
        jstr(m.key)
    } else if k == 6 {
        lit_kind()
    } else if k == 7 {
        dec_u64(spec_msg_kind_tag(m.kind) as u64)
    } else if k == 8 {
        lit_corr()
    } else if k == 9 {
        corr_json(m.correlation_id)
    } else if k == 10 {
        lit_route()
    } else if k == 11 {
        jstr(m.route.source)
    } else if k == 12 {
        lit_points()
    } else if k == 13 {
        points_json(m.route.points)
    } else if k == 14 {
        lit_payload_size()
    } else if k == 15 {
        dec_u64(m.payload_size)
    } else if k == 16 {
        lit_atts()
    } else if k == 17 {
        atts_json(m.attachments)
    } else {
        lit_end()
    }
}

/// Where the `k`-th piece starts.
pub open spec fn meta_off(m: MetaView, k: int) -> int
    decreases k,
{
    if k <= 0 {
        0
    } else {
        meta_off(m, k - 1) + meta_piece(m, k - 1).len()
    }
}

/// The rendering from the `k`-th piece on, nested to the right.
pub open spec fn meta_suffix(m: MetaView, k: int) -> Seq<u8>
    decreases 19 - k,
{
    if k < 0 || k >= 19 {
        Seq::empty()
    } else {
        meta_piece(m, k) + meta_suffix(m, k + 1)
    }
}

/// Rebracketing step: gluing one more piece onto the left prefix is the
/// same as prepending it to the right suffix.
proof fn lemma_assoc(x: Seq<u8>, y: Seq<u8>, z: Seq<u8>)
    ensures
        (x + y) + z == x + (y + z),
{
    assert((x + y) + z =~= x + (y + z));
}

#[verifier::rlimit(100)]
proof fn lemma_meta_json_is_suffix(m: MetaView)
    ensures
        meta_json(m) == meta_suffix(m, 0),
{
    let p0 = lit_tx();
    let p1 = jstr(m.tx);
    let p2 = lit_rx();
    let p3 = jstr(m.rx);
    let p4 = lit_key();
    let p5 = jstr(m.key);
    let p6 = lit_kind();
    let p7 = dec_u64(spec_msg_kind_tag(m.kind) as u64);
    let p8 = lit_corr();
    let p9 = corr_json(m.correlation_id);
    let p10 = lit_route();
    let p11 = jstr(m.route.source);
    let p12 = lit_points();
    let p13 = points_json(m.route.points);
    let p14 = lit_payload_size();
    let p15 = dec_u64(m.payload_size);
    let p16 = lit_atts();
    let p17 = atts_json(m.attachments);
    let p18 = lit_end();
    let s18 = p18 + meta_suffix(m, 19);
    assert(meta_suffix(m, 19) =~= Seq::<u8>::empty());
    assert(s18 =~= p18);
    let s17 = p17 + s18;
    let s16 = p16 + s17;
    let s15 = p15 + s16;
    let s14 = p14 + s15;
    let s13 = p13 + s14;
    let s12 = p12 + s13;
    let s11 = p11 + s12;
    let s10 = p10 + s11;
    let s9 = p9 + s10;
    let s8 = p8 + s9;
    let s7 = p7 + s8;
    let s6 = p6 + s7;
    let s5 = p5 + s6;
    let s4 = p4 + s5;
    let s3 = p3 + s4;
    let s2 = p2 + s3;
    let s1 = p1 + s2;
    let s0 = p0 + s1;
    assert(meta_suffix(m, 18) == s18);
    assert(meta_suffix(m, 17) == p17 + meta_suffix(m, 18) && meta_suffix(m, 17) == s17);
    assert(meta_suffix(m, 16) == p16 + meta_suffix(m, 17) && meta_suffix(m, 16) == s16);
    assert(meta_suffix(m, 15) == p15 + meta_suffix(m, 16) && meta_suffix(m, 15) == s15);
    assert(meta_suffix(m, 14) == p14 + meta_suffix(m, 15) && meta_suffix(m, 14) == s14);
    assert(meta_suffix(m, 13) == p13 + meta_suffix(m, 14) && meta_suffix(m, 13) == s13);
    assert(meta_suffix(m, 12) == p12 + meta_suffix(m, 13) && meta_suffix(m, 12) == s12);
    assert(meta_suffix(m, 11) == p11 + meta_suffix(m, 12) && meta_suffix(m, 11) == s11);
    assert(meta_suffix(m, 10) == p10 + meta_suffix(m, 11) && meta_suffix(m, 10) == s10);
    assert(meta_suffix(m, 9) == p9 + meta_suffix(m, 10) && meta_suffix(m, 9) == s9);
    assert(meta_suffix(m, 8) == p8 + meta_suffix(m, 9) && meta_suffix(m, 8) == s8);
    assert(meta_suffix(m, 7) == p7 + meta_suffix(m, 8) && meta_suffix(m, 7) == s7);
    assert(meta_suffix(m, 6) == p6 + meta_suffix(m, 7) && meta_suffix(m, 6) == s6);
    assert(meta_suffix(m, 5) == p5 + meta_suffix(m, 6) && meta_suffix(m, 5) == s5);
    assert(meta_suffix(m, 4) == p4 + meta_suffix(m, 5) && meta_suffix(m, 4) == s4);
    assert(meta_suffix(m, 3) == p3 + meta_suffix(m, 4) && meta_suffix(m, 3) == s3);
    assert(meta_suffix(m, 2) == p2 + meta_suffix(m, 3) && meta_suffix(m, 2) == s2);
    assert(meta_suffix(m, 1) == p1 + meta_suffix(m, 2) && meta_suffix(m, 1) == s1);
    assert(meta_suffix(m, 0) == p0 + meta_suffix(m, 1));
    assert(meta_suffix(m, 0) == s0);
    let l1 = p0;
    let l2 = l1 + p1;
    let l3 = l2 + p2;
    let l4 = l3 + p3;
    let l5 = l4 + p4;
    let l6 = l5 + p5;
    let l7 = l6 + p6;
    let l8 = l7 + p7;
    let l9 = l8 + p8;
    let l10 = l9 + p9;
    let l11 = l10 + p10;
    let l12 = l11 + p11;
    let l13 = l12 + p12;
    let l14 = l13 + p13;
    let l15 = l14 + p14;
    let l16 = l15 + p15;
    let l17 = l16 + p16;
    let l18 = l17 + p17;
    let l19 = l18 + p18;
    assert(meta_json(m) == l19);
    lemma_assoc(l17, p17, s18);
    lemma_assoc(l16, p16, s17);
    lemma_assoc(l15, p15, s16);
    lemma_assoc(l14, p14, s15);
    lemma_assoc(l13, p13, s14);
    lemma_assoc(l12, p12, s13);
    lemma_assoc(l11, p11, s12);
    lemma_assoc(l10, p10, s11);
    lemma_assoc(l9, p9, s10);
    lemma_assoc(l8, p8, s9);
    lemma_assoc(l7, p7, s8);
    lemma_assoc(l6, p6, s7);
    lemma_assoc(l5, p5, s6);
    lemma_assoc(l4, p4, s5);
    lemma_assoc(l3, p3, s4);
    lemma_assoc(l2, p2, s3);
    lemma_assoc(l1, p1, s2);
    assert(l19 == l18 + s18) by {
        assert(l18 + p18 =~= l18 + s18);
    }
    assert(meta_json(m) == s0);
}

#[verifier::rlimit(100)]
proof fn lemma_meta_splits_rec(m: MetaView, k: int)
    requires
        0 <= k <= 19,
        meta_off(m, k) >= 0,
        meta_json(m).subrange(meta_off(m, k), meta_json(m).len() as int) == meta_suffix(m, k),
        meta_off(m, k) <= meta_json(m).len(),
    ensures
        meta_off(m, 19) == meta_json(m).len(),
        forall|j: int|
            k <= j < 19 ==> {
                &&& meta_off(m, j + 1) == meta_off(m, j) + (#[trigger] meta_piece(m, j)).len()
                &&& meta_off(m, j) >= 0
                &&& meta_off(m, j + 1) <= meta_json(m).len()
                &&& meta_json(m).subrange(meta_off(m, j), meta_off(m, j + 1)) == meta_piece(m, j)
            },
    decreases 19 - k,
{
    let b = meta_json(m);
    if k == 19 {
        assert(meta_suffix(m, 19) =~= Seq::<u8>::empty());
        assert(b.subrange(meta_off(m, 19), b.len() as int).len() == 0);
    } else {
        assert(meta_suffix(m, k) == meta_piece(m, k) + meta_suffix(m, k + 1));
        lemma_peel(b, meta_off(m, k), meta_piece(m, k), meta_suffix(m, k + 1));
        assert(meta_off(m, k + 1) == meta_off(m, k) + meta_piece(m, k).len());
        lemma_meta_splits_rec(m, k + 1);
    }
}

/// The rendering of `m` splits into its nineteen pieces at the
/// cumulative offsets.
#[verifier::rlimit(100)]
proof fn lemma_meta_splits(m: MetaView)
    ensures
        meta_off(m, 19) == meta_json(m).len(),
        forall|j: int|
            0 <= j < 19 ==> {
                &&& meta_off(m, j + 1) == meta_off(m, j) + (#[trigger] meta_piece(m, j)).len()
                &&& meta_off(m, j) >= 0
                &&& meta_off(m, j + 1) <= meta_json(m).len()
                &&& meta_json(m).subrange(meta_off(m, j), meta_off(m, j + 1)) == meta_piece(m, j)
            },
{
    let b = meta_json(m);
    lemma_meta_json_is_suffix(m);
    assert(meta_off(m, 0) == 0);
    assert(b.subrange(0, b.len() as int) =~= b);
    lemma_meta_splits_rec(m, 0);
}

/// The partially filled header that the parser carries into its last
/// stage.
pub open spec fn meta_partial(m: MetaView) -> MetaView {
    MetaView { payload_size: 0, attachments: Seq::empty(), ..m }
}

#[verifier::rlimit(100)]
proof fn lemma_meta_json_round_head(m: MetaView)
    requires
        wf_meta(m),
    ensures
        spec_parse_meta(meta_json(m)) == spec_parse_meta_tail(
            meta_json(m),
            meta_off(m, 7),
            m.tx,
            m.rx,
            m.key,
        ),
{
    reveal(spec_parse_meta);
    let b = meta_json(m);
    lemma_meta_splits(m);
    assert(meta_off(m, 0) == 0);
    assert(meta_piece(m, 0) == lit_tx());
    assert(meta_piece(m, 1) == jstr(m.tx));
    assert(meta_piece(m, 2) == lit_rx());
    assert(meta_piece(m, 3) == jstr(m.rx));
    assert(meta_piece(m, 4) == lit_key());
    assert(meta_piece(m, 5) == jstr(m.key));
    assert(meta_piece(m, 6) == lit_kind());
    lemma_parse_lit_complete(b, meta_off(m, 0), lit_tx());
    lemma_parse_jstr_complete(b, meta_off(m, 1), m.tx);
    lemma_parse_lit_complete(b, meta_off(m, 2), lit_rx());
    lemma_parse_jstr_complete(b, meta_off(m, 3), m.rx);
    lemma_parse_lit_complete(b, meta_off(m, 4), lit_key());
    lemma_parse_jstr_complete(b, meta_off(m, 5), m.key);
    lemma_parse_lit_complete(b, meta_off(m, 6), lit_kind());
}

#[verifier::rlimit(100)]
proof fn lemma_meta_json_round_mid_a(m: MetaView)
    requires
        wf_meta(m),
    ensures
        spec_parse_dec(meta_json(m), meta_off(m, 7)) == Some(
            (spec_msg_kind_tag(m.kind) as u64, meta_off(m, 8)),
        ),
        spec_parse_lit(meta_json(m), meta_off(m, 8), lit_corr()) == Some(meta_off(m, 9)),
        spec_parse_corr(meta_json(m), meta_off(m, 9)) == Some(
            (m.correlation_id, meta_off(m, 10)),
        ),
{
    let b = meta_json(m);
    lemma_meta_splits(m);
    assert(meta_piece(m, 7) == dec_u64(spec_msg_kind_tag(m.kind) as u64));
    assert(meta_piece(m, 8) == lit_corr());
    assert(meta_piece(m, 9) == corr_json(m.correlation_id));
    assert(meta_piece(m, 10) == lit_route());
    assert(b[meta_off(m, 8)] == lit_corr()[0] && lit_corr()[0] == 0x2c) by {
        assert(b.subrange(meta_off(m, 8), meta_off(m, 9))[0] == lit_corr()[0]);
    }
    crate::json::lemma_dec_u64_digits(spec_msg_kind_tag(m.kind) as u64);
    lemma_parse_dec_complete(b, meta_off(m, 7), spec_msg_kind_tag(m.kind) as u64);
    lemma_parse_lit_complete(b, meta_off(m, 8), lit_corr());
    lemma_parse_corr_complete(b, meta_off(m, 9), m.correlation_id);
}

#[verifier::rlimit(100)]
proof fn lemma_meta_json_round_mid_b(m: MetaView)
    requires
        wf_meta(m),
    ensures
        spec_parse_lit(meta_json(m), meta_off(m, 10), lit_route()) == Some(meta_off(m, 11)),
        spec_parse_jstr(meta_json(m), meta_off(m, 11)) == Some((m.route.source, meta_off(m, 12))),
        spec_parse_lit(meta_json(m), meta_off(m, 12), lit_points()) == Some(meta_off(m, 13)),
        spec_parse_points(meta_json(m), meta_off(m, 13)) == Some(
            (m.route.points, meta_off(m, 14)),
        ),
{
    let b = meta_json(m);
    lemma_meta_splits(m);
    assert(meta_piece(m, 10) == lit_route());
    assert(meta_piece(m, 11) == jstr(m.route.source));
    assert(meta_piece(m, 12) == lit_points());
    assert(meta_piece(m, 13) == points_json(m.route.points));
    assert(meta_piece(m, 14) == lit_payload_size());
    lemma_parse_lit_complete(b, meta_off(m, 10), lit_route());
    lemma_parse_jstr_complete(b, meta_off(m, 11), m.route.source);
    lemma_parse_lit_complete(b, meta_off(m, 12), lit_points());
    assert(b[meta_off(m, 14)] == lit_payload_size()[0] && lit_payload_size()[0] == 0x5d) by {
        assert(b.subrange(meta_off(m, 14), meta_off(m, 15))[0] == lit_payload_size()[0]);
    }
    lemma_parse_points_complete(b, meta_off(m, 13), m.route.points);
}

#[verifier::rlimit(100)]
proof fn lemma_meta_json_round_mid(m: MetaView)
    requires
        wf_meta(m),
    ensures
        spec_parse_meta_tail(meta_json(m), meta_off(m, 7), m.tx, m.rx, m.key)
            == spec_parse_meta_end(meta_json(m), meta_off(m, 14), meta_partial(m)),
{
    let b = meta_json(m);
    lemma_meta_json_round_mid_a(m);
    lemma_meta_json_round_mid_b(m);
    crate::frame::lemma_msg_kind_tag_round(m.kind);
    assert(spec_msg_kind_tag(m.kind) as u64 <= 3);
    assert(spec_parse_meta_tail(b, meta_off(m, 7), m.tx, m.rx, m.key) == spec_parse_meta_end(
        b,
        meta_off(m, 14),
        meta_partial(m),
    ));
}

#[verifier::rlimit(100)]
proof fn lemma_meta_json_round_end_a(m: MetaView)
    requires
        wf_meta(m),
    ensures
        spec_parse_lit(meta_json(m), meta_off(m, 14), lit_payload_size()) == Some(meta_off(m, 15)),
        spec_parse_dec(meta_json(m), meta_off(m, 15)) == Some((m.payload_size, meta_off(m, 16))),
        spec_parse_lit(meta_json(m), meta_off(m, 16), lit_atts()) == Some(meta_off(m, 17)),
        spec_parse_atts(meta_json(m), meta_off(m, 17)) == Some((m.attachments, meta_off(m, 18))),
        spec_parse_lit(meta_json(m), meta_off(m, 18), lit_end()) == Some(meta_off(m, 19)),
        meta_off(m, 19) == meta_json(m).len(),
{
    let b = meta_json(m);
    lemma_meta_splits(m);
    assert(meta_piece(m, 14) == lit_payload_size());
    assert(meta_piece(m, 15) == dec_u64(m.payload_size));
    assert(meta_piece(m, 16) == lit_atts());
    assert(meta_piece(m, 17) == atts_json(m.attachments));
    assert(meta_piece(m, 18) == lit_end());
    lemma_parse_lit_complete(b, meta_off(m, 14), lit_payload_size());
    assert(b[meta_off(m, 16)] == lit_atts()[0] && lit_atts()[0] == 0x2c) by {
        assert(b.subrange(meta_off(m, 16), meta_off(m, 17))[0] == lit_atts()[0]);
    }
    crate::json::lemma_dec_u64_digits(m.payload_size);
    lemma_parse_dec_complete(b, meta_off(m, 15), m.payload_size);
    lemma_parse_lit_complete(b, meta_off(m, 16), lit_atts());
    assert(b[meta_off(m, 18)] == lit_end()[0] && lit_end()[0] == 0x5d) by {
        assert(b.subrange(meta_off(m, 18), meta_off(m, 19))[0] == lit_end()[0]);
    }
    lemma_parse_atts_complete(b, meta_off(m, 17), m.attachments);
    lemma_parse_lit_complete(b, meta_off(m, 18), lit_end());
}

#[verifier::rlimit(100)]
proof fn lemma_meta_json_round_end(m: MetaView)
    requires
        wf_meta(m),
    ensures
        spec_parse_meta_end(meta_json(m), meta_off(m, 14), meta_partial(m)) == Some(m),
{
    let b = meta_json(m);
    lemma_meta_json_round_end_a(m);
    let mm = MetaView { payload_size: m.payload_size, attachments: m.attachments, ..meta_partial(
        m,
    ) };
    assert(mm == m);
    assert(spec_parse_meta_end(b, meta_off(m, 14), meta_partial(m)) == Some(m));
}

/// Round trip of the metadata codec: parsing the canonical rendering of
/// a well-formed header yields that header.
pub proof fn lemma_meta_json_round(m: MetaView)
    requires
        wf_meta(m),
    ensures
        spec_parse_meta(meta_json(m)) == Some(m),
{
    lemma_meta_json_round_head(m);
    lemma_meta_json_round_mid(m);
    lemma_meta_json_round_end(m);
}

/// Every participant the list parser returns is well formed.
proof fn lemma_parse_points_sound_wf(b: Seq<u8>, i: int, ps: Seq<Seq<u8>>, j: int)
    requires
        0 <= i <= b.len(),
        spec_parse_points(b, i) == Some((ps, j)),
    ensures
        forall|k: int| 0 <= k < ps.len() ==> wf_str(#[trigger] ps[k]),
{
    if 0 <= i < b.len() && b[i] == 0x22 {
        let (s, j0) = spec_parse_jstr(b, i)->Some_0;
        lemma_parse_jstr_sound(b, i, s, j0);
        lemma_parse_points_rest_sound_wf(b, j0, seq![s], ps, j);
    } else {
        assert(ps =~= Seq::<Seq<u8>>::empty());
    }
}

proof fn lemma_parse_points_rest_sound_wf(
    b: Seq<u8>,
    i: int,
    acc: Seq<Seq<u8>>,
    ps: Seq<Seq<u8>>,
    j: int,
)
    requires
        0 <= i <= b.len(),
        forall|k: int| 0 <= k < acc.len() ==> wf_str(#[trigger] acc[k]),
        spec_parse_points_rest(b, i, acc) == Some((ps, j)),
    ensures
        forall|k: int| 0 <= k < ps.len() ==> wf_str(#[trigger] ps[k]),
    decreases b.len() - i,
{
    if 0 <= i < b.len() && b[i] == 0x2c {
        let (s, j0) = spec_parse_jstr(b, i + 1)->Some_0;
        lemma_parse_jstr_sound(b, i + 1, s, j0);
        lemma_parse_points_rest_sound_wf(b, j0, acc.push(s), ps, j);
    } else {
        assert(ps == acc);
    }
}

/// Every attachment name the list parser returns is well formed.
proof fn lemma_parse_atts_sound_wf(b: Seq<u8>, i: int, s: Seq<AttachmentView>, j: int)
    requires
        0 <= i <= b.len(),
        spec_parse_atts(b, i) == Some((s, j)),
    ensures
        forall|k: int| 0 <= k < s.len() ==> wf_str(#[trigger] s[k].name),
{
    if 0 <= i < b.len() && b[i] == 0x7b {
        let (a, j0) = spec_parse_att(b, i)->Some_0;
        lemma_parse_att_sound_wf(b, i, a, j0);
        lemma_parse_atts_rest_sound_wf(b, j0, seq![a], s, j);
    } else {
        assert(s =~= Seq::<AttachmentView>::empty());
    }
}

proof fn lemma_parse_att_sound_wf(b: Seq<u8>, i: int, a: AttachmentView, j: int)
    requires
        0 <= i,
        spec_parse_att(b, i) == Some((a, j)),
    ensures
        wf_str(a.name),
        i < j <= b.len(),
{
    let j1 = spec_parse_lit(b, i, lit_name())->Some_0;
    let (name, j2) = spec_parse_jstr(b, j1)->Some_0;
    lemma_parse_jstr_sound(b, j1, name, j2);
    let j3 = spec_parse_lit(b, j2, lit_size())->Some_0;
    let (size, j4) = spec_parse_dec(b, j3)->Some_0;
    crate::json::lemma_parse_dec_sound(b, j3, size, j4);
}

proof fn lemma_parse_atts_rest_sound_wf(
    b: Seq<u8>,
    i: int,
    acc: Seq<AttachmentView>,
    s: Seq<AttachmentView>,
    j: int,
)
    requires
        0 <= i <= b.len(),
        forall|k: int| 0 <= k < acc.len() ==> wf_str(#[trigger] acc[k].name),
        spec_parse_atts_rest(b, i, acc) == Some((s, j)),
    ensures
        forall|k: int| 0 <= k < s.len() ==> wf_str(#[trigger] s[k].name),
    decreases b.len() - i,
{
    if 0 <= i < b.len() && b[i] == 0x2c {
        let (a, j0) = spec_parse_att(b, i + 1)->Some_0;
        lemma_parse_att_sound_wf(b, i + 1, a, j0);
        lemma_parse_atts_rest_sound_wf(b, j0, acc.push(a), s, j);
    } else {
        assert(s == acc);
    }
}

/// The halves of a joined pair are the pair.
proof fn lemma_hi_lo_split(hi: u64, lo: u64)
    ensures
        hi64(((hi as u128) << 64) | (lo as u128)) == hi,
        lo64(((hi as u128) << 64) | (lo as u128)) == lo,
{
    assert((((hi as u128) << 64) | (lo as u128)) >> 64 == hi as u128) by (bit_vector);
    assert(((((hi as u128) << 64) | (lo as u128)) as u64) == lo) by (bit_vector);
}

/// Adjacent subranges concatenate.
proof fn lemma_join_subranges(b: Seq<u8>, i: int, j: int, k: int)
    requires
        0 <= i <= j <= k <= b.len(),
    ensures
        b.subrange(i, k) == b.subrange(i, j) + b.subrange(j, k),
{
    assert(b.subrange(i, k) =~= b.subrange(i, j) + b.subrange(j, k));
}

proof fn lemma_parse_lit_sound(b: Seq<u8>, i: int, l: Seq<u8>, j: int)
    requires
        spec_parse_lit(b, i, l) == Some(j),
    ensures
        0 <= i <= j <= b.len(),
        j == i + l.len(),
        b.subrange(i, j) == l,
{
}

#[verifier::rlimit(100)]
proof fn lemma_parse_corr_sound(b: Seq<u8>, i: int, c: Option<u128>, j: int)
    requires
        0 <= i <= b.len(),
        spec_parse_corr(b, i) == Some((c, j)),
    ensures
        i <= j <= b.len(),
        b.subrange(i, j) == corr_json(c),
{
    match spec_parse_lit(b, i, lit_null()) {
        Some(j2) => {
            lemma_parse_lit_sound(b, i, lit_null(), j2);
        },
        None => {
            let (hi, j1) = spec_parse_dec(b, i + 1)->Some_0;
            let (lo, j2) = spec_parse_dec(b, j1 + 1)->Some_0;
            lemma_parse_dec_sound(b, i + 1, hi, j1);
            lemma_parse_dec_sound(b, j1 + 1, lo, j2);
            let v = ((hi as u128) << 64) | (lo as u128);
            lemma_hi_lo_split(hi, lo);
            assert(b.subrange(i, i + 1) =~= seq![0x5bu8]);
            assert(b.subrange(j1, j1 + 1) =~= seq![0x2cu8]);
            assert(b.subrange(j2, j2 + 1) =~= seq![0x5du8]);
            lemma_join_subranges(b, i, i + 1, j1);
            lemma_join_subranges(b, i, j1, j1 + 1);
            lemma_join_subranges(b, i, j1 + 1, j2);
            lemma_join_subranges(b, i, j2, j2 + 1);
            assert(b.subrange(i, j2 + 1) =~= seq![0x5bu8] + dec_u64(hi) + seq![0x2cu8] + dec_u64(
                lo,
            ) + seq![0x5du8]);
        },
    }
}

proof fn lemma_parse_points_rest_sound(
    b: Seq<u8>,
    i: int,
    acc: Seq<Seq<u8>>,
    ps: Seq<Seq<u8>>,
    j: int,
)
    requires
        0 <= i <= b.len(),
        spec_parse_points_rest(b, i, acc) == Some((ps, j)),
    ensures
        i <= j <= b.len(),
        acc.len() <= ps.len(),
        ps.subrange(0, acc.len() as int) == acc,
        b.subrange(i, j) == points_rest_json(ps.skip(acc.len() as int)),
    decreases b.len() - i,
{
    if 0 <= i < b.len() && b[i] == 0x2c {
        let (s, j1) = spec_parse_jstr(b, i + 1)->Some_0;
        lemma_parse_jstr_sound(b, i + 1, s, j1);
        lemma_parse_points_rest_sound(b, j1, acc.push(s), ps, j);
        assert(ps.subrange(0, acc.len() as int) =~= acc) by {
            assert(forall|k: int|
                0 <= k < acc.len() ==> ps.subrange(0, acc.len() + 1 as int)[k] == #[trigger] acc.push(
                    s,
                )[k]);
        }
        let t = ps.skip(acc.len() as int);
        let t2 = ps.skip(acc.len() + 1 as int);
        assert(t[0] == ps[acc.len() as int] && ps[acc.len() as int] == acc.push(s)[
        acc.len() as int] && acc.push(s)[acc.len() as int] == s);
        assert(t.skip(1) =~= t2);
        assert(points_rest_json(t) == seq![0x2cu8] + jstr(s) + points_rest_json(t2));
        assert(b.subrange(i, i + 1) =~= seq![0x2cu8]);
        lemma_join_subranges(b, i, i + 1, j1);
        lemma_join_subranges(b, i, j1, j);
        assert(b.subrange(i, j) =~= points_rest_json(t));
    } else {
        assert(ps == acc);
        assert(ps.subrange(0, acc.len() as int) =~= acc);
        assert(ps.skip(acc.len() as int) =~= Seq::<Seq<u8>>::empty());
        assert(b.subrange(i, j) =~= points_rest_json(ps.skip(acc.len() as int)));
    }
}

proof fn lemma_parse_points_sound(b: Seq<u8>, i: int, ps: Seq<Seq<u8>>, j: int)
    requires
        0 <= i <= b.len(),
        spec_parse_points(b, i) == Some((ps, j)),
    ensures
        i <= j <= b.len(),
        b.subrange(i, j) == points_json(ps),
{
    if 0 <= i < b.len() && b[i] == 0x22 {
        let (s, j1) = spec_parse_jstr(b, i)->Some_0;
        lemma_parse_jstr_sound(b, i, s, j1);
        lemma_parse_points_rest_sound(b, j1, seq![s], ps, j);
        assert(ps[0] == ps.subrange(0, 1)[0] && ps.subrange(0, 1)[0] == s);
        assert(ps.skip(1) =~= ps.skip(seq![s].len() as int));
        assert(points_json(ps) == jstr(ps[0]) + points_rest_json(ps.skip(1)));
        lemma_join_subranges(b, i, j1, j);
        assert(b.subrange(i, j) =~= points_json(ps));
    } else {
        assert(ps =~= Seq::<Seq<u8>>::empty());
        assert(b.subrange(i, j) =~= points_json(ps));
    }
}

#[verifier::rlimit(100)]
proof fn lemma_parse_att_sound(b: Seq<u8>, i: int, a: AttachmentView, j: int)
    requires
        0 <= i <= b.len(),
        spec_parse_att(b, i) == Some((a, j)),
    ensures
        i < j <= b.len(),
        b.subrange(i, j) == att_json(a),
{
    let j1 = spec_parse_lit(b, i, lit_name())->Some_0;
    let (name, j2) = spec_parse_jstr(b, j1)->Some_0;
    let j3 = spec_parse_lit(b, j2, lit_size())->Some_0;
    let (size, j4) = spec_parse_dec(b, j3)->Some_0;
    lemma_parse_lit_sound(b, i, lit_name(), j1);
    lemma_parse_jstr_sound(b, j1, name, j2);
    lemma_parse_lit_sound(b, j2, lit_size(), j3);
    lemma_parse_dec_sound(b, j3, size, j4);
    assert(b.subrange(j4, j4 + 1) =~= seq![0x7du8]);
    lemma_join_subranges(b, i, j1, j2);
    lemma_join_subranges(b, i, j2, j3);
    lemma_join_subranges(b, i, j3, j4);
    lemma_join_subranges(b, i, j4, j4 + 1);
    assert(b.subrange(i, j) =~= att_json(a));
}

proof fn lemma_parse_atts_rest_sound(
    b: Seq<u8>,
    i: int,
    acc: Seq<AttachmentView>,
    s: Seq<AttachmentView>,
    j: int,
)
    requires
        0 <= i <= b.len(),
        spec_parse_atts_rest(b, i, acc) == Some((s, j)),
    ensures
        i <= j <= b.len(),
        acc.len() <= s.len(),
        s.subrange(0, acc.len() as int) == acc,
        b.subrange(i, j) == atts_rest_json(s.skip(acc.len() as int)),
    decreases b.len() - i,
{
    if 0 <= i < b.len() && b[i] == 0x2c {
        let (a, j1) = spec_parse_att(b, i + 1)->Some_0;
        lemma_parse_att_sound(b, i + 1, a, j1);
        lemma_parse_atts_rest_sound(b, j1, acc.push(a), s, j);
        assert(s.subrange(0, acc.len() as int) =~= acc) by {
            assert(forall|k: int|
                0 <= k < acc.len() ==> s.subrange(0, acc.len() + 1 as int)[k] == #[trigger] acc.push(
                    a,
                )[k]);
        }
        let t = s.skip(acc.len() as int);
        let t2 = s.skip(acc.len() + 1 as int);
        assert(t[0] == s[acc.len() as int] && s[acc.len() as int] == acc.push(a)[
        acc.len() as int] && acc.push(a)[acc.len() as int] == a);
        assert(t.skip(1) =~= t2);
        assert(atts_rest_json(t) == seq![0x2cu8] + att_json(a) + atts_rest_json(t2));
        assert(b.subrange(i, i + 1) =~= seq![0x2cu8]);
        lemma_join_subranges(b, i, i + 1, j1);
        lemma_join_subranges(b, i, j1, j);
        assert(b.subrange(i, j) =~= atts_rest_json(t));
    } else {
        assert(s == acc);
        assert(s.subrange(0, acc.len() as int) =~= acc);
        assert(s.skip(acc.len() as int) =~= Seq::<AttachmentView>::empty());
        assert(b.subrange(i, j) =~= atts_rest_json(s.skip(acc.len() as int)));
    }
}

proof fn lemma_parse_atts_sound(b: Seq<u8>, i: int, s: Seq<AttachmentView>, j: int)
    requires
        0 <= i <= b.len(),
        spec_parse_atts(b, i) == Some((s, j)),
    ensures
        i <= j <= b.len(),
        b.subrange(i, j) == atts_json(s),
{
    if 0 <= i < b.len() && b[i] == 0x7b {
        let (a, j1) = spec_parse_att(b, i)->Some_0;
        lemma_parse_att_sound(b, i, a, j1);
        lemma_parse_atts_rest_sound(b, j1, seq![a], s, j);
        assert(s[0] == s.subrange(0, 1)[0] && s.subrange(0, 1)[0] == a);
        assert(s.skip(1) =~= s.skip(seq![a].len() as int));
        assert(atts_json(s) == att_json(s[0]) + atts_rest_json(s.skip(1)));
        lemma_join_subranges(b, i, j1, j);
        assert(b.subrange(i, j) =~= atts_json(s));
    } else {
        assert(s =~= Seq::<AttachmentView>::empty());
        assert(b.subrange(i, j) =~= atts_json(s));
    }
}

/// The parser accepts nothing but the canonical rendering: a blob it
/// reads back as `m` is exactly `meta_json(m)`, and `m` is well formed.
#[verifier::rlimit(100)]
pub proof fn lemma_parse_meta_sound(b: Seq<u8>, m: MetaView)
    requires
        spec_parse_meta(b) == Some(m),
    ensures
        b == meta_json(m),
        wf_meta(m),
{
    reveal(spec_parse_meta);
    let i1 = spec_parse_lit(b, 0, lit_tx())->Some_0;
    let (tx, i2) = spec_parse_jstr(b, i1)->Some_0;
    let i3 = spec_parse_lit(b, i2, lit_rx())->Some_0;
    let (rx, i4) = spec_parse_jstr(b, i3)->Some_0;
    let i5 = spec_parse_lit(b, i4, lit_key())->Some_0;
    let (key, i6) = spec_parse_jstr(b, i5)->Some_0;
    let i7 = spec_parse_lit(b, i6, lit_kind())->Some_0;
    lemma_parse_lit_sound(b, 0, lit_tx(), i1);
    lemma_parse_jstr_sound(b, i1, tx, i2);
    lemma_parse_lit_sound(b, i2, lit_rx(), i3);
    lemma_parse_jstr_sound(b, i3, rx, i4);
    lemma_parse_lit_sound(b, i4, lit_key(), i5);
    lemma_parse_jstr_sound(b, i5, key, i6);
    lemma_parse_lit_sound(b, i6, lit_kind(), i7);
    lemma_parse_meta_tail_pins(b, i7, tx, rx, key, m);
    lemma_parse_meta_tail_sound(b, i7, tx, rx, key, m);
    let bl = b.len() as int;
    assert(meta_piece(m, 0) == lit_tx() && meta_piece(m, 1) == jstr(m.tx) && meta_piece(m, 2)
        == lit_rx() && meta_piece(m, 3) == jstr(m.rx) && meta_piece(m, 4) == lit_key()
        && meta_piece(m, 5) == jstr(m.key) && meta_piece(m, 6) == lit_kind());
    lemma_join_subranges(b, i6, i7, bl);
    assert(b.subrange(i6, bl) == meta_suffix(m, 6));
    lemma_join_subranges(b, i5, i6, bl);
    assert(b.subrange(i5, bl) == meta_suffix(m, 5));
    lemma_join_subranges(b, i4, i5, bl);
    assert(b.subrange(i4, bl) == meta_suffix(m, 4));
    lemma_join_subranges(b, i3, i4, bl);
    assert(b.subrange(i3, bl) == meta_suffix(m, 3));
    lemma_join_subranges(b, i2, i3, bl);
    assert(b.subrange(i2, bl) == meta_suffix(m, 2));
    lemma_join_subranges(b, i1, i2, bl);
    assert(b.subrange(i1, bl) == meta_suffix(m, 1));
    lemma_join_subranges(b, 0, i1, bl);
    assert(b.subrange(0, bl) == meta_suffix(m, 0));
    assert(b.subrange(0, bl) =~= b);
    lemma_meta_json_is_suffix(m);
    assert(wf_meta(m));
}

/// The tail parser only ever returns the header built from its three
/// string arguments.
proof fn lemma_parse_meta_tail_pins(
    b: Seq<u8>,
    i7: int,
    tx: Seq<u8>,
    rx: Seq<u8>,
    key: Seq<u8>,
    m: MetaView,
)
    requires
        spec_parse_meta_tail(b, i7, tx, rx, key) == Some(m),
    ensures
        m.tx == tx,
        m.rx == rx,
        m.key == key,
{
}

/// Soundness of the parse from the message kind on: the remaining bytes
/// are the remaining pieces of the canonical rendering, and the parsed
/// header meets every well-formedness condition that does not concern
/// the three address strings.
#[verifier::rlimit(100)]
proof fn lemma_parse_meta_tail_sound(
    b: Seq<u8>,
    i7: int,
    tx: Seq<u8>,
    rx: Seq<u8>,
    key: Seq<u8>,
    m: MetaView,
)
    requires
        0 <= i7 <= b.len(),
        spec_parse_meta_tail(b, i7, tx, rx, key) == Some(m),
    ensures
        b.subrange(i7, b.len() as int) == meta_suffix(m, 7),
        wf_str(m.route.source),
        forall|k: int| 0 <= k < m.route.points.len() ==> wf_str(#[trigger] m.route.points[k]),
        forall|k: int| 0 <= k < m.attachments.len() ==> wf_str(#[trigger] m.attachments[k].name),
        m.attachments.len() <= 255,
        m.kind != MsgKind::Event ==> m.correlation_id is Some,
{
    let (tagv, i8) = spec_parse_dec(b, i7)->Some_0;
    let i9 = spec_parse_lit(b, i8, lit_corr())->Some_0;
    let (corr, i10) = spec_parse_corr(b, i9)->Some_0;
    let i11 = spec_parse_lit(b, i10, lit_route())->Some_0;
    let (source, i12) = spec_parse_jstr(b, i11)->Some_0;
    let i13 = spec_parse_lit(b, i12, lit_points())->Some_0;
    let (points, i14) = spec_parse_points(b, i13)->Some_0;
    let i15 = spec_parse_lit(b, i14, lit_payload_size())->Some_0;
    let (psize, i16) = spec_parse_dec(b, i15)->Some_0;
    let i17 = spec_parse_lit(b, i16, lit_atts())->Some_0;
    let (atts, i18) = spec_parse_atts(b, i17)->Some_0;
    let i19 = spec_parse_lit(b, i18, lit_end())->Some_0;
    lemma_parse_dec_sound(b, i7, tagv, i8);
    lemma_parse_lit_sound(b, i8, lit_corr(), i9);
    lemma_parse_corr_sound(b, i9, corr, i10);
    lemma_parse_lit_sound(b, i10, lit_route(), i11);
    lemma_parse_jstr_sound(b, i11, source, i12);
    lemma_parse_lit_sound(b, i12, lit_points(), i13);
    lemma_parse_points_sound(b, i13, points, i14);
    lemma_parse_lit_sound(b, i14, lit_payload_size(), i15);
    lemma_parse_dec_sound(b, i15, psize, i16);
    lemma_parse_lit_sound(b, i16, lit_atts(), i17);
    lemma_parse_atts_sound(b, i17, atts, i18);
    lemma_parse_lit_sound(b, i18, lit_end(), i19);
    let bl = b.len() as int;
    assert(i19 == bl);
    assert(spec_msg_kind_tag(m.kind) as u64 == tagv) by {
        crate::frame::lemma_msg_kind_tag_round(m.kind);
    }
    assert(meta_piece(m, 7) == dec_u64(spec_msg_kind_tag(m.kind) as u64) && meta_piece(m, 8)
        == lit_corr() && meta_piece(m, 9) == corr_json(m.correlation_id) && meta_piece(m, 10)
        == lit_route() && meta_piece(m, 11) == jstr(m.route.source) && meta_piece(m, 12)
        == lit_points() && meta_piece(m, 13) == points_json(m.route.points) && meta_piece(m, 14)
        == lit_payload_size() && meta_piece(m, 15) == dec_u64(m.payload_size) && meta_piece(m, 16)
        == lit_atts() && meta_piece(m, 17) == atts_json(m.attachments) && meta_piece(m, 18)
        == lit_end());
    assert(meta_suffix(m, 19) =~= Seq::<u8>::empty());
    assert(b.subrange(i19, bl) =~= meta_suffix(m, 19));
    lemma_join_subranges(b, i18, i19, bl);
    assert(b.subrange(i18, bl) == meta_suffix(m, 18));
    lemma_join_subranges(b, i17, i18, bl);
    assert(b.subrange(i17, bl) == meta_suffix(m, 17));
    lemma_join_subranges(b, i16, i17, bl);
    assert(b.subrange(i16, bl) == meta_suffix(m, 16));
    lemma_join_subranges(b, i15, i16, bl);
    assert(b.subrange(i15, bl) == meta_suffix(m, 15));
    lemma_join_subranges(b, i14, i15, bl);
    assert(b.subrange(i14, bl) == meta_suffix(m, 14));
    lemma_join_subranges(b, i13, i14, bl);
    assert(b.subrange(i13, bl) == meta_suffix(m, 13));
    lemma_join_subranges(b, i12, i13, bl);
    assert(b.subrange(i12, bl) == meta_suffix(m, 12));
    lemma_join_subranges(b, i11, i12, bl);
    assert(b.subrange(i11, bl) == meta_suffix(m, 11));
    lemma_join_subranges(b, i10, i11, bl);
    assert(b.subrange(i10, bl) == meta_suffix(m, 10));
    lemma_join_subranges(b, i9, i10, bl);
    assert(b.subrange(i9, bl) == meta_suffix(m, 9));
    lemma_join_subranges(b, i8, i9, bl);
    assert(b.subrange(i8, bl) == meta_suffix(m, 8));
    lemma_join_subranges(b, i7, i8, bl);
    assert(b.subrange(i7, bl) == meta_suffix(m, 7));
    lemma_parse_points_sound_wf(b, i13, points, i14);
    lemma_parse_atts_sound_wf(b, i17, atts, i18);
}

} // verus!
