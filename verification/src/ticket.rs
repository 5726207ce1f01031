use vstd::prelude::*;
use vstd::bytes::{lemma_auto_spec_u32_to_from_le_bytes, spec_u32_from_le_bytes,
    spec_u32_to_le_bytes, u32_from_le_bytes, u32_to_le_bytes};
use vstd::utf8::{decode_utf8, decode_utf8_encode_utf8, encode_utf8, encode_utf8_decode_utf8,
    encode_utf8_valid_utf8, valid_utf8};

use crate::b32::{ascii_lower, ascii_upper, b32_of, base32_decode, base32_encode, lower_of,
    upper_of};
use crate::identity::Identity;
use crate::text::bytes_to_string;
use crate::wire::{append_bytes, copy_range};
use crate::{IDENTITY_LEN, TOPIC_LEN};

verus! {

/// A bootstrap peer address: the peer's identity plus its reachability
/// hints, carried as plain text (a relay locator and direct socket
/// addresses). The transport interprets the hints; this crate only
/// serializes them.
#[derive(Debug)]
pub struct PeerAddr {
    pub id: Identity,
    pub relay: Option<String>,
    pub direct: Vec<String>,
}

/// Mathematical image of a peer address.
#[verifier::ext_equal]
pub struct PeerView {
    pub id: Seq<u8>,
    pub relay: Option<Seq<char>>,
    pub direct: Seq<Seq<char>>,
}

impl View for PeerAddr {
    type V = PeerView;

    open spec fn view(&self) -> PeerView {
        PeerView {
            id: self.id@,
            relay: match self.relay {
                Option::Some(r) => Option::Some(r@),
                Option::None => Option::None,
            },
            direct: self.direct.deep_view(),
        }
    }
}

/// A rendezvous ticket: the topic of a room and the peers through which a
/// newcomer can bootstrap into it. Immutable; exists to be serialized.
#[derive(Debug)]
pub struct Ticket {
    pub topic: Vec<u8>,
    pub nodes: Vec<PeerAddr>,
}

/// Mathematical image of a ticket.
#[verifier::ext_equal]
pub struct TicketView {
    pub topic: Seq<u8>,
    pub nodes: Seq<PeerView>,
}

impl View for Ticket {
    type V = TicketView;

    open spec fn view(&self) -> TicketView {
        TicketView { topic: self.topic@, nodes: Seq::new(self.nodes@.len(), |i: int| self.nodes@[i]@) }
    }
}

/// A peer is well formed when its identity is full length and every text
/// field fits a 32-bit length prefix.
pub open spec fn peer_wf(p: PeerView) -> bool {
    &&& p.id.len() == IDENTITY_LEN
    &&& match p.relay {
        Option::Some(r) => encode_utf8(r).len() <= u32::MAX,
        Option::None => true,
    }
    &&& p.direct.len() <= u32::MAX
    &&& forall|i: int| 0 <= i < p.direct.len() ==> (#[trigger] encode_utf8(p.direct[i])).len()
        <= u32::MAX
}

/// A ticket is well formed when its topic is full length, its peer count
/// fits a 32-bit prefix, and every peer is well formed.
pub open spec fn ticket_wf(t: TicketView) -> bool {
    &&& t.topic.len() == TOPIC_LEN
    &&& t.nodes.len() <= u32::MAX
    &&& forall|i: int| 0 <= i < t.nodes.len() ==> peer_wf(#[trigger] t.nodes[i])
}

/// A length-prefixed UTF-8 text field.
pub open spec fn str_block(s: Seq<char>) -> Seq<u8> {
    spec_u32_to_le_bytes(encode_utf8(s).len() as u32) + encode_utf8(s)
}

/// The concatenation of the text fields of a list, each length-prefixed.
pub open spec fn strs_bytes(ss: Seq<Seq<char>>) -> Seq<u8>
    decreases ss.len(),
{
    if ss.len() == 0 {
        Seq::<u8>::empty()
    } else {
        str_block(ss[0]) + strs_bytes(ss.drop_first())
    }
}

/// An optional relay locator: a presence byte, then the text if present.
pub open spec fn relay_bytes(r: Option<Seq<char>>) -> Seq<u8> {
    match r {
        Option::None => seq![0u8],
        Option::Some(s) => seq![1u8] + str_block(s),
    }
}

/// The canonical byte form of one peer: identity, relay, then the counted
/// direct addresses.
pub open spec fn peer_bytes(p: PeerView) -> Seq<u8> {
    p.id + relay_bytes(p.relay) + spec_u32_to_le_bytes(p.direct.len() as u32) + strs_bytes(
        p.direct,
    )
}

/// The concatenation of the byte forms of a list of peers.
pub open spec fn peers_bytes(ps: Seq<PeerView>) -> Seq<u8>
    decreases ps.len(),
{
    if ps.len() == 0 {
        Seq::<u8>::empty()
    } else {
        peer_bytes(ps[0]) + peers_bytes(ps.drop_first())
    }
}

/// The canonical byte form of a ticket: topic, peer count, peers.
pub open spec fn ticket_bytes(t: TicketView) -> Seq<u8> {
    t.topic + spec_u32_to_le_bytes(t.nodes.len() as u32) + peers_bytes(t.nodes)
}

proof fn lemma_strs_bytes_snoc(ss: Seq<Seq<char>>, s: Seq<char>)
    ensures
        strs_bytes(ss.push(s)) == strs_bytes(ss) + str_block(s),
    decreases ss.len(),
{
    if ss.len() == 0 {
        assert(ss.push(s)[0] == s);
        assert(ss.push(s).drop_first() =~= Seq::<Seq<char>>::empty());
        assert(strs_bytes(ss.push(s).drop_first()) == Seq::<u8>::empty());
        assert(strs_bytes(ss.push(s)) == str_block(s) + strs_bytes(ss.push(s).drop_first()));
        assert(strs_bytes(ss.push(s)) =~= strs_bytes(ss) + str_block(s));
    } else {
        assert(ss.push(s)[0] == ss[0]);
        assert(ss.push(s).drop_first() =~= ss.drop_first().push(s));
        lemma_strs_bytes_snoc(ss.drop_first(), s);
        assert(strs_bytes(ss.push(s)) == str_block(ss[0]) + strs_bytes(ss.drop_first().push(s)));
        assert(strs_bytes(ss.push(s)) == str_block(ss[0]) + (strs_bytes(ss.drop_first())
            + str_block(s)));
        assert(str_block(ss[0]) + (strs_bytes(ss.drop_first()) + str_block(s)) =~= (str_block(
            ss[0],
        ) + strs_bytes(ss.drop_first())) + str_block(s));
        assert(strs_bytes(ss.push(s)) =~= strs_bytes(ss) + str_block(s));
    }
}

proof fn lemma_peers_bytes_snoc(ps: Seq<PeerView>, p: PeerView)
    ensures
        peers_bytes(ps.push(p)) == peers_bytes(ps) + peer_bytes(p),
    decreases ps.len(),
{
    if ps.len() == 0 {
        assert(ps.push(p)[0] == p);
        assert(ps.push(p).drop_first() =~= Seq::<PeerView>::empty());
        assert(peers_bytes(ps.push(p).drop_first()) == Seq::<u8>::empty());
        assert(peers_bytes(ps.push(p)) == peer_bytes(p) + peers_bytes(ps.push(p).drop_first()));
        assert(peers_bytes(ps.push(p)) =~= peers_bytes(ps) + peer_bytes(p));
    } else {
        assert(ps.push(p)[0] == ps[0]);
        assert(ps.push(p).drop_first() =~= ps.drop_first().push(p));
        lemma_peers_bytes_snoc(ps.drop_first(), p);
        assert(peers_bytes(ps.push(p)) == peer_bytes(ps[0]) + peers_bytes(ps.drop_first().push(p)));
        assert(peers_bytes(ps.push(p)) == peer_bytes(ps[0]) + (peers_bytes(ps.drop_first())
            + peer_bytes(p)));
        assert(peer_bytes(ps[0]) + (peers_bytes(ps.drop_first()) + peer_bytes(p)) =~= (peer_bytes(
            ps[0],
        ) + peers_bytes(ps.drop_first())) + peer_bytes(p));
        assert(peers_bytes(ps.push(p)) =~= peers_bytes(ps) + peer_bytes(p));
    }
}

/// Appends the length-prefixed UTF-8 bytes of `s` to `out`.
fn append_str_block(out: &mut Vec<u8>, s: &String)
    requires
        encode_utf8(s@).len() <= u32::MAX,
    ensures
        final(out)@ == old(out)@ + str_block(s@),
{
    let bytes = s.as_str().as_bytes();
    let len_bytes = u32_to_le_bytes(bytes.len() as u32);
    append_bytes(out, len_bytes.as_slice());
    append_bytes(out, bytes);
    proof {
        assert(final(out)@ =~= old(out)@ + str_block(s@));
    }
}

/// Appends the canonical byte form of one peer to `out`.
fn append_peer(out: &mut Vec<u8>, p: &PeerAddr)
    requires
        peer_wf(p@),
    ensures
        final(out)@ == old(out)@ + peer_bytes(p@),
{
    append_bytes(out, p.id.bytes.as_slice());
    match &p.relay {
        Option::None => {
            out.push(0u8);
            proof {
                assert(out@ =~= old(out)@ + p@.id + relay_bytes(p@.relay));
            }
        },
        Option::Some(r) => {
            out.push(1u8);
            append_str_block(out, r);
            proof {
                assert(out@ =~= old(out)@ + p@.id + relay_bytes(p@.relay));
            }
        },
    }
    let len_bytes = u32_to_le_bytes(p.direct.len() as u32);
    append_bytes(out, len_bytes.as_slice());
    let ghost mid = out@;
    let mut i: usize = 0;
    while i < p.direct.len()
        invariant
            peer_wf(p@),
            i <= p.direct@.len(),
            out@ == mid + strs_bytes(p@.direct.subrange(0, i as int)),
        decreases p.direct@.len() - i,
    {
        proof {
            assert(p@.direct[i as int] == p.direct@[i as int]@);
        }
        append_str_block(out, &p.direct[i]);
        proof {
            assert(p@.direct.subrange(0, i + 1) =~= p@.direct.subrange(0, i as int).push(
                p@.direct[i as int],
            ));
            lemma_strs_bytes_snoc(p@.direct.subrange(0, i as int), p@.direct[i as int]);
            assert(out@ =~= mid + strs_bytes(p@.direct.subrange(0, i + 1)));
        }
        i += 1;
    }
    proof {
        assert(p@.direct.subrange(0, p.direct@.len() as int) =~= p@.direct);
        assert(out@ =~= old(out)@ + peer_bytes(p@));
    }
}

/// Parses one length-prefixed UTF-8 text field at `pos`.
pub open spec fn parse_block(bytes: Seq<u8>, pos: int) -> Option<(Seq<char>, int)> {
    if !(0 <= pos && pos + 4 <= bytes.len()) {
        None
    } else {
        let n = spec_u32_from_le_bytes(bytes.subrange(pos, pos + 4)) as int;
        if pos + 4 + n > bytes.len() {
            None
        } else {
            let payload = bytes.subrange(pos + 4, pos + 4 + n);
            if valid_utf8(payload) {
                Some((decode_utf8(payload), pos + 4 + n))
            } else {
                None
            }
        }
    }
}

/// Parses the optional relay field at `pos`.
pub open spec fn parse_relay(bytes: Seq<u8>, pos: int) -> Option<(Option<Seq<char>>, int)> {
    if !(0 <= pos && pos + 1 <= bytes.len()) {
        None
    } else if bytes[pos] == 0 {
        Some((Option::None, pos + 1))
    } else if bytes[pos] == 1 {
        match parse_block(bytes, pos + 1) {
            Option::Some(r) => Some((Option::Some(r.0), r.1)),
            Option::None => None,
        }
    } else {
        None
    }
}

/// Parses `count` text fields in sequence starting at `pos`.
pub open spec fn parse_strs(bytes: Seq<u8>, pos: int, count: int) -> Option<(Seq<Seq<char>>, int)>
    decreases count,
{
    if count <= 0 {
        Some((Seq::<Seq<char>>::empty(), pos))
    } else {
        match parse_block(bytes, pos) {
            Option::Some(r) => match parse_strs(bytes, r.1, count - 1) {
                Option::Some(rest) => Some((seq![r.0] + rest.0, rest.1)),
                Option::None => None,
            },
            Option::None => None,
        }
    }
}

/// Parses one peer at `pos`.
pub open spec fn parse_peer(bytes: Seq<u8>, pos: int) -> Option<(PeerView, int)> {
    if !(0 <= pos && pos + IDENTITY_LEN <= bytes.len()) {
        None
    } else {
        let id = bytes.subrange(pos, pos + IDENTITY_LEN);
        match parse_relay(bytes, pos + IDENTITY_LEN) {
            Option::Some(rl) => {
                let e = rl.1;
                if e + 4 <= bytes.len() {
                    let cnt = spec_u32_from_le_bytes(bytes.subrange(e, e + 4)) as int;
                    match parse_strs(bytes, e + 4, cnt) {
                        Option::Some(ds) => Some(
                            (PeerView { id, relay: rl.0, direct: ds.0 }, ds.1),
                        ),
                        Option::None => None,
                    }
                } else {
                    None
                }
            },
            Option::None => None,
        }
    }
}

/// Parses `count` peers in sequence starting at `pos`.
pub open spec fn parse_peers(bytes: Seq<u8>, pos: int, count: int) -> Option<(Seq<PeerView>, int)>
    decreases count,
{
    if count <= 0 {
        Some((Seq::<PeerView>::empty(), pos))
    } else {
        match parse_peer(bytes, pos) {
            Option::Some(r) => match parse_peers(bytes, r.1, count - 1) {
                Option::Some(rest) => Some((seq![r.0] + rest.0, rest.1)),
                Option::None => None,
            },
            Option::None => None,
        }
    }
}

/// What a byte sequence deserializes to, if anything: the inverse of
/// `ticket_bytes`. The whole input must be consumed; a ticket never
/// partially parses.
pub open spec fn ticket_from_bytes_spec(bytes: Seq<u8>) -> Option<TicketView> {
    if bytes.len() < TOPIC_LEN + 4 {
        None
    } else {
        let topic = bytes.subrange(0, TOPIC_LEN as int);
        let cnt = spec_u32_from_le_bytes(
            bytes.subrange(TOPIC_LEN as int, TOPIC_LEN + 4),
        ) as int;
        match parse_peers(bytes, TOPIC_LEN + 4, cnt) {
            Option::Some(r) => if r.1 == bytes.len() {
                Some(TicketView { topic, nodes: r.0 })
            } else {
                None
            },
            Option::None => None,
        }
    }
}

proof fn lemma_subrange_split(bytes: Seq<u8>, pos: int, a: Seq<u8>, b: Seq<u8>)
    requires
        0 <= pos,
        pos + a.len() + b.len() <= bytes.len(),
        bytes.subrange(pos, pos + a.len() + b.len()) == a + b,
    ensures
        bytes.subrange(pos, pos + a.len() as int) == a,
        bytes.subrange(pos + a.len() as int, pos + a.len() + b.len()) == b,
{
    let l = a.len() as int;
    let m = a.len() + b.len();
    assert forall|k: int| 0 <= k < l implies bytes.subrange(pos, pos + l)[k] == a[k] by {
        assert(bytes.subrange(pos, pos + m)[k] == (a + b)[k]);
    }
    assert(bytes.subrange(pos, pos + l) =~= a);
    assert forall|k: int| 0 <= k < b.len() implies bytes.subrange(pos + l, pos + m)[k]
        == b[k] by {
        assert(bytes.subrange(pos, pos + m)[l + k] == (a + b)[l + k]);
    }
    assert(bytes.subrange(pos + l, pos + m) =~= b);
}

proof fn lemma_parse_block_exact(bytes: Seq<u8>, pos: int, s: Seq<char>)
    requires
        0 <= pos,
        pos + str_block(s).len() <= bytes.len(),
        encode_utf8(s).len() <= u32::MAX,
        bytes.subrange(pos, pos + str_block(s).len() as int) == str_block(s),
    ensures
        parse_block(bytes, pos) == Some((s, pos + str_block(s).len() as int)),
{
    lemma_auto_spec_u32_to_from_le_bytes();
    broadcast use encode_utf8_valid_utf8, encode_utf8_decode_utf8;

    let n = encode_utf8(s).len() as int;
    assert(str_block(s).len() == 4 + n);
    lemma_subrange_split(bytes, pos, spec_u32_to_le_bytes(n as u32), encode_utf8(s));
    assert(spec_u32_from_le_bytes(bytes.subrange(pos, pos + 4)) == n as u32);
    assert(decode_utf8(encode_utf8(s)) == s);
}

proof fn lemma_parse_relay_exact(bytes: Seq<u8>, pos: int, r: Option<Seq<char>>)
    requires
        0 <= pos,
        pos + relay_bytes(r).len() <= bytes.len(),
        match r {
            Option::Some(s) => encode_utf8(s).len() <= u32::MAX,
            Option::None => true,
        },
        bytes.subrange(pos, pos + relay_bytes(r).len() as int) == relay_bytes(r),
    ensures
        parse_relay(bytes, pos) == Some((r, pos + relay_bytes(r).len() as int)),
{
    match r {
        Option::None => {
            assert(bytes[pos] == relay_bytes(r)[0]);
        },
        Option::Some(s) => {
            assert(bytes[pos] == relay_bytes(r)[0]);
            lemma_subrange_split(bytes, pos, seq![1u8], str_block(s));
            lemma_parse_block_exact(bytes, pos + 1, s);
        },
    }
}

proof fn lemma_parse_strs_exact(bytes: Seq<u8>, pos: int, ss: Seq<Seq<char>>)
    requires
        0 <= pos,
        pos + strs_bytes(ss).len() <= bytes.len(),
        forall|i: int| 0 <= i < ss.len() ==> (#[trigger] encode_utf8(ss[i])).len() <= u32::MAX,
        bytes.subrange(pos, pos + strs_bytes(ss).len() as int) == strs_bytes(ss),
    ensures
        parse_strs(bytes, pos, ss.len() as int) == Some(
            (ss, pos + strs_bytes(ss).len() as int),
        ),
    decreases ss.len(),
{
    if ss.len() == 0 {
        assert(ss =~= Seq::<Seq<char>>::empty());
    } else {
        let b0 = str_block(ss[0]);
        assert(strs_bytes(ss) == b0 + strs_bytes(ss.drop_first()));
        lemma_subrange_split(bytes, pos, b0, strs_bytes(ss.drop_first()));
        lemma_parse_block_exact(bytes, pos, ss[0]);
        let mid = pos + b0.len() as int;
        assert(forall|i: int|
            0 <= i < ss.drop_first().len() ==> (#[trigger] encode_utf8(
                ss.drop_first()[i],
            )).len() <= u32::MAX) by {
            assert(forall|i: int|
                0 <= i < ss.drop_first().len() ==> ss.drop_first()[i] == ss[i + 1]);
        }
        lemma_parse_strs_exact(bytes, mid, ss.drop_first());
        assert(seq![ss[0]] + ss.drop_first() =~= ss);
    }
}

proof fn lemma_parse_peer_exact(bytes: Seq<u8>, pos: int, p: PeerView)
    requires
        0 <= pos,
        peer_wf(p),
        pos + peer_bytes(p).len() <= bytes.len(),
        bytes.subrange(pos, pos + peer_bytes(p).len() as int) == peer_bytes(p),
    ensures
        parse_peer(bytes, pos) == Some((p, pos + peer_bytes(p).len() as int)),
{
    lemma_auto_spec_u32_to_from_le_bytes();
    let idlen = IDENTITY_LEN as int;
    let rb = relay_bytes(p.relay);
    let cb = spec_u32_to_le_bytes(p.direct.len() as u32);
    let sb = strs_bytes(p.direct);
    assert(peer_bytes(p) =~= p.id + (rb + (cb + sb)));
    lemma_subrange_split(bytes, pos, p.id, rb + (cb + sb));
    let e0 = pos + idlen;
    lemma_subrange_split(bytes, e0, rb, cb + sb);
    lemma_parse_relay_exact(bytes, e0, p.relay);
    let e1 = e0 + rb.len() as int;
    lemma_subrange_split(bytes, e1, cb, sb);
    assert(spec_u32_from_le_bytes(bytes.subrange(e1, e1 + 4)) == p.direct.len() as u32);
    let e2 = e1 + 4;
    lemma_parse_strs_exact(bytes, e2, p.direct);
    assert(parse_peer(bytes, pos) == Some((p, pos + peer_bytes(p).len() as int)));
}

proof fn lemma_parse_peers_exact(bytes: Seq<u8>, pos: int, ps: Seq<PeerView>)
    requires
        0 <= pos,
        pos + peers_bytes(ps).len() <= bytes.len(),
        forall|i: int| 0 <= i < ps.len() ==> peer_wf(#[trigger] ps[i]),
        bytes.subrange(pos, pos + peers_bytes(ps).len() as int) == peers_bytes(ps),
    ensures
        parse_peers(bytes, pos, ps.len() as int) == Some(
            (ps, pos + peers_bytes(ps).len() as int),
        ),
    decreases ps.len(),
{
    if ps.len() == 0 {
        assert(ps =~= Seq::<PeerView>::empty());
    } else {
        let b0 = peer_bytes(ps[0]);
        assert(peers_bytes(ps) == b0 + peers_bytes(ps.drop_first()));
        lemma_subrange_split(bytes, pos, b0, peers_bytes(ps.drop_first()));
        lemma_parse_peer_exact(bytes, pos, ps[0]);
        let mid = pos + b0.len() as int;
        assert(forall|i: int|
            0 <= i < ps.drop_first().len() ==> peer_wf(#[trigger] ps.drop_first()[i])) by {
            assert(forall|i: int|
                0 <= i < ps.drop_first().len() ==> ps.drop_first()[i] == ps[i + 1]);
        }
        lemma_parse_peers_exact(bytes, mid, ps.drop_first());
        assert(seq![ps[0]] + ps.drop_first() =~= ps);
    }
}

/// Deserialization inverts serialization: every well-formed ticket is
/// recovered exactly from its canonical byte form.
pub proof fn lemma_ticket_bytes_round_trip(t: TicketView)
    requires
        ticket_wf(t),
    ensures
        ticket_from_bytes_spec(ticket_bytes(t)) == Some(t),
{
    lemma_auto_spec_u32_to_from_le_bytes();
    let bytes = ticket_bytes(t);
    let cb = spec_u32_to_le_bytes(t.nodes.len() as u32);
    assert(bytes.len() == TOPIC_LEN + 4 + peers_bytes(t.nodes).len());
    assert(bytes.subrange(0, TOPIC_LEN as int) =~= t.topic);
    assert(bytes.subrange(TOPIC_LEN as int, TOPIC_LEN + 4) =~= cb);
    assert(spec_u32_from_le_bytes(bytes.subrange(TOPIC_LEN as int, TOPIC_LEN + 4))
        == t.nodes.len() as u32);
    assert(bytes.subrange(TOPIC_LEN + 4, TOPIC_LEN + 4 + peers_bytes(t.nodes).len() as int)
        =~= peers_bytes(t.nodes));
    lemma_parse_peers_exact(bytes, TOPIC_LEN + 4, t.nodes);
    assert(ticket_from_bytes_spec(bytes) == Some(TicketView { topic: t.topic, nodes: t.nodes }));
    assert(TicketView { topic: t.topic, nodes: t.nodes } =~= t);
}

proof fn lemma_parse_block_sound(bytes: Seq<u8>, pos: int)
    requires
        parse_block(bytes, pos) is Some,
    ensures
        ({
            let r = parse_block(bytes, pos)->Some_0;
            &&& pos + 4 <= r.1 <= bytes.len()
            &&& encode_utf8(r.0).len() <= u32::MAX
            &&& bytes.subrange(pos, r.1) == str_block(r.0)
        }),
{
    lemma_auto_spec_u32_to_from_le_bytes();
    broadcast use decode_utf8_encode_utf8;

    let n = spec_u32_from_le_bytes(bytes.subrange(pos, pos + 4)) as int;
    let payload = bytes.subrange(pos + 4, pos + 4 + n);
    let s = decode_utf8(payload);
    assert(encode_utf8(s) == payload);
    assert(bytes.subrange(pos, pos + 4 + n) =~= bytes.subrange(pos, pos + 4) + payload);
    assert(spec_u32_to_le_bytes(encode_utf8(s).len() as u32) =~= bytes.subrange(pos, pos + 4));
}

proof fn lemma_parse_relay_sound(bytes: Seq<u8>, pos: int)
    requires
        parse_relay(bytes, pos) is Some,
    ensures
        ({
            let r = parse_relay(bytes, pos)->Some_0;
            &&& pos + 1 <= r.1 <= bytes.len()
            &&& match r.0 {
                Option::Some(s) => encode_utf8(s).len() <= u32::MAX,
                Option::None => true,
            }
            &&& bytes.subrange(pos, r.1) == relay_bytes(r.0)
        }),
{
    if bytes[pos] == 0 {
        assert(bytes.subrange(pos, pos + 1) =~= relay_bytes(Option::None));
    } else {
        lemma_parse_block_sound(bytes, pos + 1);
        let b = parse_block(bytes, pos + 1)->Some_0;
        assert(bytes.subrange(pos, b.1) =~= seq![1u8] + bytes.subrange(pos + 1, b.1));
    }
}

proof fn lemma_parse_strs_sound(bytes: Seq<u8>, pos: int, count: int)
    requires
        0 <= pos <= bytes.len(),
        parse_strs(bytes, pos, count) is Some,
    ensures
        ({
            let r = parse_strs(bytes, pos, count)->Some_0;
            &&& pos <= r.1 <= bytes.len()
            &&& r.0.len() == (if count <= 0 {
                0
            } else {
                count
            })
            &&& (forall|i: int|
                0 <= i < r.0.len() ==> (#[trigger] encode_utf8(r.0[i])).len() <= u32::MAX)
            &&& bytes.subrange(pos, r.1) == strs_bytes(r.0)
        }),
    decreases count,
{
    if count <= 0 {
        assert(bytes.subrange(pos, pos) =~= strs_bytes(Seq::<Seq<char>>::empty()));
    } else {
        lemma_parse_block_sound(bytes, pos);
        let b = parse_block(bytes, pos)->Some_0;
        lemma_parse_strs_sound(bytes, b.1, count - 1);
        let rest = parse_strs(bytes, b.1, count - 1)->Some_0;
        let whole = seq![b.0] + rest.0;
        assert(whole[0] == b.0);
        assert(whole.drop_first() =~= rest.0);
        assert(strs_bytes(whole) == str_block(b.0) + strs_bytes(rest.0));
        assert(bytes.subrange(pos, rest.1) =~= bytes.subrange(pos, b.1) + bytes.subrange(
            b.1,
            rest.1,
        ));
    }
}

proof fn lemma_parse_peer_sound(bytes: Seq<u8>, pos: int)
    requires
        0 <= pos <= bytes.len(),
        parse_peer(bytes, pos) is Some,
    ensures
        ({
            let r = parse_peer(bytes, pos)->Some_0;
            &&& pos + IDENTITY_LEN <= r.1 <= bytes.len()
            &&& peer_wf(r.0)
            &&& bytes.subrange(pos, r.1) == peer_bytes(r.0)
        }),
{
    lemma_auto_spec_u32_to_from_le_bytes();
    let idlen = IDENTITY_LEN as int;
    let e0 = pos + idlen;
    lemma_parse_relay_sound(bytes, e0);
    let rl = parse_relay(bytes, e0)->Some_0;
    let e1 = rl.1;
    let cnt = spec_u32_from_le_bytes(bytes.subrange(e1, e1 + 4)) as int;
    lemma_parse_strs_sound(bytes, e1 + 4, cnt);
    let ds = parse_strs(bytes, e1 + 4, cnt)->Some_0;
    let p = parse_peer(bytes, pos)->Some_0.0;
    assert(p.direct.len() == ds.0.len());
    assert(p.direct.len() <= u32::MAX);
    assert(spec_u32_to_le_bytes(p.direct.len() as u32) =~= bytes.subrange(e1, e1 + 4));
    assert(bytes.subrange(pos, ds.1) =~= bytes.subrange(pos, e0) + bytes.subrange(e0, e1)
        + bytes.subrange(e1, e1 + 4) + bytes.subrange(e1 + 4, ds.1));
    assert(bytes.subrange(pos, ds.1) =~= peer_bytes(p));
}

proof fn lemma_parse_peers_sound(bytes: Seq<u8>, pos: int, count: int)
    requires
        0 <= pos <= bytes.len(),
        parse_peers(bytes, pos, count) is Some,
    ensures
        ({
            let r = parse_peers(bytes, pos, count)->Some_0;
            &&& pos <= r.1 <= bytes.len()
            &&& r.0.len() == (if count <= 0 {
                0
            } else {
                count
            })
            &&& (forall|i: int| 0 <= i < r.0.len() ==> peer_wf(#[trigger] r.0[i]))
            &&& bytes.subrange(pos, r.1) == peers_bytes(r.0)
        }),
    decreases count,
{
    if count <= 0 {
        assert(bytes.subrange(pos, pos) =~= peers_bytes(Seq::<PeerView>::empty()));
    } else {
        lemma_parse_peer_sound(bytes, pos);
        let b = parse_peer(bytes, pos)->Some_0;
        lemma_parse_peers_sound(bytes, b.1, count - 1);
        let rest = parse_peers(bytes, b.1, count - 1)->Some_0;
        let whole = seq![b.0] + rest.0;
        assert(whole[0] == b.0);
        assert(whole.drop_first() =~= rest.0);
        assert(peers_bytes(whole) == peer_bytes(b.0) + peers_bytes(rest.0));
        assert(bytes.subrange(pos, rest.1) =~= bytes.subrange(pos, b.1) + bytes.subrange(
            b.1,
            rest.1,
        ));
    }
}

/// Deserialization is sound: whatever parses was the canonical byte form
/// of the parsed ticket, so a decoded ticket always re-encodes to the
/// bytes it came from.
pub proof fn lemma_ticket_from_bytes_sound(bytes: Seq<u8>)
    requires
        ticket_from_bytes_spec(bytes) is Some,
    ensures
        ({
            let t = ticket_from_bytes_spec(bytes)->Some_0;
            &&& ticket_wf(t)
            &&& ticket_bytes(t) == bytes
        }),
{
    lemma_auto_spec_u32_to_from_le_bytes();
    let cnt = spec_u32_from_le_bytes(bytes.subrange(TOPIC_LEN as int, TOPIC_LEN + 4)) as int;
    lemma_parse_peers_sound(bytes, TOPIC_LEN + 4, cnt);
    let r = parse_peers(bytes, TOPIC_LEN + 4, cnt)->Some_0;
    let t = ticket_from_bytes_spec(bytes)->Some_0;
    assert(t.nodes.len() == cnt);
    assert(spec_u32_to_le_bytes(t.nodes.len() as u32) =~= bytes.subrange(
        TOPIC_LEN as int,
        TOPIC_LEN + 4,
    ));
    assert(ticket_bytes(t) =~= bytes.subrange(0, TOPIC_LEN as int) + bytes.subrange(
        TOPIC_LEN as int,
        TOPIC_LEN + 4,
    ) + bytes.subrange(TOPIC_LEN + 4, bytes.len() as int));
    assert(bytes.subrange(0, TOPIC_LEN as int) + bytes.subrange(TOPIC_LEN as int, TOPIC_LEN + 4)
        + bytes.subrange(TOPIC_LEN + 4, bytes.len() as int) =~= bytes);
}

/// Reads one length-prefixed UTF-8 text field.
fn read_block(bytes: &[u8], pos: usize) -> (r: Option<(String, usize)>)
    requires
        pos <= bytes@.len(),
    ensures
        ({
            let sp = parse_block(bytes@, pos as int);
            match r {
                Option::Some(p) => sp is Some && p.0@ == sp->Some_0.0 && p.1 as int
                    == sp->Some_0.1 && pos <= p.1 <= bytes@.len(),
                Option::None => sp is None,
            }
        }),
{
    if bytes.len() - pos < 4 {
        return None;
    }
    let n32 = u32_from_le_bytes(vstd::slice::slice_subrange(bytes, pos, pos + 4));
    let n = n32 as usize;
    if bytes.len() - (pos + 4) < n {
        return None;
    }
    let payload = copy_range(bytes, pos + 4, pos + 4 + n);
    match bytes_to_string(payload) {
        Option::Some(s) => Some((s, pos + 4 + n)),
        Option::None => None,
    }
}

/// Reads the optional relay field.
fn read_relay(bytes: &[u8], pos: usize) -> (r: Option<(Option<String>, usize)>)
    requires
        pos <= bytes@.len(),
    ensures
        ({
            let sp = parse_relay(bytes@, pos as int);
            match r {
                Option::Some(p) => sp is Some && p.1 as int == sp->Some_0.1 && pos <= p.1
                    <= bytes@.len() && (match p.0 {
                    Option::Some(s) => sp->Some_0.0 is Some && s@ == sp->Some_0.0->Some_0,
                    Option::None => sp->Some_0.0 is None,
                }),
                Option::None => sp is None,
            }
        }),
{
    if bytes.len() - pos < 1 {
        return None;
    }
    let flag = *vstd::slice::slice_index_get(bytes, pos);
    if flag == 0 {
        Some((None, pos + 1))
    } else if flag == 1 {
        match read_block(bytes, pos + 1) {
            Option::Some(p) => Some((Some(p.0), p.1)),
            Option::None => None,
        }
    } else {
        None
    }
}

/// Reads `count` text fields in sequence.
fn read_strs(bytes: &[u8], pos: usize, count: u32) -> (r: Option<(Vec<String>, usize)>)
    requires
        pos <= bytes@.len(),
    ensures
        ({
            let sp = parse_strs(bytes@, pos as int, count as int);
            match r {
                Option::Some(p) => sp is Some && p.0.deep_view() == sp->Some_0.0 && p.1 as int
                    == sp->Some_0.1 && pos <= p.1 <= bytes@.len(),
                Option::None => sp is None,
            }
        }),
    decreases count,
{
    if count == 0 {
        let v: Vec<String> = Vec::new();
        proof {
            assert(v.deep_view() =~= Seq::<Seq<char>>::empty());
        }
        Some((v, pos))
    } else {
        match read_block(bytes, pos) {
            Option::Some(b) => {
                let (s, e) = b;
                match read_strs(bytes, e, count - 1) {
                    Option::Some(rest) => {
                        let (mut ss, e2) = rest;
                        let ghost tail = ss.deep_view();
                        ss.insert(0, s);
                        proof {
                            assert(ss.deep_view() =~= seq![s@] + tail);
                        }
                        Some((ss, e2))
                    },
                    Option::None => None,
                }
            },
            Option::None => None,
        }
    }
}

/// Reads one peer.
fn read_peer(bytes: &[u8], pos: usize) -> (r: Option<(PeerAddr, usize)>)
    requires
        pos <= bytes@.len(),
    ensures
        ({
            let sp = parse_peer(bytes@, pos as int);
            match r {
                Option::Some(p) => sp is Some && p.0@ == sp->Some_0.0 && p.1 as int
                    == sp->Some_0.1 && pos <= p.1 <= bytes@.len(),
                Option::None => sp is None,
            }
        }),
{
    if bytes.len() - pos < IDENTITY_LEN {
        return None;
    }
    let id = Identity { bytes: copy_range(bytes, pos, pos + IDENTITY_LEN) };
    match read_relay(bytes, pos + IDENTITY_LEN) {
        Option::Some(rl) => {
            let (relay, e) = rl;
            if bytes.len() - e < 4 {
                return None;
            }
            let cnt = u32_from_le_bytes(vstd::slice::slice_subrange(bytes, e, e + 4));
            match read_strs(bytes, e + 4, cnt) {
                Option::Some(ds) => {
                    let (direct, e2) = ds;
                    let p = PeerAddr { id, relay, direct };
                    proof {
                        assert(p@ =~= parse_peer(bytes@, pos as int)->Some_0.0);
                    }
                    Some((p, e2))
                },
                Option::None => None,
            }
        },
        Option::None => None,
    }
}

/// The mathematical images of a list of peer addresses.
pub open spec fn addrs_view(ns: Seq<PeerAddr>) -> Seq<PeerView> {
    Seq::new(ns.len(), |i: int| ns[i]@)
}

/// Reads `count` peers in sequence.
fn read_peers(bytes: &[u8], pos: usize, count: u32) -> (r: Option<(Vec<PeerAddr>, usize)>)
    requires
        pos <= bytes@.len(),
    ensures
        ({
            let sp = parse_peers(bytes@, pos as int, count as int);
            match r {
                Option::Some(p) => sp is Some && addrs_view(p.0@) == sp->Some_0.0 && p.1 as int
                    == sp->Some_0.1 && pos <= p.1 <= bytes@.len(),
                Option::None => sp is None,
            }
        }),
    decreases count,
{
    if count == 0 {
        let v: Vec<PeerAddr> = Vec::new();
        proof {
            assert(addrs_view(v@) =~= Seq::<PeerView>::empty());
        }
        Some((v, pos))
    } else {
        match read_peer(bytes, pos) {
            Option::Some(b) => {
                let (p, e) = b;
                match read_peers(bytes, e, count - 1) {
                    Option::Some(rest) => {
                        let (mut ps, e2) = rest;
                        let ghost tail = addrs_view(ps@);
                        let ghost pv = p@;
                        ps.insert(0, p);
                        proof {
                            assert(addrs_view(ps@) =~= seq![pv] + tail);
                        }
                        Some((ps, e2))
                    },
                    Option::None => None,
                }
            },
            Option::None => None,
        }
    }
}

/// The error reported for a token that does not decode to a ticket.
/// Decoding never partially succeeds.
#[derive(Debug, PartialEq, Eq, Structural)]
pub enum DecodeError {
    /// The token is not well-formed base-32 text.
    Encoding,
    /// The token's bytes are not a canonical ticket serialization.
    Malformed,
}

/// The shareable text token of a ticket: its canonical bytes in unpadded
/// base 32, lower-cased for display.
pub open spec fn token_of(t: TicketView) -> Seq<char> {
    lower_of(b32_of(ticket_bytes(t)))
}

impl Ticket {
    /// A well-formed ticket, in the executable sense.
    pub open spec fn wf(&self) -> bool {
        ticket_wf(self@)
    }

    /// Serializes the ticket to its canonical byte form. Deterministic:
    /// equal tickets give equal bytes.
    pub fn to_bytes(&self) -> (r: Vec<u8>)
        requires
            self.wf(),
        ensures
            r@ == ticket_bytes(self@),
    {
        let mut out: Vec<u8> = Vec::new();
        append_bytes(&mut out, self.topic.as_slice());
        let len_bytes = u32_to_le_bytes(self.nodes.len() as u32);
        append_bytes(&mut out, len_bytes.as_slice());
        let ghost mid = out@;
        let mut i: usize = 0;
        while i < self.nodes.len()
            invariant
                self.wf(),
                i <= self.nodes@.len(),
                mid == self@.topic + spec_u32_to_le_bytes(self@.nodes.len() as u32),
                out@ == mid + peers_bytes(self@.nodes.subrange(0, i as int)),
        decreases self.nodes@.len() - i,
        {
            proof {
                assert(self@.nodes[i as int] == self.nodes@[i as int]@);
                assert(peer_wf(self@.nodes[i as int]));
            }
            append_peer(&mut out, &self.nodes[i]);
            proof {
                assert(self@.nodes.subrange(0, i + 1) =~= self@.nodes.subrange(0, i as int).push(
                    self@.nodes[i as int],
                ));
                lemma_peers_bytes_snoc(self@.nodes.subrange(0, i as int), self@.nodes[i as int]);
                assert(out@ =~= mid + peers_bytes(self@.nodes.subrange(0, i + 1)));
            }
            i += 1;
        }
        proof {
            assert(self@.nodes.subrange(0, self.nodes@.len() as int) =~= self@.nodes);
            assert(out@ =~= ticket_bytes(self@));
        }
        out
    }

    /// Deserializes a ticket from its canonical byte form. All fields
    /// parse, with nothing left over, or nothing is returned.
    pub fn from_bytes(bytes: &[u8]) -> (r: Option<Ticket>)
        ensures
            match r {
                Option::Some(tk) => ticket_from_bytes_spec(bytes@) == Some(tk@) && tk.wf(),
                Option::None => ticket_from_bytes_spec(bytes@) is None,
            },
    {
        if bytes.len() < TOPIC_LEN + 4 {
            return None;
        }
        let topic = copy_range(bytes, 0, TOPIC_LEN);
        let cnt = u32_from_le_bytes(vstd::slice::slice_subrange(bytes, TOPIC_LEN, TOPIC_LEN + 4));
        match read_peers(bytes, TOPIC_LEN + 4, cnt) {
            Option::Some(p) => {
                let (nodes, e) = p;
                if e == bytes.len() {
                    let tk = Ticket { topic, nodes };
                    proof {
                        assert(tk@ =~= ticket_from_bytes_spec(bytes@)->Some_0);
                        lemma_ticket_from_bytes_sound(bytes@);
                    }
                    Some(tk)
                } else {
                    None
                }
            },
            Option::None => None,
        }
    }

    /// Serializes the ticket to its shareable text token: canonical bytes,
    /// base 32 without padding, lower-cased. Deterministic.
    pub fn encode(&self) -> (r: String)
        requires
            self.wf(),
        ensures
            r@ == token_of(self@),
            upper_of(r@) == b32_of(ticket_bytes(self@)),
    {
        let bytes = self.to_bytes();
        let text = base32_encode(bytes.as_slice());
        ascii_lower(text.as_str())
    }

    /// Decodes a token, case-insensitively. Succeeds, with the encoded
    /// ticket and nothing else, on exactly the tokens whose upper-case
    /// image is the base-32 text of a canonical ticket serialization;
    /// in particular it inverts `encode` on every well-formed ticket.
    /// `Encoding` reports malformed base 32, `Malformed` reports bytes
    /// that are not a ticket; no partial result is ever returned.
    pub fn decode(token: &str) -> (r: Result<Ticket, DecodeError>)
        ensures
            match r {
                Result::Ok(tk) => tk.wf() && upper_of(token@) == b32_of(ticket_bytes(tk@)),
                Result::Err(e) => match e {
                    DecodeError::Encoding => forall|b: Seq<u8>| b32_of(b) != upper_of(token@),
                    DecodeError::Malformed => exists|b: Seq<u8>|
                        b32_of(b) == upper_of(token@) && ticket_from_bytes_spec(b) is None,
                },
            },
            forall|t: TicketView|
                ticket_wf(t) && upper_of(token@) == b32_of(ticket_bytes(t)) ==> (r is Ok
                    && #[trigger] ticket_bytes(r->Ok_0@) == ticket_bytes(t) && r->Ok_0@ == t),
    {
        let up = ascii_upper(token);
        match base32_decode(up.as_str()) {
            Option::Some(v) => {
                match Self::from_bytes(v.as_slice()) {
                    Option::Some(tk) => {
                        proof {
                            lemma_ticket_from_bytes_sound(v@);
                            assert forall|t: TicketView|
                                ticket_wf(t) && upper_of(token@) == b32_of(
                                    ticket_bytes(t),
                                ) implies ticket_bytes(tk@) == ticket_bytes(t) && tk@
                                == t by {
                                assert(ticket_bytes(t) == v@);
                                lemma_ticket_bytes_round_trip(t);
                            }
                        }
                        Ok(tk)
                    },
                    Option::None => {
                        proof {
                            assert forall|t: TicketView|
                                !(ticket_wf(t) && upper_of(token@) == b32_of(
                                    ticket_bytes(t),
                                )) by {
                                if ticket_wf(t) && upper_of(token@) == b32_of(ticket_bytes(t)) {
                                    assert(ticket_bytes(t) == v@);
                                    lemma_ticket_bytes_round_trip(t);
                                }
                            }
                        }
                        Err(DecodeError::Malformed)
                    },
                }
            },
            Option::None => Err(DecodeError::Encoding),
        }
    }
}

} // verus!
