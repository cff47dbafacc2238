//! The wire codec for gossip payloads. Encoding is canonical: a function of
//! the payload's view alone, built from the same length-prefixed forms the
//! signature covers. Decoding is characterized exactly by a spec-level
//! parser: it rejects the whole payload as malformed precisely when the
//! parser fails, every accepted payload re-encodes byte-for-byte to the
//! input, and every encoder output is accepted — so payloads round-trip
//! losslessly through both serialize→deserialize and deserialize→serialize.
use vstd::prelude::*;

use crate::keys::{NetworkAddress, PublicKey, Signature};
use crate::record::{
    enc_bytes, enc_key_list, enc_opt_bytes, encode_inner, encode_inner_bytes, u32_be, u64_be,
    Gossip, GossipRecView, GossipRecord, InnerView, NodeRecordInner,
};

verus! {

/// The payload could not be decoded; it is rejected whole.
#[derive(Debug)]
pub struct MalformedPayload {}

/// The wire form of one record: the signed payload's canonical encoding,
/// the signature, and the disclosed address.
pub open spec fn encode_grec(g: GossipRecView) -> Seq<u8> {
    encode_inner(g.inner) + enc_bytes(g.signature) + enc_opt_bytes(g.network_address)
}

/// The records of a payload, in order.
pub open spec fn enc_grec_list(gs: Seq<GossipRecView>) -> Seq<u8>
    decreases gs.len(),
{
    if gs.len() == 0 {
        Seq::empty()
    } else {
        enc_grec_list(gs.drop_last()) + encode_grec(gs.last())
    }
}

/// A whole payload: the record count, then each record.
pub open spec fn encode_gossip_spec(gs: Seq<GossipRecView>) -> Seq<u8> {
    u64_be(gs.len() as u64) + enc_grec_list(gs)
}

/// A version number reassembled from its big-endian bytes.
pub open spec fn be_u32(b0: u8, b1: u8, b2: u8, b3: u8) -> u32 {
    ((b0 as u32) << 24) | ((b1 as u32) << 16) | ((b2 as u32) << 8) | (b3 as u32)
}

/// A length reassembled from its big-endian bytes.
pub open spec fn be_u64(b0: u8, b1: u8, b2: u8, b3: u8, b4: u8, b5: u8, b6: u8, b7: u8) -> u64 {
    ((b0 as u64) << 56) | ((b1 as u64) << 48) | ((b2 as u64) << 40) | ((b3 as u64) << 32) | ((
    b4 as u64) << 24) | ((b5 as u64) << 16) | ((b6 as u64) << 8) | (b7 as u64)
}

/// The parser the decoder is held to, field by field: each piece either
/// yields a value and the position after it, or fails.
pub open spec fn parse_u32(d: Seq<u8>, pos: int) -> Option<(u32, int)> {
    if 0 <= pos && pos + 4 <= d.len() {
        Some((be_u32(d[pos], d[pos + 1], d[pos + 2], d[pos + 3]), pos + 4))
    } else {
        None
    }
}

pub open spec fn parse_u64(d: Seq<u8>, pos: int) -> Option<(u64, int)> {
    if 0 <= pos && pos + 8 <= d.len() {
        Some(
            (
                be_u64(d[pos], d[pos + 1], d[pos + 2], d[pos + 3], d[pos + 4], d[pos + 5], d[pos
                    + 6], d[pos + 7]),
                pos + 8,
            ),
        )
    } else {
        None
    }
}

pub open spec fn parse_bytes(d: Seq<u8>, pos: int) -> Option<(Seq<u8>, int)> {
    match parse_u64(d, pos) {
        None => None,
        Some((len, p1)) => if p1 + len <= d.len() {
            Some((d.subrange(p1, p1 + len), p1 + len))
        } else {
            None
        },
    }
}

pub open spec fn parse_opt_bytes(d: Seq<u8>, pos: int) -> Option<(Option<Seq<u8>>, int)> {
    if 0 <= pos && pos + 1 <= d.len() {
        if d[pos] == 0 {
            Some((None, pos + 1))
        } else if d[pos] == 1 {
            match parse_bytes(d, pos + 1) {
                None => None,
                Some((b, p)) => Some((Some(b), p)),
            }
        } else {
            None
        }
    } else {
        None
    }
}

pub open spec fn parse_keys(d: Seq<u8>, pos: int, n: nat) -> Option<(Seq<Seq<u8>>, int)>
    decreases n,
{
    if n == 0 {
        Some((Seq::empty(), pos))
    } else {
        match parse_bytes(d, pos) {
            None => None,
            Some((b, p)) => match parse_keys(d, p, (n - 1) as nat) {
                None => None,
                Some((s, p2)) => Some((seq![b] + s, p2)),
            },
        }
    }
}

pub open spec fn parse_inner(d: Seq<u8>, pos: int) -> Option<(InnerView, int)> {
    match parse_u32(d, pos) {
        None => None,
        Some((version, p1)) => match parse_bytes(d, p1) {
            None => None,
            Some((key, p2)) => match parse_opt_bytes(d, p2) {
                None => None,
                Some((addr, p3)) => match parse_u64(d, p3) {
                    None => None,
                    Some((cnt, p4)) => match parse_keys(d, p4, cnt as nat) {
                        None => None,
                        Some((ks, p5)) => Some(
                            (
                                InnerView {
                                    public_key: key,
                                    network_address: addr,
                                    version,
                                    neighbors: ks,
                                },
                                p5,
                            ),
                        ),
                    },
                },
            },
        },
    }
}

pub open spec fn parse_grec(d: Seq<u8>, pos: int) -> Option<(GossipRecView, int)> {
    match parse_inner(d, pos) {
        None => None,
        Some((inner, p1)) => match parse_bytes(d, p1) {
            None => None,
            Some((sig, p2)) => match parse_opt_bytes(d, p2) {
                None => None,
                Some((addr, p3)) => Some(
                    (GossipRecView { inner, signature: sig, network_address: addr }, p3),
                ),
            },
        },
    }
}

pub open spec fn parse_grecs(d: Seq<u8>, pos: int, n: nat) -> Option<(Seq<GossipRecView>, int)>
    decreases n,
{
    if n == 0 {
        Some((Seq::empty(), pos))
    } else {
        match parse_grec(d, pos) {
            None => None,
            Some((g, p)) => match parse_grecs(d, p, (n - 1) as nat) {
                None => None,
                Some((s, p2)) => Some((seq![g] + s, p2)),
            },
        }
    }
}

/// The whole-payload parser: a count, that many records, nothing left over.
pub open spec fn parse_gossip(d: Seq<u8>) -> Option<Seq<GossipRecView>> {
    match parse_u64(d, 0) {
        None => None,
        Some((cnt, p)) => match parse_grecs(d, p, cnt as nat) {
            None => None,
            Some((gs, p2)) => if p2 == d.len() {
                Some(gs)
            } else {
                None
            },
        },
    }
}

/// A slice of an already-sliced region equals the slice of its image.
proof fn lemma_slice_slice(d: Seq<u8>, pos: int, len: int, e: Seq<u8>, a: int, b: int)
    requires
        0 <= pos,
        pos + len <= d.len(),
        e.len() == len,
        d.subrange(pos, pos + len) == e,
        0 <= a <= b <= len,
    ensures
        d.subrange(pos + a, pos + b) == e.subrange(a, b),
{
    assert(d.subrange(pos + a, pos + b) =~= e.subrange(a, b));
}

proof fn lemma_parse_u32_inv(d: Seq<u8>, pos: int, v: u32)
    requires
        0 <= pos,
        pos + 4 <= d.len(),
        d.subrange(pos, pos + 4) == u32_be(v),
    ensures
        parse_u32(d, pos) == Some((v, pos + 4)),
{
    assert(d[pos] == u32_be(v)[0]);
    assert(d[pos + 1] == u32_be(v)[1]);
    assert(d[pos + 2] == u32_be(v)[2]);
    assert(d[pos + 3] == u32_be(v)[3]);
    assert(be_u32(((v >> 24) & 0xff) as u8, ((v >> 16) & 0xff) as u8, ((v >> 8) & 0xff) as u8, (v
        & 0xff) as u8) == v) by (bit_vector);
}

proof fn lemma_parse_u64_inv(d: Seq<u8>, pos: int, v: u64)
    requires
        0 <= pos,
        pos + 8 <= d.len(),
        d.subrange(pos, pos + 8) == u64_be(v),
    ensures
        parse_u64(d, pos) == Some((v, pos + 8)),
{
    assert(d[pos] == u64_be(v)[0]);
    assert(d[pos + 1] == u64_be(v)[1]);
    assert(d[pos + 2] == u64_be(v)[2]);
    assert(d[pos + 3] == u64_be(v)[3]);
    assert(d[pos + 4] == u64_be(v)[4]);
    assert(d[pos + 5] == u64_be(v)[5]);
    assert(d[pos + 6] == u64_be(v)[6]);
    assert(d[pos + 7] == u64_be(v)[7]);
    assert(be_u64(((v >> 56) & 0xff) as u8, ((v >> 48) & 0xff) as u8, ((v >> 40) & 0xff) as u8, ((
    v >> 32) & 0xff) as u8, ((v >> 24) & 0xff) as u8, ((v >> 16) & 0xff) as u8, ((v >> 8)
        & 0xff) as u8, (v & 0xff) as u8) == v) by (bit_vector);
}

proof fn lemma_parse_bytes_inv(d: Seq<u8>, pos: int, b: Seq<u8>)
    requires
        0 <= pos,
        pos + 8 + b.len() <= d.len(),
        d.subrange(pos, pos + 8 + b.len()) == enc_bytes(b),
        b.len() < 0x10000000000000000,
    ensures
        parse_bytes(d, pos) == Some((b, pos + 8 + b.len())),
{
    let e = enc_bytes(b);
    lemma_slice_slice(d, pos, e.len() as int, e, 0, 8);
    assert(e.subrange(0, 8) =~= u64_be(b.len() as u64));
    lemma_parse_u64_inv(d, pos, b.len() as u64);
    lemma_slice_slice(d, pos, e.len() as int, e, 8, e.len() as int);
    assert(e.subrange(8, e.len() as int) =~= b);
    assert(b.len() as u64 as int == b.len());
}

proof fn lemma_parse_opt_inv(d: Seq<u8>, pos: int, a: Option<Seq<u8>>)
    requires
        0 <= pos,
        pos + enc_opt_bytes(a).len() <= d.len(),
        d.subrange(pos, pos + enc_opt_bytes(a).len() as int) == enc_opt_bytes(a),
        a matches Some(b) ==> b.len() < 0x10000000000000000,
    ensures
        parse_opt_bytes(d, pos) == Some((a, pos + enc_opt_bytes(a).len())),
{
    let e = enc_opt_bytes(a);
    assert(d[pos] == e[0]);
    match a {
        None => {
            assert(e[0] == 0u8);
        },
        Some(b) => {
            assert(e[0] == 1u8);
            lemma_slice_slice(d, pos, e.len() as int, e, 1, e.len() as int);
            assert(e.subrange(1, e.len() as int) =~= enc_bytes(b));
            lemma_parse_bytes_inv(d, pos + 1, b);
        },
    }
}

proof fn lemma_enc_key_list_first(ks: Seq<Seq<u8>>)
    requires
        ks.len() > 0,
    ensures
        enc_key_list(ks) == enc_bytes(ks[0]) + enc_key_list(ks.drop_first()),
    decreases ks.len(),
{
    if ks.len() == 1 {
        assert(ks.drop_last() =~= Seq::<Seq<u8>>::empty());
        assert(ks.drop_first() =~= Seq::<Seq<u8>>::empty());
        assert(ks.last() == ks[0]);
        assert(enc_key_list(ks) =~= enc_bytes(ks[0]) + enc_key_list(ks.drop_first()));
    } else {
        lemma_enc_key_list_first(ks.drop_last());
        assert(ks.drop_last()[0] == ks[0]);
        assert(ks.drop_last().drop_first() =~= ks.drop_first().drop_last());
        assert(ks.drop_first().last() == ks.last());
        assert(enc_key_list(ks) == enc_key_list(ks.drop_last()) + enc_bytes(ks.last()));
        assert(enc_key_list(ks.drop_first()) == enc_key_list(ks.drop_first().drop_last())
            + enc_bytes(ks.drop_first().last()));
        assert(enc_bytes(ks[0]) + enc_key_list(ks.drop_last().drop_first()) + enc_bytes(ks.last())
            =~= enc_bytes(ks[0]) + (enc_key_list(ks.drop_first().drop_last()) + enc_bytes(
            ks.last())));
    }
}

proof fn lemma_enc_key_list_len(ks: Seq<Seq<u8>>)
    ensures
        enc_key_list(ks).len() >= 8 * ks.len(),
    decreases ks.len(),
{
    if ks.len() > 0 {
        lemma_enc_key_list_len(ks.drop_last());
    }
}

proof fn lemma_parse_keys_inv(d: Seq<u8>, pos: int, ks: Seq<Seq<u8>>)
    requires
        0 <= pos,
        pos + enc_key_list(ks).len() <= d.len(),
        d.subrange(pos, pos + enc_key_list(ks).len() as int) == enc_key_list(ks),
        d.len() < 0x10000000000000000,
    ensures
        parse_keys(d, pos, ks.len()) == Some((ks, pos + enc_key_list(ks).len())),
    decreases ks.len(),
{
    if ks.len() == 0 {
        assert(ks =~= Seq::<Seq<u8>>::empty());
    } else {
        let e = enc_key_list(ks);
        lemma_enc_key_list_first(ks);
        let e0 = enc_bytes(ks[0]);
        lemma_slice_slice(d, pos, e.len() as int, e, 0, e0.len() as int);
        assert(e.subrange(0, e0.len() as int) =~= e0);
        lemma_parse_bytes_inv(d, pos, ks[0]);
        let p = pos + e0.len();
        let rest = enc_key_list(ks.drop_first());
        lemma_slice_slice(d, pos, e.len() as int, e, e0.len() as int, e.len() as int);
        assert(e.subrange(e0.len() as int, e.len() as int) =~= rest);
        lemma_parse_keys_inv(d, p, ks.drop_first());
        assert(seq![ks[0]] + ks.drop_first() =~= ks);
        assert((ks.len() - 1) as nat == ks.drop_first().len());
    }
}

proof fn lemma_parse_inner_inv(d: Seq<u8>, pos: int, iv: InnerView)
    requires
        0 <= pos,
        pos + encode_inner(iv).len() <= d.len(),
        d.subrange(pos, pos + encode_inner(iv).len() as int) == encode_inner(iv),
        d.len() < 0x10000000000000000,
    ensures
        parse_inner(d, pos) == Some((iv, pos + encode_inner(iv).len())),
{
    let e = encode_inner(iv);
    let c1 = u32_be(iv.version);
    let c2 = enc_bytes(iv.public_key);
    let c3 = enc_opt_bytes(iv.network_address);
    let c4 = u64_be(iv.neighbors.len() as u64);
    let c5 = enc_key_list(iv.neighbors);
    let o1 = c1.len() as int;
    let o2 = o1 + c2.len();
    let o3 = o2 + c3.len();
    let o4 = o3 + c4.len();
    let o5 = o4 + c5.len();
    assert(e.len() == o5);
    lemma_slice_slice(d, pos, o5, e, 0, o1);
    assert(e.subrange(0, o1) =~= c1);
    lemma_parse_u32_inv(d, pos, iv.version);
    lemma_slice_slice(d, pos, o5, e, o1, o2);
    assert(e.subrange(o1, o2) =~= c2);
    lemma_parse_bytes_inv(d, pos + o1, iv.public_key);
    lemma_slice_slice(d, pos, o5, e, o2, o3);
    assert(e.subrange(o2, o3) =~= c3);
    lemma_parse_opt_inv(d, pos + o2, iv.network_address);
    lemma_slice_slice(d, pos, o5, e, o3, o4);
    assert(e.subrange(o3, o4) =~= c4);
    lemma_parse_u64_inv(d, pos + o3, iv.neighbors.len() as u64);
    lemma_enc_key_list_len(iv.neighbors);
    assert(iv.neighbors.len() < 0x10000000000000000);
    assert(iv.neighbors.len() as u64 as nat == iv.neighbors.len());
    lemma_slice_slice(d, pos, o5, e, o4, o5);
    assert(e.subrange(o4, o5) =~= c5);
    lemma_parse_keys_inv(d, pos + o4, iv.neighbors);
    assert(parse_inner(d, pos) == Some(
        (
            InnerView {
                public_key: iv.public_key,
                network_address: iv.network_address,
                version: iv.version,
                neighbors: iv.neighbors,
            },
            pos + o5,
        ),
    ));
}

proof fn lemma_parse_grec_inv(d: Seq<u8>, pos: int, g: GossipRecView)
    requires
        0 <= pos,
        pos + encode_grec(g).len() <= d.len(),
        d.subrange(pos, pos + encode_grec(g).len() as int) == encode_grec(g),
        d.len() < 0x10000000000000000,
    ensures
        parse_grec(d, pos) == Some((g, pos + encode_grec(g).len())),
{
    let e = encode_grec(g);
    let c1 = encode_inner(g.inner);
    let c2 = enc_bytes(g.signature);
    let c3 = enc_opt_bytes(g.network_address);
    let o1 = c1.len() as int;
    let o2 = o1 + c2.len();
    let o3 = o2 + c3.len();
    assert(e.len() == o3);
    lemma_slice_slice(d, pos, o3, e, 0, o1);
    assert(e.subrange(0, o1) =~= c1);
    lemma_parse_inner_inv(d, pos, g.inner);
    lemma_slice_slice(d, pos, o3, e, o1, o2);
    assert(e.subrange(o1, o2) =~= c2);
    lemma_parse_bytes_inv(d, pos + o1, g.signature);
    lemma_slice_slice(d, pos, o3, e, o2, o3);
    assert(e.subrange(o2, o3) =~= c3);
    lemma_parse_opt_inv(d, pos + o2, g.network_address);
    assert(parse_grec(d, pos) == Some(
        (
            GossipRecView {
                inner: g.inner,
                signature: g.signature,
                network_address: g.network_address,
            },
            pos + o3,
        ),
    ));
}

proof fn lemma_enc_grec_list_first(gs: Seq<GossipRecView>)
    requires
        gs.len() > 0,
    ensures
        enc_grec_list(gs) == encode_grec(gs[0]) + enc_grec_list(gs.drop_first()),
    decreases gs.len(),
{
    if gs.len() == 1 {
        assert(gs.drop_last() =~= Seq::<GossipRecView>::empty());
        assert(gs.drop_first() =~= Seq::<GossipRecView>::empty());
        assert(gs.last() == gs[0]);
        assert(enc_grec_list(gs) =~= encode_grec(gs[0]) + enc_grec_list(gs.drop_first()));
    } else {
        lemma_enc_grec_list_first(gs.drop_last());
        assert(gs.drop_last()[0] == gs[0]);
        assert(gs.drop_last().drop_first() =~= gs.drop_first().drop_last());
        assert(gs.drop_first().last() == gs.last());
        assert(enc_grec_list(gs.drop_first()) == enc_grec_list(gs.drop_first().drop_last())
            + encode_grec(gs.drop_first().last()));
        assert(encode_grec(gs[0]) + enc_grec_list(gs.drop_last().drop_first()) + encode_grec(
            gs.last()) =~= encode_grec(gs[0]) + (enc_grec_list(gs.drop_first().drop_last())
            + encode_grec(gs.last())));
    }
}

proof fn lemma_enc_grec_list_len(gs: Seq<GossipRecView>)
    ensures
        enc_grec_list(gs).len() >= gs.len(),
    decreases gs.len(),
{
    if gs.len() > 0 {
        lemma_enc_grec_list_len(gs.drop_last());
    }
}

proof fn lemma_parse_grecs_inv(d: Seq<u8>, pos: int, gs: Seq<GossipRecView>)
    requires
        0 <= pos,
        pos + enc_grec_list(gs).len() <= d.len(),
        d.subrange(pos, pos + enc_grec_list(gs).len() as int) == enc_grec_list(gs),
        d.len() < 0x10000000000000000,
    ensures
        parse_grecs(d, pos, gs.len()) == Some((gs, pos + enc_grec_list(gs).len())),
    decreases gs.len(),
{
    if gs.len() == 0 {
        assert(gs =~= Seq::<GossipRecView>::empty());
    } else {
        let e = enc_grec_list(gs);
        lemma_enc_grec_list_first(gs);
        let e0 = encode_grec(gs[0]);
        lemma_slice_slice(d, pos, e.len() as int, e, 0, e0.len() as int);
        assert(e.subrange(0, e0.len() as int) =~= e0);
        lemma_parse_grec_inv(d, pos, gs[0]);
        let p = pos + e0.len();
        let rest = enc_grec_list(gs.drop_first());
        lemma_slice_slice(d, pos, e.len() as int, e, e0.len() as int, e.len() as int);
        assert(e.subrange(e0.len() as int, e.len() as int) =~= rest);
        lemma_parse_grecs_inv(d, p, gs.drop_first());
        assert(seq![gs[0]] + gs.drop_first() =~= gs);
        assert((gs.len() - 1) as nat == gs.drop_first().len());
    }
}

/// Every encoder output parses back to exactly what was encoded: the
/// deserialize-after-serialize half of the lossless round trip.
pub proof fn lemma_parse_encode_gossip(d: Seq<u8>, gs: Seq<GossipRecView>)
    requires
        d == encode_gossip_spec(gs),
        d.len() < 0x10000000000000000,
    ensures
        parse_gossip(d) == Some(gs),
{
    let c1 = u64_be(gs.len() as u64);
    let c2 = enc_grec_list(gs);
    assert(d.subrange(0, 8) =~= c1);
    lemma_enc_grec_list_len(gs);
    assert(gs.len() < 0x10000000000000000);
    assert(gs.len() as u64 as nat == gs.len());
    lemma_parse_u64_inv(d, 0, gs.len() as u64);
    assert(d.subrange(8, d.len() as int) =~= c2);
    lemma_parse_grecs_inv(d, 8, gs);
}

/// Serializes a payload into its canonical wire bytes.
pub fn encode_gossip(gossip: &Gossip) -> (out: Vec<u8>)
    ensures
        out@ == encode_gossip_spec(gossip@),
{
    let mut out: Vec<u8> = Vec::new();
    crate::record::push_u64_be(&mut out, gossip.records.len() as u64);
    let ghost head = out@;
    let mut i: usize = 0;
    proof {
        assert(gossip@.take(0) =~= Seq::<GossipRecView>::empty());
    }
    while i < gossip.records.len()
        invariant
            i <= gossip.records.len(),
            gossip@.len() == gossip.records@.len(),
            forall|j: int| 0 <= j < gossip.records@.len() ==> gossip@[j] == gossip.records@[j]@,
            out@ == head + enc_grec_list(gossip@.take(i as int)),
        decreases gossip.records.len() - i,
    {
        let g = &gossip.records[i];
        let inner_bytes = encode_inner_bytes(&g.inner);
        let mut k: usize = 0;
        while k < inner_bytes.len()
            invariant
                k <= inner_bytes.len(),
                out@ == head + enc_grec_list(gossip@.take(i as int)) + inner_bytes@.take(k as int),
                i < gossip.records.len(),
                inner_bytes@ == encode_inner(gossip.records@[i as int]@.inner),
                gossip@.len() == gossip.records@.len(),
                forall|j: int| 0 <= j < gossip.records@.len() ==> gossip@[j] == gossip.records@[j]@,
            decreases inner_bytes.len() - k,
        {
            out.push(inner_bytes[k]);
            proof {
                assert((head + enc_grec_list(gossip@.take(i as int)) + inner_bytes@.take(k as int)).push(
                    inner_bytes@[k as int]) =~= head + enc_grec_list(gossip@.take(i as int))
                    + inner_bytes@.take(k + 1 as int));
            }
            k = k + 1;
        }
        proof {
            assert(inner_bytes@.take(inner_bytes@.len() as int) =~= inner_bytes@);
        }
        crate::record::push_len_prefixed(&mut out, &g.signature.bytes);
        match &g.network_address {
            None => {
                out.push(0u8);
            },
            Some(a) => {
                out.push(1u8);
                crate::record::push_len_prefixed(&mut out, &a.bytes);
            },
        }
        proof {
            assert(gossip@.take(i + 1 as int).drop_last() =~= gossip@.take(i as int));
            assert(gossip@.take(i + 1 as int).last() == gossip@[i as int]);
            assert(out@ =~= head + enc_grec_list(gossip@.take(i + 1 as int)));
        }
        i = i + 1;
    }
    proof {
        assert(gossip@.take(gossip@.len() as int) =~= gossip@);
        assert(out@ =~= encode_gossip_spec(gossip@));
    }
    out
}

fn read_u32(data: &Vec<u8>, pos: usize) -> (r: Result<(u32, usize), MalformedPayload>)
    requires
        pos <= data@.len(),
    ensures
        r is Ok <==> parse_u32(data@, pos as int) is Some,
        r matches Ok((v, p2)) ==> pos <= p2 <= data@.len() && parse_u32(data@, pos as int) == Some(
            (v, p2 as int)) && data@.subrange(pos as int, p2 as int) == u32_be(v),
{
    if data.len() - pos < 4 {
        return Err(MalformedPayload {});
    }
    let b0 = data[pos];
    let b1 = data[pos + 1];
    let b2 = data[pos + 2];
    let b3 = data[pos + 3];
    let v: u32 = ((b0 as u32) << 24) | ((b1 as u32) << 16) | ((b2 as u32) << 8) | (b3 as u32);
    proof {
        assert(((((b0 as u32) << 24) | ((b1 as u32) << 16) | ((b2 as u32) << 8) | (b3 as u32))
            >> 24) & 0xff == b0 as u32) by (bit_vector);
        assert(((((b0 as u32) << 24) | ((b1 as u32) << 16) | ((b2 as u32) << 8) | (b3 as u32))
            >> 16) & 0xff == b1 as u32) by (bit_vector);
        assert(((((b0 as u32) << 24) | ((b1 as u32) << 16) | ((b2 as u32) << 8) | (b3 as u32))
            >> 8) & 0xff == b2 as u32) by (bit_vector);
        assert((((b0 as u32) << 24) | ((b1 as u32) << 16) | ((b2 as u32) << 8) | (b3 as u32))
            & 0xff == b3 as u32) by (bit_vector);
        assert(data@.subrange(pos as int, pos + 4 as int) =~= u32_be(v));
    }
    Ok((v, pos + 4))
}

fn read_u64(data: &Vec<u8>, pos: usize) -> (r: Result<(u64, usize), MalformedPayload>)
    requires
        pos <= data@.len(),
    ensures
        r is Ok <==> parse_u64(data@, pos as int) is Some,
        r matches Ok((v, p2)) ==> pos <= p2 <= data@.len() && parse_u64(data@, pos as int) == Some(
            (v, p2 as int)) && data@.subrange(pos as int, p2 as int) == u64_be(v),
{
    if data.len() - pos < 8 {
        return Err(MalformedPayload {});
    }
    let b0 = data[pos];
    let b1 = data[pos + 1];
    let b2 = data[pos + 2];
    let b3 = data[pos + 3];
    let b4 = data[pos + 4];
    let b5 = data[pos + 5];
    let b6 = data[pos + 6];
    let b7 = data[pos + 7];
    let v: u64 = ((b0 as u64) << 56) | ((b1 as u64) << 48) | ((b2 as u64) << 40) | ((b3 as u64)
        << 32) | ((b4 as u64) << 24) | ((b5 as u64) << 16) | ((b6 as u64) << 8) | (b7 as u64);
    proof {
        let w: u64 = ((b0 as u64) << 56) | ((b1 as u64) << 48) | ((b2 as u64) << 40) | ((
        b3 as u64) << 32) | ((b4 as u64) << 24) | ((b5 as u64) << 16) | ((b6 as u64) << 8) | (
        b7 as u64);
        assert((w >> 56) & 0xff == b0 as u64 && (w >> 48) & 0xff == b1 as u64 && (w >> 40) & 0xff
            == b2 as u64 && (w >> 32) & 0xff == b3 as u64 && (w >> 24) & 0xff == b4 as u64 && (w
            >> 16) & 0xff == b5 as u64 && (w >> 8) & 0xff == b6 as u64 && w & 0xff == b7 as u64)
            by (bit_vector)
            requires
                w == ((b0 as u64) << 56) | ((b1 as u64) << 48) | ((b2 as u64) << 40) | ((
                b3 as u64) << 32) | ((b4 as u64) << 24) | ((b5 as u64) << 16) | ((b6 as u64) << 8)
                    | (b7 as u64),
        ;
        assert(data@.subrange(pos as int, pos + 8 as int) =~= u64_be(v));
    }
    Ok((v, pos + 8))
}

fn read_len_prefixed(data: &Vec<u8>, pos: usize) -> (r: Result<(Vec<u8>, usize), MalformedPayload>)
    requires
        pos <= data@.len(),
    ensures
        r is Ok <==> parse_bytes(data@, pos as int) is Some,
        r matches Ok((b, p2)) ==> pos <= p2 <= data@.len() && parse_bytes(data@, pos as int) == Some(
            (b@, p2 as int)) && data@.subrange(pos as int, p2 as int) == enc_bytes(b@),
{
    let (len, p1) = match read_u64(data, pos) {
        Ok(x) => x,
        Err(e) => {
            return Err(e);
        },
    };
    if len > (data.len() - p1) as u64 {
        return Err(MalformedPayload {});
    }
    let n = len as usize;
    let dlen = data.len();
    proof {
        assert(len <= (data@.len() - p1) as u64);
        assert(n == len);
        assert(p1 + n <= dlen);
    }
    let mut b: Vec<u8> = Vec::new();
    let mut k: usize = 0;
    while k < n
        invariant
            k <= n,
            dlen == data@.len(),
            p1 + n <= dlen,
            b@ == data@.subrange(p1 as int, p1 + k as int),
        decreases n - k,
    {
        b.push(data[p1 + k]);
        proof {
            assert(data@.subrange(p1 as int, p1 + k as int).push(data@[p1 + k as int])
                =~= data@.subrange(p1 as int, p1 + (k + 1) as int));
        }
        k = k + 1;
    }
    proof {
        assert(b@.len() as u64 == len);
        assert(data@.subrange(pos as int, (p1 + n) as int) =~= u64_be(len) + b@);
    }
    Ok((b, p1 + n))
}

fn read_opt_addr(data: &Vec<u8>, pos: usize) -> (r: Result<
    (Option<NetworkAddress>, usize),
    MalformedPayload,
>)
    requires
        pos <= data@.len(),
    ensures
        r is Ok <==> parse_opt_bytes(data@, pos as int) is Some,
        r matches Ok((a, p2)) ==> pos <= p2 <= data@.len() && parse_opt_bytes(data@, pos as int) == Some(
            (crate::keys::addr_opt_view(&a), p2 as int)) && data@.subrange(pos as int, p2 as int)
            == enc_opt_bytes(crate::keys::addr_opt_view(&a)),
{
    if data.len() - pos < 1 {
        return Err(MalformedPayload {});
    }
    let tag = data[pos];
    if tag == 0 {
        proof {
            assert(data@.subrange(pos as int, pos + 1 as int) =~= seq![0u8]);
        }
        Ok((None, pos + 1))
    } else if tag == 1 {
        let (b, p2) = match read_len_prefixed(data, pos + 1) {
            Ok(x) => x,
            Err(e) => {
                return Err(e);
            },
        };
        let a = NetworkAddress::new(b);
        proof {
            assert(data@.subrange(pos as int, p2 as int) =~= seq![1u8] + enc_bytes(a@));
        }
        Ok((Some(a), p2))
    } else {
        Err(MalformedPayload {})
    }
}

fn decode_inner(data: &Vec<u8>, pos: usize) -> (r: Result<
    (NodeRecordInner, usize),
    MalformedPayload,
>)
    requires
        pos <= data@.len(),
    ensures
        r is Ok <==> parse_inner(data@, pos as int) is Some,
        r matches Ok((inner, p2)) ==> pos <= p2 <= data@.len() && parse_inner(data@, pos as int) == Some(
            (inner@, p2 as int)) && data@.subrange(pos as int, p2 as int) == encode_inner(inner@),
{
    let ghost d = data@;
    let (version, p1) = match read_u32(data, pos) {
        Ok(x) => x,
        Err(e) => {
            return Err(e);
        },
    };
    let (key_bytes, p2) = match read_len_prefixed(data, p1) {
        Ok(x) => x,
        Err(e) => {
            return Err(e);
        },
    };
    let public_key = PublicKey::new(key_bytes);
    let (network_address, p3) = match read_opt_addr(data, p2) {
        Ok(x) => x,
        Err(e) => {
            return Err(e);
        },
    };
    let (count, p4) = match read_u64(data, p3) {
        Ok(x) => x,
        Err(e) => {
            return Err(e);
        },
    };
    let mut neighbors: Vec<PublicKey> = Vec::new();
    let mut pos_n: usize = p4;
    let mut k: u64 = 0;
    proof {
        assert(neighbors@.map_values(|x: PublicKey| x@) =~= Seq::<Seq<u8>>::empty());
        assert(parse_keys(d, p4 as int, (count - k) as nat) == parse_keys(d, p4 as int,
            count as nat));
    }
    while k < count
        invariant
            k <= count,
            data@ == d,
            pos <= data@.len(),
            pos <= p1 <= p2 <= p3 <= p4 <= pos_n <= d.len(),
            parse_u32(d, pos as int) == Some((version, p1 as int)),
            parse_bytes(d, p1 as int) == Some((public_key@, p2 as int)),
            parse_opt_bytes(d, p2 as int) == Some(
                (crate::keys::addr_opt_view(&network_address), p3 as int),
            ),
            parse_u64(d, p3 as int) == Some((count, p4 as int)),
            data@.subrange(pos as int, p1 as int) == u32_be(version),
            data@.subrange(p1 as int, p2 as int) == enc_bytes(public_key@),
            data@.subrange(p2 as int, p3 as int) == enc_opt_bytes(crate::keys::addr_opt_view(
                &network_address)),
            data@.subrange(p3 as int, p4 as int) == u64_be(count),
            neighbors@.len() == k as nat,
            data@.subrange(p4 as int, pos_n as int) == enc_key_list(neighbors@.map_values(
                |x: PublicKey| x@)),
            match parse_keys(d, pos_n as int, (count - k) as nat) {
                Some((s, p)) => parse_keys(d, p4 as int, count as nat) == Some(
                    (neighbors@.map_values(|x: PublicKey| x@) + s, p),
                ),
                None => parse_keys(d, p4 as int, count as nat) is None,
            },
        decreases count - k,
    {
        let (nb, pn) = match read_len_prefixed(data, pos_n) {
            Ok(x) => x,
            Err(e) => {
                proof {
                    assert(parse_keys(d, pos_n as int, (count - k) as nat) is None);
                }
                return Err(e);
            },
        };
        let ghost prev = neighbors@.map_values(|x: PublicKey| x@);
        let nkey = PublicKey::new(nb);
        neighbors.push(nkey);
        proof {
            assert(neighbors@.map_values(|x: PublicKey| x@) =~= prev.push(
                neighbors@[neighbors@.len() - 1]@));
            assert(prev.push(neighbors@[neighbors@.len() - 1]@).drop_last() =~= prev);
            assert(data@.subrange(p4 as int, pn as int) =~= data@.subrange(p4 as int,
                pos_n as int) + data@.subrange(pos_n as int, pn as int));
            match parse_keys(d, pn as int, (count - k - 1) as nat) {
                Some((s, p)) => {
                    assert(parse_keys(d, pos_n as int, (count - k) as nat) == Some(
                        (seq![nb@] + s, p),
                    ));
                    assert(prev + (seq![nb@] + s) =~= prev.push(nb@) + s);
                },
                None => {
                    assert(parse_keys(d, pos_n as int, (count - k) as nat) is None);
                },
            }
        }
        pos_n = pn;
        k = k + 1;
    }
    let inner = NodeRecordInner { public_key, network_address, version, neighbors };
    proof {
        assert(inner@.neighbors.len() as u64 == count);
        assert(parse_keys(d, pos_n as int, 0) == Some((Seq::<Seq<u8>>::empty(), pos_n as int)));
        assert(inner@.neighbors + Seq::<Seq<u8>>::empty() =~= inner@.neighbors);
        assert(data@.subrange(pos as int, p2 as int) =~= data@.subrange(pos as int, p1 as int)
            + data@.subrange(p1 as int, p2 as int));
        assert(data@.subrange(pos as int, p3 as int) =~= data@.subrange(pos as int, p2 as int)
            + data@.subrange(p2 as int, p3 as int));
        assert(data@.subrange(pos as int, p4 as int) =~= data@.subrange(pos as int, p3 as int)
            + data@.subrange(p3 as int, p4 as int));
        assert(data@.subrange(pos as int, pos_n as int) =~= data@.subrange(pos as int, p4 as int)
            + data@.subrange(p4 as int, pos_n as int));
        assert(data@.subrange(pos as int, pos_n as int) == encode_inner(inner@));
    }
    Ok((inner, pos_n))
}

fn decode_grec(data: &Vec<u8>, pos: usize) -> (r: Result<(GossipRecord, usize), MalformedPayload>)
    requires
        pos <= data@.len(),
    ensures
        r is Ok <==> parse_grec(data@, pos as int) is Some,
        r matches Ok((g, p2)) ==> pos <= p2 <= data@.len() && parse_grec(data@, pos as int) == Some(
            (g@, p2 as int)) && data@.subrange(pos as int, p2 as int) == encode_grec(g@),
{
    let (inner, p1) = match decode_inner(data, pos) {
        Ok(x) => x,
        Err(e) => {
            return Err(e);
        },
    };
    let (sig_bytes, p2) = match read_len_prefixed(data, p1) {
        Ok(x) => x,
        Err(e) => {
            return Err(e);
        },
    };
    let (network_address, p3) = match read_opt_addr(data, p2) {
        Ok(x) => x,
        Err(e) => {
            return Err(e);
        },
    };
    let g = GossipRecord { inner, signature: Signature::new(sig_bytes), network_address };
    proof {
        assert(data@.subrange(pos as int, p2 as int) =~= data@.subrange(pos as int, p1 as int)
            + data@.subrange(p1 as int, p2 as int));
        assert(data@.subrange(pos as int, p3 as int) =~= data@.subrange(pos as int, p2 as int)
            + data@.subrange(p2 as int, p3 as int));
        assert(data@.subrange(pos as int, p3 as int) == encode_grec(g@));
    }
    Ok((g, p3))
}

fn decode_gossip_checked(data: &Vec<u8>) -> (r: Result<Gossip, MalformedPayload>)
    ensures
        r is Ok <==> parse_gossip(data@) is Some,
        r matches Ok(g) ==> parse_gossip(data@) == Some(g@) && encode_gossip_spec(g@) == data@,
{
    let ghost d = data@;
    let (count, p0) = match read_u64(data, 0) {
        Ok(x) => x,
        Err(e) => {
            return Err(e);
        },
    };
    let mut records: Vec<GossipRecord> = Vec::new();
    let mut pos: usize = p0;
    let mut k: u64 = 0;
    proof {
        assert(records@.map_values(|g: GossipRecord| g@) =~= Seq::<GossipRecView>::empty());
        assert(parse_grecs(d, p0 as int, (count - k) as nat) == parse_grecs(d, p0 as int,
            count as nat));
    }
    while k < count
        invariant
            k <= count,
            data@ == d,
            p0 == 8,
            p0 <= pos <= d.len(),
            records@.len() == k as nat,
            parse_u64(d, 0) == Some((count, p0 as int)),
            data@.subrange(0, p0 as int) == u64_be(count),
            data@.subrange(p0 as int, pos as int) == enc_grec_list(records@.map_values(
                |g: GossipRecord| g@)),
            match parse_grecs(d, pos as int, (count - k) as nat) {
                Some((s, p)) => parse_grecs(d, p0 as int, count as nat) == Some(
                    (records@.map_values(|g: GossipRecord| g@) + s, p),
                ),
                None => parse_grecs(d, p0 as int, count as nat) is None,
            },
        decreases count - k,
    {
        let (g, pn) = match decode_grec(data, pos) {
            Ok(x) => x,
            Err(e) => {
                proof {
                    assert(parse_grecs(d, pos as int, (count - k) as nat) is None);
                }
                return Err(e);
            },
        };
        let ghost prev = records@.map_values(|g2: GossipRecord| g2@);
        let ghost gv = g@;
        records.push(g);
        proof {
            assert(records@.map_values(|g2: GossipRecord| g2@) =~= prev.push(
                records@[records@.len() - 1]@));
            assert(prev.push(records@[records@.len() - 1]@).drop_last() =~= prev);
            assert(data@.subrange(p0 as int, pn as int) =~= data@.subrange(p0 as int, pos as int)
                + data@.subrange(pos as int, pn as int));
            match parse_grecs(d, pn as int, (count - k - 1) as nat) {
                Some((s, p)) => {
                    assert(parse_grecs(d, pos as int, (count - k) as nat) == Some(
                        (seq![gv] + s, p),
                    ));
                    assert(prev + (seq![gv] + s) =~= prev.push(gv) + s);
                },
                None => {
                    assert(parse_grecs(d, pos as int, (count - k) as nat) is None);
                },
            }
        }
        pos = pn;
        k = k + 1;
    }
    proof {
        assert(parse_grecs(d, pos as int, 0) == Some((Seq::<GossipRecView>::empty(), pos as int)));
        assert(records@.map_values(|g: GossipRecord| g@) + Seq::<GossipRecView>::empty()
            =~= records@.map_values(|g: GossipRecord| g@));
    }
    if pos != data.len() {
        return Err(MalformedPayload {});
    }
    let out = Gossip { records };
    proof {
        assert(out@.len() as u64 == count);
        assert(d =~= encode_gossip_spec(out@));
    }
    Ok(out)
}

/// Parses wire bytes back into a payload. Rejects the whole input as
/// malformed exactly when it is not a canonical encoding; on success the
/// result re-encodes to exactly the input, and every encoder output is
/// accepted, so payloads round-trip losslessly in both directions.
pub fn decode_gossip(data: &Vec<u8>) -> (r: Result<Gossip, MalformedPayload>)
    ensures
        r is Ok <==> parse_gossip(data@) is Some,
        r matches Ok(g) ==> parse_gossip(data@) == Some(g@) && encode_gossip_spec(g@) == data@,
        forall|gs: Seq<GossipRecView>| data@ == encode_gossip_spec(gs) ==> r is Ok,
{
    let dlen = data.len();
    let r = decode_gossip_checked(data);
    proof {
        assert(data@.len() == dlen);
        assert forall|gs: Seq<GossipRecView>| data@ == encode_gossip_spec(gs) implies r is Ok by {
            lemma_parse_encode_gossip(data@, gs);
        }
    }
    r
}

} // verus!
