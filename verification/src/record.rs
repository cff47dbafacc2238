//! The authenticated unit of topology knowledge: one node's signed claim of
//! its key, optional address, version and neighbor set, together with the
//! local-only metadata a store keeps beside it and the redacted form that
//! crosses the wire.
use vstd::prelude::*;

use crate::crypt::CryptDe;
use crate::keys::{
    addr_opt_view, bytes_equal, clone_addr_opt, clone_bytes, keys_equal, NetworkAddress, PublicKey,
    Signature,
};

verus! {

/// The signed payload of a record. `neighbors` is a declarative, one-sided
/// claim: listing a key does not prove the counterpart agrees. A well-formed
/// payload never lists its own key (see `inner_wf`).
pub struct NodeRecordInner {
    pub public_key: PublicKey,
    pub network_address: Option<NetworkAddress>,
    pub version: u32,
    pub neighbors: Vec<PublicKey>,
}

/// Spec-level view of a signed payload.
pub ghost struct InnerView {
    pub public_key: Seq<u8>,
    pub network_address: Option<Seq<u8>>,
    pub version: u32,
    pub neighbors: Seq<Seq<u8>>,
}

impl View for NodeRecordInner {
    type V = InnerView;

    open spec fn view(&self) -> InnerView {
        InnerView {
            public_key: self.public_key@,
            network_address: addr_opt_view(&self.network_address),
            version: self.version,
            neighbors: self.neighbors@.map_values(|k: PublicKey| k@),
        }
    }
}

/// A payload is well formed when it does not claim itself as a neighbor.
pub open spec fn inner_wf(i: InnerView) -> bool {
    !i.neighbors.contains(i.public_key)
}

/// Big-endian bytes of a version number.
pub open spec fn u32_be(v: u32) -> Seq<u8> {
    seq![
        ((v >> 24) & 0xff) as u8,
        ((v >> 16) & 0xff) as u8,
        ((v >> 8) & 0xff) as u8,
        (v & 0xff) as u8,
    ]
}

/// Big-endian bytes of a length.
pub open spec fn u64_be(v: u64) -> Seq<u8> {
    seq![
        ((v >> 56) & 0xff) as u8,
        ((v >> 48) & 0xff) as u8,
        ((v >> 40) & 0xff) as u8,
        ((v >> 32) & 0xff) as u8,
        ((v >> 24) & 0xff) as u8,
        ((v >> 16) & 0xff) as u8,
        ((v >> 8) & 0xff) as u8,
        (v & 0xff) as u8,
    ]
}

/// A length-prefixed byte string.
pub open spec fn enc_bytes(b: Seq<u8>) -> Seq<u8> {
    u64_be(b.len() as u64) + b
}

/// An optional byte string: a presence tag, then the string if present.
pub open spec fn enc_opt_bytes(a: Option<Seq<u8>>) -> Seq<u8> {
    match a {
        None => seq![0u8],
        Some(b) => seq![1u8] + enc_bytes(b),
    }
}

/// A list of keys, each length-prefixed, in list order.
pub open spec fn enc_key_list(ks: Seq<Seq<u8>>) -> Seq<u8>
    decreases ks.len(),
{
    if ks.len() == 0 {
        Seq::empty()
    } else {
        enc_key_list(ks.drop_last()) + enc_bytes(ks.last())
    }
}

/// The canonical encoding of a signed payload: what the owner signs and what
/// every verifier recomputes. It is a function of the payload's view alone,
/// so semantically equal payloads encode identically and the encoding
/// survives any round trip that preserves the view.
pub open spec fn encode_inner(i: InnerView) -> Seq<u8> {
    u32_be(i.version) + enc_bytes(i.public_key) + enc_opt_bytes(i.network_address) + u64_be(
        i.neighbors.len() as u64,
    ) + enc_key_list(i.neighbors)
}

proof fn lemma_shifted_byte_u32(v: u32, s: u32)
    ensures
        (v >> s) & 0xff <= 0xff,
{
    assert((v >> s) & 0xff <= 0xff) by (bit_vector);
}

proof fn lemma_shifted_byte_u64(v: u64, s: u64)
    ensures
        (v >> s) & 0xff <= 0xff,
{
    assert((v >> s) & 0xff <= 0xff) by (bit_vector);
}

fn push_u32_be(out: &mut Vec<u8>, v: u32)
    ensures
        final(out)@ == old(out)@ + u32_be(v),
{
    proof {
        lemma_shifted_byte_u32(v, 24);
        lemma_shifted_byte_u32(v, 16);
        lemma_shifted_byte_u32(v, 8);
        lemma_shifted_byte_u32(v, 0);
        assert(v >> 0 == v) by (bit_vector);
    }
    out.push(((v >> 24) & 0xff) as u8);
    out.push(((v >> 16) & 0xff) as u8);
    out.push(((v >> 8) & 0xff) as u8);
    out.push((v & 0xff) as u8);
    proof {
        assert(final(out)@ =~= old(out)@ + u32_be(v));
    }
}

pub fn push_u64_be(out: &mut Vec<u8>, v: u64)
    ensures
        final(out)@ == old(out)@ + u64_be(v),
{
    proof {
        lemma_shifted_byte_u64(v, 56);
        lemma_shifted_byte_u64(v, 48);
        lemma_shifted_byte_u64(v, 40);
        lemma_shifted_byte_u64(v, 32);
        lemma_shifted_byte_u64(v, 24);
        lemma_shifted_byte_u64(v, 16);
        lemma_shifted_byte_u64(v, 8);
        assert(v >> 0 == v) by (bit_vector);
    }
    out.push(((v >> 56) & 0xff) as u8);
    out.push(((v >> 48) & 0xff) as u8);
    out.push(((v >> 40) & 0xff) as u8);
    out.push(((v >> 32) & 0xff) as u8);
    out.push(((v >> 24) & 0xff) as u8);
    out.push(((v >> 16) & 0xff) as u8);
    out.push(((v >> 8) & 0xff) as u8);
    out.push((v & 0xff) as u8);
    proof {
        assert(final(out)@ =~= old(out)@ + u64_be(v));
    }
}

pub fn push_len_prefixed(out: &mut Vec<u8>, b: &Vec<u8>)
    ensures
        final(out)@ == old(out)@ + enc_bytes(b@),
{
    push_u64_be(out, b.len() as u64);
    let mut i: usize = 0;
    while i < b.len()
        invariant
            i <= b.len(),
            out@ == old(out)@ + u64_be(b@.len() as u64) + b@.take(i as int),
        decreases b.len() - i,
    {
        out.push(b[i]);
        proof {
            assert((old(out)@ + u64_be(b@.len() as u64) + b@.take(i as int)).push(b@[i as int])
                =~= old(out)@ + u64_be(b@.len() as u64) + b@.take(i + 1 as int));
        }
        i = i + 1;
    }
    proof {
        assert(b@.take(b@.len() as int) =~= b@);
        assert(old(out)@ + u64_be(b@.len() as u64) + b@ =~= old(out)@ + enc_bytes(b@));
    }
}

proof fn lemma_enc_key_list_step(ks: Seq<Seq<u8>>, i: int)
    requires
        0 <= i < ks.len(),
    ensures
        enc_key_list(ks.take(i + 1)) == enc_key_list(ks.take(i)) + enc_bytes(ks[i]),
{
    assert(ks.take(i + 1).drop_last() =~= ks.take(i));
    assert(ks.take(i + 1).last() == ks[i]);
}

/// Computes the canonical encoding of a signed payload.
pub fn encode_inner_bytes(inner: &NodeRecordInner) -> (out: Vec<u8>)
    ensures
        out@ == encode_inner(inner@),
{
    let mut out: Vec<u8> = Vec::new();
    push_u32_be(&mut out, inner.version);
    push_len_prefixed(&mut out, &inner.public_key.bytes);
    match &inner.network_address {
        None => {
            out.push(0u8);
            proof {
                assert(out@ =~= u32_be(inner@.version) + enc_bytes(inner@.public_key)
                    + enc_opt_bytes(inner@.network_address));
            }
        },
        Some(a) => {
            out.push(1u8);
            push_len_prefixed(&mut out, &a.bytes);
            proof {
                assert(out@ =~= u32_be(inner@.version) + enc_bytes(inner@.public_key)
                    + enc_opt_bytes(inner@.network_address));
            }
        },
    }
    push_u64_be(&mut out, inner.neighbors.len() as u64);
    let ghost head = out@;
    let mut i: usize = 0;
    while i < inner.neighbors.len()
        invariant
            i <= inner.neighbors.len(),
            inner@.neighbors.len() == inner.neighbors@.len(),
            forall|j: int|
                0 <= j < inner.neighbors@.len() ==> inner@.neighbors[j] == inner.neighbors@[j]@,
            out@ == head + enc_key_list(inner@.neighbors.take(i as int)),
        decreases inner.neighbors.len() - i,
    {
        push_len_prefixed(&mut out, &inner.neighbors[i].bytes);
        proof {
            lemma_enc_key_list_step(inner@.neighbors, i as int);
            assert(head + enc_key_list(inner@.neighbors.take(i as int)) + enc_bytes(
                inner@.neighbors[i as int]) =~= head + enc_key_list(
                inner@.neighbors.take(i + 1 as int)));
        }
        i = i + 1;
    }
    proof {
        assert(inner@.neighbors.take(inner@.neighbors.len() as int) =~= inner@.neighbors);
        assert(head + enc_key_list(inner@.neighbors) =~= encode_inner(inner@));
    }
    out
}

/// Local-only bookkeeping beside a stored record; never transmitted.
/// `desirable` marks whether the subject is worth retaining and advertising
/// further; `resolved_address` is the confirmed reachability the local node
/// holds for the subject.
pub struct NodeRecordMetadata {
    pub desirable: bool,
    pub resolved_address: Option<NetworkAddress>,
}

/// A stored record: the signed payload, its signature, and local metadata.
pub struct NodeRecord {
    pub inner: NodeRecordInner,
    pub signature: Signature,
    pub metadata: NodeRecordMetadata,
}

/// Spec-level view of a stored record.
pub ghost struct RecView {
    pub inner: InnerView,
    pub signature: Seq<u8>,
    pub desirable: bool,
    pub resolved_address: Option<Seq<u8>>,
}

impl View for NodeRecord {
    type V = RecView;

    open spec fn view(&self) -> RecView {
        RecView {
            inner: self.inner@,
            signature: self.signature@,
            desirable: self.metadata.desirable,
            resolved_address: addr_opt_view(&self.metadata.resolved_address),
        }
    }
}

/// A record's signature verifies, under the given scheme, against the key
/// embedded in its own signed payload.
pub open spec fn sig_ok<C: CryptDe>(c: C, r: RecView) -> bool {
    c.spec_verifies(r.inner.public_key, encode_inner(r.inner), r.signature)
}

/// Signer identity does not match the payload's embedded key.
#[derive(Debug)]
pub struct SigningError {}

/// Copies a neighbor list.
pub fn clone_key_vec(v: &Vec<PublicKey>) -> (r: Vec<PublicKey>)
    ensures
        r@.map_values(|k: PublicKey| k@) == v@.map_values(|k: PublicKey| k@),
{
    let mut out: Vec<PublicKey> = Vec::new();
    let mut i: usize = 0;
    while i < v.len()
        invariant
            i <= v.len(),
            out@.len() == i,
            forall|j: int| 0 <= j < i ==> (#[trigger] out@[j])@ == v@[j]@,
        decreases v.len() - i,
    {
        out.push(v[i].clone());
        i = i + 1;
    }
    proof {
        assert(out@.map_values(|k: PublicKey| k@) =~= v@.map_values(|k: PublicKey| k@));
    }
    out
}

/// Copies a signed payload.
pub fn clone_inner(inner: &NodeRecordInner) -> (r: NodeRecordInner)
    ensures
        r@ == inner@,
{
    NodeRecordInner {
        public_key: inner.public_key.clone(),
        network_address: clone_addr_opt(&inner.network_address),
        version: inner.version,
        neighbors: clone_key_vec(&inner.neighbors),
    }
}

/// True exactly when the list claims the given key as a neighbor.
pub fn lists_key(neighbors: &Vec<PublicKey>, k: &PublicKey) -> (r: bool)
    ensures
        r == neighbors@.map_values(|x: PublicKey| x@).contains(k@),
{
    let mut i: usize = 0;
    while i < neighbors.len()
        invariant
            i <= neighbors.len(),
            forall|j: int| 0 <= j < i ==> (#[trigger] neighbors@[j])@ != k@,
        decreases neighbors.len() - i,
    {
        if keys_equal(&neighbors[i], k) {
            proof {
                assert(neighbors@.map_values(|x: PublicKey| x@)[i as int] == k@);
            }
            return true;
        }
        i = i + 1;
    }
    proof {
        let s = neighbors@.map_values(|x: PublicKey| x@);
        assert(forall|j: int| 0 <= j < s.len() ==> #[trigger] s[j] != k@);
    }
    false
}

impl NodeRecord {
    /// Produces a record whose signature verifies against the payload's
    /// embedded key; fails exactly when the signer's identity is another key.
    /// Only the owner of a key can issue records for it.
    pub fn sign<C: CryptDe>(inner: NodeRecordInner, metadata: NodeRecordMetadata, c: &C) -> (r:
        Result<NodeRecord, SigningError>)
        ensures
            r is Ok <==> inner@.public_key == c.spec_key(),
            r matches Ok(rec) ==> {
                &&& rec@.inner == inner@
                &&& rec@.signature == c.spec_sig(encode_inner(inner@))
                &&& sig_ok(*c, rec@)
                &&& rec@.desirable == metadata.desirable
                &&& rec@.resolved_address == addr_opt_view(&metadata.resolved_address)
            },
    {
        let own = c.public_key();
        if !keys_equal(&own, &inner.public_key) {
            return Err(SigningError {});
        }
        let data = encode_inner_bytes(&inner);
        let signature = c.sign(&data);
        proof {
            c.lemma_sign_verifies(data@);
        }
        Ok(NodeRecord { inner, signature, metadata })
    }

    /// Recomputes the canonical encoding of the payload and checks the
    /// signature against the payload's own embedded key.
    pub fn verify<C: CryptDe>(&self, c: &C) -> (r: bool)
        ensures
            r == sig_ok(*c, self@),
    {
        let data = encode_inner_bytes(&self.inner);
        c.verify(&self.inner.public_key, &data, &self.signature)
    }

    /// Copies a record.
    pub fn clone(&self) -> (r: NodeRecord)
        ensures
            r@ == self@,
    {
        NodeRecord {
            inner: clone_inner(&self.inner),
            signature: self.signature.clone(),
            metadata: NodeRecordMetadata {
                desirable: self.metadata.desirable,
                resolved_address: clone_addr_opt(&self.metadata.resolved_address),
            },
        }
    }
}

/// The redacted form of a record that crosses the wire: the signed payload
/// and signature travel verbatim (verification needs them untouched); the
/// outer `network_address` is the confirmed address the sender chose to
/// disclose, and is what redaction removes. Metadata never crosses the wire.
pub struct GossipRecord {
    pub inner: NodeRecordInner,
    pub signature: Signature,
    pub network_address: Option<NetworkAddress>,
}

/// Spec-level view of a wire record.
pub ghost struct GossipRecView {
    pub inner: InnerView,
    pub signature: Seq<u8>,
    pub network_address: Option<Seq<u8>>,
}

impl View for GossipRecord {
    type V = GossipRecView;

    open spec fn view(&self) -> GossipRecView {
        GossipRecView {
            inner: self.inner@,
            signature: self.signature@,
            network_address: addr_opt_view(&self.network_address),
        }
    }
}

/// How a received wire record enters a store: claimed payload and signature
/// verbatim, marked desirable, with the disclosed address as the confirmed
/// one.
pub open spec fn grec_to_stored(g: GossipRecView) -> RecView {
    RecView {
        inner: g.inner,
        signature: g.signature,
        desirable: true,
        resolved_address: g.network_address,
    }
}

impl GossipRecord {
    /// Converts a received wire record into the form a store keeps.
    pub fn into_node_record(&self) -> (r: NodeRecord)
        ensures
            r@ == grec_to_stored(self@),
    {
        NodeRecord {
            inner: clone_inner(&self.inner),
            signature: self.signature.clone(),
            metadata: NodeRecordMetadata {
                desirable: true,
                resolved_address: clone_addr_opt(&self.network_address),
            },
        }
    }
}

/// An ordered sequence of wire records: the unit a transport carries between
/// two nodes.
pub struct Gossip {
    pub records: Vec<GossipRecord>,
}

impl View for Gossip {
    type V = Seq<GossipRecView>;

    open spec fn view(&self) -> Seq<GossipRecView> {
        self.records@.map_values(|g: GossipRecord| g@)
    }
}

} // verus!
