//! Plain byte-string identities used throughout the protocol: public keys,
//! network addresses and signatures are all opaque byte strings to this
//! engine; their structure belongs to the deployment, not to the protocol.
use vstd::prelude::*;

verus! {

/// Copies a byte vector; the copy has exactly the bytes of the original.
pub fn clone_bytes(v: &Vec<u8>) -> (r: Vec<u8>)
    ensures
        r@ == v@,
{
    let mut out: Vec<u8> = Vec::new();
    let mut i: usize = 0;
    while i < v.len()
        invariant
            i <= v.len(),
            out@ == v@.take(i as int),
        decreases v.len() - i,
    {
        out.push(v[i]);
        proof {
            assert(v@.take(i as int).push(v@[i as int]) =~= v@.take(i + 1 as int));
        }
        i = i + 1;
    }
    proof {
        assert(v@.take(v@.len() as int) =~= v@);
    }
    out
}

/// Compares two byte vectors for equality of contents.
pub fn bytes_equal(a: &Vec<u8>, b: &Vec<u8>) -> (r: bool)
    ensures
        r == (a@ == b@),
{
    if a.len() != b.len() {
        return false;
    }
    let mut i: usize = 0;
    while i < a.len()
        invariant
            i <= a.len(),
            a@.len() == b@.len(),
            forall|j: int| 0 <= j < i ==> a@[j] == b@[j],
        decreases a.len() - i,
    {
        if a[i] != b[i] {
            return false;
        }
        i = i + 1;
    }
    proof {
        assert(a@ =~= b@);
    }
    true
}

/// Opaque, fixed-form identifier for a node; the unique key of every record
/// and of the topology store.
#[derive(Debug)]
pub struct PublicKey {
    pub bytes: Vec<u8>,
}

impl View for PublicKey {
    type V = Seq<u8>;

    open spec fn view(&self) -> Seq<u8> {
        self.bytes@
    }
}

impl PublicKey {
    pub fn new(bytes: Vec<u8>) -> (r: PublicKey)
        ensures
            r@ == bytes@,
    {
        PublicKey { bytes }
    }

    pub fn clone(&self) -> (r: PublicKey)
        ensures
            r@ == self@,
    {
        PublicKey { bytes: clone_bytes(&self.bytes) }
    }
}

impl PartialEq for PublicKey {
    fn eq(&self, other: &PublicKey) -> (r: bool) {
        bytes_equal(&self.bytes, &other.bytes)
    }
}

impl vstd::std_specs::cmp::PartialEqSpecImpl for PublicKey {
    open spec fn obeys_eq_spec() -> bool {
        true
    }

    open spec fn eq_spec(&self, other: &PublicKey) -> bool {
        self.bytes@ == other.bytes@
    }
}

/// Compares two keys; true exactly when they identify the same node.
pub fn keys_equal(a: &PublicKey, b: &PublicKey) -> (r: bool)
    ensures
        r == (a@ == b@),
{
    bytes_equal(&a.bytes, &b.bytes)
}

/// Reachability information for a node, opaque to the protocol; absent for
/// nodes known only by reference.
#[derive(Debug)]
pub struct NetworkAddress {
    pub bytes: Vec<u8>,
}

impl View for NetworkAddress {
    type V = Seq<u8>;

    open spec fn view(&self) -> Seq<u8> {
        self.bytes@
    }
}

impl NetworkAddress {
    pub fn new(bytes: Vec<u8>) -> (r: NetworkAddress)
        ensures
            r@ == bytes@,
    {
        NetworkAddress { bytes }
    }

    pub fn clone(&self) -> (r: NetworkAddress)
        ensures
            r@ == self@,
    {
        NetworkAddress { bytes: clone_bytes(&self.bytes) }
    }
}

/// A signature over the canonical encoding of a record's signed payload.
#[derive(Debug)]
pub struct Signature {
    pub bytes: Vec<u8>,
}

impl View for Signature {
    type V = Seq<u8>;

    open spec fn view(&self) -> Seq<u8> {
        self.bytes@
    }
}

impl Signature {
    pub fn new(bytes: Vec<u8>) -> (r: Signature)
        ensures
            r@ == bytes@,
    {
        Signature { bytes }
    }

    pub fn clone(&self) -> (r: Signature)
        ensures
            r@ == self@,
    {
        Signature { bytes: clone_bytes(&self.bytes) }
    }
}

/// The spec-level view of an optional address.
pub open spec fn addr_opt_view(a: &Option<NetworkAddress>) -> Option<Seq<u8>> {
    match a {
        Some(x) => Some(x@),
        None => None,
    }
}

/// Copies an optional address.
pub fn clone_addr_opt(a: &Option<NetworkAddress>) -> (r: Option<NetworkAddress>)
    ensures
        addr_opt_view(&r) == addr_opt_view(a),
{
    match a {
        Some(x) => Some(x.clone()),
        None => None,
    }
}

} // verus!
