//! The pluggable signer/verifier boundary. A `CryptDe` bundles one node's
//! identity with the deployment's signature scheme; the protocol engine is
//! generic over it and relies only on the contracts below. `NullCryptDe` is
//! the deterministic scheme shipped with the library for reproducible tests
//! and simulations; production deployments implement `CryptDe` with a real
//! asymmetric scheme instead of defaulting to it.
use vstd::prelude::*;

use crate::keys::{clone_bytes, PublicKey, Signature};

verus! {

/// One node's sign/verify capability. `spec_verifies` is the scheme's
/// acceptance relation; `sign` must produce signatures that the scheme
/// accepts for this identity's own key, which `lemma_sign_verifies` records.
pub trait CryptDe: Sized {
    /// The public key of the identity this capability signs for.
    spec fn spec_key(&self) -> Seq<u8>;

    /// The signature this identity produces over the given bytes.
    spec fn spec_sig(&self, data: Seq<u8>) -> Seq<u8>;

    /// The scheme's acceptance relation: does `sig` verify as a signature by
    /// the holder of `key` over `data`?
    spec fn spec_verifies(&self, key: Seq<u8>, data: Seq<u8>, sig: Seq<u8>) -> bool;

    /// Signatures made by this identity verify against its own key.
    proof fn lemma_sign_verifies(&self, data: Seq<u8>)
        ensures
            self.spec_verifies(self.spec_key(), data, self.spec_sig(data)),
    ;

    fn public_key(&self) -> (k: PublicKey)
        ensures
            k@ == self.spec_key(),
    ;

    fn sign(&self, data: &Vec<u8>) -> (s: Signature)
        ensures
            s@ == self.spec_sig(data@),
    ;

    fn verify(&self, key: &PublicKey, data: &Vec<u8>, sig: &Signature) -> (r: bool)
        ensures
            r == self.spec_verifies(key@, data@, sig@),
    ;
}

/// Deterministic stand-in scheme: the signature over `data` by the holder of
/// `key` is `key` followed by `data`. Anyone can produce it, so it proves
/// nothing cryptographically; it exists so that multi-node exchanges can be
/// exercised deterministically. It must not be the scheme of a real
/// deployment.
pub struct NullCryptDe {
    pub key: PublicKey,
}

impl NullCryptDe {
    pub fn new(key: PublicKey) -> (r: NullCryptDe)
        ensures
            r.spec_key() == key@,
    {
        NullCryptDe { key }
    }
}

impl CryptDe for NullCryptDe {
    open spec fn spec_key(&self) -> Seq<u8> {
        self.key@
    }

    open spec fn spec_sig(&self, data: Seq<u8>) -> Seq<u8> {
        self.key@ + data
    }

    open spec fn spec_verifies(&self, key: Seq<u8>, data: Seq<u8>, sig: Seq<u8>) -> bool {
        sig == key + data
    }

    proof fn lemma_sign_verifies(&self, data: Seq<u8>)
    {
    }

    fn public_key(&self) -> (k: PublicKey)
    {
        self.key.clone()
    }

    fn sign(&self, data: &Vec<u8>) -> (s: Signature)
    {
        let mut out = clone_bytes(&self.key.bytes);
        let mut i: usize = 0;
        while i < data.len()
            invariant
                i <= data.len(),
                out@ == self.key@ + data@.take(i as int),
            decreases data.len() - i,
        {
            out.push(data[i]);
            proof {
                assert((self.key@ + data@.take(i as int)).push(data@[i as int]) =~= self.key@
                    + data@.take(i + 1 as int));
            }
            i = i + 1;
        }
        proof {
            assert(data@.take(data@.len() as int) =~= data@);
        }
        Signature { bytes: out }
    }

    fn verify(&self, key: &PublicKey, data: &Vec<u8>, sig: &Signature) -> (r: bool)
    {
        let mut expected = clone_bytes(&key.bytes);
        let mut i: usize = 0;
        while i < data.len()
            invariant
                i <= data.len(),
                expected@ == key@ + data@.take(i as int),
            decreases data.len() - i,
        {
            expected.push(data[i]);
            proof {
                assert((key@ + data@.take(i as int)).push(data@[i as int]) =~= key@ + data@.take(
                    i + 1 as int));
            }
            i = i + 1;
        }
        proof {
            assert(data@.take(data@.len() as int) =~= data@);
        }
        crate::keys::bytes_equal(&expected, &sig.bytes)
    }
}

} // verus!
