//! Pure construction of model topologies: building a record from plain
//! identity and state, re-issuing a model database's records at a chosen
//! version with assigned addresses, and assembling a database with a given
//! structure. Re-issuing a record on behalf of its subject needs a signer
//! for that subject's key, which only the deterministic `NullCryptDe` can
//! supply for arbitrary keys: these functions are simulation and test
//! support. In production, a record is only ever re-signed by the owner of
//! its key.
use vstd::prelude::*;

use crate::crypt::{CryptDe, NullCryptDe};
use crate::keys::{addr_opt_view, clone_addr_opt, NetworkAddress, PublicKey};
use crate::record::{
    clone_inner, clone_key_vec, encode_inner, inner_wf, lists_key, sig_ok, InnerView, NodeRecord,
    NodeRecordInner, NodeRecordMetadata, RecView, SigningError,
};
use crate::store::{admissible, TopologyStore};

verus! {

impl NodeRecord {
    /// Builds and signs a record from plain values alone: the signer's
    /// identity, the claimed address, the version and the claimed neighbors.
    /// Fails exactly when the record would claim its own subject as a
    /// neighbor.
    pub fn from_identity_and_state<C: CryptDe>(
        c: &C,
        network_address: Option<NetworkAddress>,
        resolved_address: Option<NetworkAddress>,
        version: u32,
        neighbors: Vec<PublicKey>,
    ) -> (r: Result<NodeRecord, SigningError>)
        ensures
            r is Ok <==> !neighbors@.map_values(|x: PublicKey| x@).contains(c.spec_key()),
            r matches Ok(rec) ==> {
                &&& rec@.inner == (InnerView {
                    public_key: c.spec_key(),
                    network_address: addr_opt_view(&network_address),
                    version,
                    neighbors: neighbors@.map_values(|x: PublicKey| x@),
                })
                &&& inner_wf(rec@.inner)
                &&& sig_ok(*c, rec@)
                &&& rec@.signature == c.spec_sig(encode_inner(rec@.inner))
                &&& rec@.desirable
                &&& rec@.resolved_address == addr_opt_view(&resolved_address)
            },
    {
        let own = c.public_key();
        if lists_key(&neighbors, &own) {
            return Err(SigningError {});
        }
        let inner = NodeRecordInner { public_key: own, network_address, version, neighbors };
        NodeRecord::sign(inner, NodeRecordMetadata { desirable: true, resolved_address }, c)
    }
}

/// Re-issues one model record: same subject, address and neighbor claims,
/// the given version, the given confirmed address, freshly signed by the
/// subject's own signer. Every other field — the local desirability flag
/// among them — is preserved from the model.
pub fn modify_node<C: CryptDe>(
    model: &NodeRecord,
    resolved_address: Option<NetworkAddress>,
    version: u32,
    c: &C,
) -> (r: NodeRecord)
    requires
        c.spec_key() == model@.inner.public_key,
    ensures
        r@.inner == (InnerView {
            public_key: model@.inner.public_key,
            network_address: model@.inner.network_address,
            version,
            neighbors: model@.inner.neighbors,
        }),
        r@.signature == c.spec_sig(encode_inner(r@.inner)),
        sig_ok(*c, r@),
        r@.desirable == model@.desirable,
        r@.resolved_address == addr_opt_view(&resolved_address),
{
    let inner = NodeRecordInner {
        public_key: model.inner.public_key.clone(),
        network_address: clone_addr_opt(&model.inner.network_address),
        version,
        neighbors: clone_key_vec(&model.inner.neighbors),
    };
    let metadata = NodeRecordMetadata { desirable: model.metadata.desirable, resolved_address };
    match NodeRecord::sign(inner, metadata, c) {
        Ok(r) => r,
        Err(_) => {
            proof {
                assert(false);
            }
            vstd::pervasive::unreached()
        },
    }
}

/// Creates a fresh single-record database whose root is the given record,
/// re-signed by its owner.
pub fn local_db_from_node<C: CryptDe>(node: &NodeRecord, c: &C) -> (r: TopologyStore)
    requires
        c.spec_key() == node@.inner.public_key,
        inner_wf(node@.inner),
    ensures
        r.wf(),
        r.root_key@ == node@.inner.public_key,
        r@ == Map::<Seq<u8>, RecView>::empty().insert(node@.inner.public_key, (RecView {
            inner: node@.inner,
            signature: c.spec_sig(encode_inner(node@.inner)),
            desirable: node@.desirable,
            resolved_address: node@.resolved_address,
        })),
        r.root_view().inner == node@.inner,
{
    let inner = clone_inner(&node.inner);
    let md = NodeRecordMetadata {
        desirable: node.metadata.desirable,
        resolved_address: clone_addr_opt(&node.metadata.resolved_address),
    };
    let rec = match NodeRecord::sign(inner, md, c) {
        Ok(r) => r,
        Err(_) => {
            proof {
                assert(false);
            }
            vstd::pervasive::unreached()
        },
    };
    TopologyStore::new(rec)
}

/// The address assigned to a subject by an override list: the first pair
/// naming the subject wins.
pub open spec fn spec_lookup_addr(
    assoc: Seq<(PublicKey, NetworkAddress)>,
    k: Seq<u8>,
) -> Option<Seq<u8>>
    decreases assoc.len(),
{
    if assoc.len() == 0 {
        None
    } else if assoc[0].0@ == k {
        Some(assoc[0].1@)
    } else {
        spec_lookup_addr(assoc.drop_first(), k)
    }
}

/// Looks a subject up in an address-override list.
pub fn lookup_addr(assoc: &Vec<(PublicKey, NetworkAddress)>, k: &PublicKey) -> (r: Option<
    NetworkAddress,
>)
    ensures
        addr_opt_view(&r) == spec_lookup_addr(assoc@, k@),
{
    let mut i: usize = 0;
    proof {
        assert(assoc@.skip(0) =~= assoc@);
    }
    while i < assoc.len()
        invariant
            i <= assoc.len(),
            spec_lookup_addr(assoc@.skip(i as int), k@) == spec_lookup_addr(assoc@, k@),
        decreases assoc.len() - i,
    {
        proof {
            assert(assoc@.skip(i as int)[0] == assoc@[i as int]);
            assert(assoc@.skip(i as int).drop_first() =~= assoc@.skip(i + 1 as int));
        }
        if crate::keys::keys_equal(&assoc[i].0, k) {
            return Some(assoc[i].1.clone());
        }
        i = i + 1;
    }
    proof {
        assert(assoc@.skip(assoc@.len() as int) =~= Seq::<(PublicKey, NetworkAddress)>::empty());
    }
    None
}

/// Re-issues every record of a model database at the given version, signed
/// by each subject's own deterministic signer, with each subject's confirmed
/// address taken from the override list where one is named and kept
/// otherwise; all other fields, the desirability flag among them, are
/// preserved from the model.
pub fn make_modified_node_records(
    model_db: &TopologyStore,
    addr_overrides: &Vec<(PublicKey, NetworkAddress)>,
    version: u32,
) -> (out: Vec<NodeRecord>)
    requires
        model_db.wf(),
    ensures
        out@.len() == model_db.recs().len(),
        forall|i: int|
            0 <= i < out@.len() ==> {
                let m = model_db.recs()[i];
                let r = (#[trigger] out@[i])@;
                &&& r.inner == (InnerView {
                    public_key: m.inner.public_key,
                    network_address: m.inner.network_address,
                    version,
                    neighbors: m.inner.neighbors,
                })
                &&& r.signature == r.inner.public_key + encode_inner(r.inner)
                &&& r.desirable == m.desirable
                &&& r.resolved_address == (if spec_lookup_addr(addr_overrides@,
                    m.inner.public_key) is Some {
                    spec_lookup_addr(addr_overrides@, m.inner.public_key)
                } else {
                    m.resolved_address
                })
            },
{
    let mut out: Vec<NodeRecord> = Vec::new();
    let mut i: usize = 0;
    while i < model_db.records.len()
        invariant
            model_db.wf(),
            i <= model_db.records.len(),
            out@.len() == i,
            forall|j: int|
                0 <= j < i ==> {
                    let m = model_db.recs()[j];
                    let r = (#[trigger] out@[j])@;
                    &&& r.inner == (InnerView {
                        public_key: m.inner.public_key,
                        network_address: m.inner.network_address,
                        version,
                        neighbors: m.inner.neighbors,
                    })
                    &&& r.signature == r.inner.public_key + encode_inner(r.inner)
                    &&& r.desirable == m.desirable
                    &&& r.resolved_address == (if spec_lookup_addr(addr_overrides@,
                        m.inner.public_key) is Some {
                        spec_lookup_addr(addr_overrides@, m.inner.public_key)
                    } else {
                        m.resolved_address
                    })
                },
        decreases model_db.records.len() - i,
    {
        let rec = &model_db.records[i];
        proof {
            assert(model_db.recs()[i as int] == rec@);
        }
        let addr = match lookup_addr(addr_overrides, &rec.inner.public_key) {
            Some(a) => Some(a),
            None => clone_addr_opt(&rec.metadata.resolved_address),
        };
        let null = NullCryptDe::new(rec.inner.public_key.clone());
        let modified = modify_node(rec, addr, version, &null);
        out.push(modified);
        i = i + 1;
    }
    out
}

/// The store that results from adding a sequence of records, in order,
/// through the merge gate, never touching the root's own record.
pub open spec fn add_fold<C: CryptDe>(
    c: C,
    s: Map<Seq<u8>, RecView>,
    rs: Seq<RecView>,
    rootk: Seq<u8>,
) -> Map<Seq<u8>, RecView>
    decreases rs.len(),
{
    if rs.len() == 0 {
        s
    } else {
        let prev = add_fold(c, s, rs.drop_last(), rootk);
        let r = rs.last();
        if r.inner.public_key != rootk && admissible(c, prev, r) {
            prev.insert(r.inner.public_key, r)
        } else {
            prev
        }
    }
}

proof fn lemma_add_fold_step<C: CryptDe>(
    c: C,
    s: Map<Seq<u8>, RecView>,
    rs: Seq<RecView>,
    rootk: Seq<u8>,
    i: int,
)
    requires
        0 <= i < rs.len(),
    ensures
        add_fold(c, s, rs.take(i + 1), rootk) == ({
            let prev = add_fold(c, s, rs.take(i), rootk);
            if rs[i].inner.public_key != rootk && admissible(c, prev, rs[i]) {
                prev.insert(rs[i].inner.public_key, rs[i])
            } else {
                prev
            }
        }),
{
    assert(rs.take(i + 1).drop_last() =~= rs.take(i));
    assert(rs.take(i + 1).last() == rs[i]);
}

/// Assembles a database rooted at the given record (re-signed by its owner)
/// and then folds every other given record in through the merge gate, in
/// order.
pub fn make_modified_db<C: CryptDe>(
    root_node: &NodeRecord,
    modified_nodes: &Vec<NodeRecord>,
    c: &C,
) -> (r: TopologyStore)
    requires
        c.spec_key() == root_node@.inner.public_key,
        inner_wf(root_node@.inner),
    ensures
        r.wf(),
        r.root_key@ == root_node@.inner.public_key,
        r@ == add_fold(*c, Map::<Seq<u8>, RecView>::empty().insert(root_node@.inner.public_key, (
        RecView {
            inner: root_node@.inner,
            signature: c.spec_sig(encode_inner(root_node@.inner)),
            desirable: root_node@.desirable,
            resolved_address: root_node@.resolved_address,
        })), modified_nodes@.map_values(|n: NodeRecord| n@), root_node@.inner.public_key),
{
    let mut db = local_db_from_node(root_node, c);
    let ghost s0 = db@;
    let ghost rootk = root_node@.inner.public_key;
    let ghost rsv = modified_nodes@.map_values(|n: NodeRecord| n@);
    let mut i: usize = 0;
    proof {
        assert(rsv.take(0) =~= Seq::<RecView>::empty());
    }
    while i < modified_nodes.len()
        invariant
            db.wf(),
            db.root_key@ == rootk,
            i <= modified_nodes.len(),
            rsv == modified_nodes@.map_values(|n: NodeRecord| n@),
            rsv.len() == modified_nodes@.len(),
            db@ == add_fold(*c, s0, rsv.take(i as int), rootk),
        decreases modified_nodes.len() - i,
    {
        let node = &modified_nodes[i];
        proof {
            assert(rsv[i as int] == node@);
            lemma_add_fold_step(*c, s0, rsv, rootk, i as int);
        }
        if !crate::keys::keys_equal(&node.inner.public_key, &db.root_key) {
            db.add_or_replace(node.clone(), c);
        }
        i = i + 1;
    }
    proof {
        assert(rsv.take(rsv.len() as int) =~= rsv);
    }
    db
}

} // verus!
