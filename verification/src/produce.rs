//! The gossip producer: computes, for one specific recipient, the disclosure
//! set of the local store. This is the privacy control of the protocol: the
//! signed payloads and signatures travel verbatim (the receiver must be able
//! to verify them), while the confirmed address of a subject is disclosed
//! only to peers entitled to it and redacted for everyone else.
use vstd::prelude::*;

use crate::keys::{clone_addr_opt, keys_equal, PublicKey};
use crate::record::{clone_inner, Gossip, GossipRecView, GossipRecord, RecView};
use crate::store::{is_full_neighbor, TopologyStore};

verus! {

/// May the subject's confirmed address be disclosed to the recipient? Only
/// when the subject is the recipient itself (re-learning its own data), or
/// the subject and the recipient are already mutually known to each other in
/// the local view — which covers the local node's own address travelling to
/// its full neighbors. Addresses are redacted for strangers: a record for a
/// distant subject is disclosed without one.
///
/// The rule is deliberately keyed to the subject-recipient pair, not to the
/// producing node's own edges. A rule that disclosed the addresses of the
/// producer's full neighbors to whoever it gossips with would hand a
/// subject's address to total strangers as soon as the subject neighbors
/// the producer, and would never let the producer's own address reach the
/// very counterpart it is converging with; full-neighbor status with the
/// peer in question is what authorizes disclosure to that peer.
pub open spec fn disclose_addr(s: Map<Seq<u8>, RecView>, rcpt: Seq<u8>, subj: Seq<u8>) -> bool {
    subj == rcpt || is_full_neighbor(s, subj, rcpt)
}

/// The wire form of one stored record: payload and signature verbatim, the
/// confirmed address only if disclosure is allowed.
pub open spec fn gossip_form(r: RecView, disclose: bool) -> GossipRecView {
    GossipRecView {
        inner: r.inner,
        signature: r.signature,
        network_address: if disclose {
            r.resolved_address
        } else {
            None
        },
    }
}

/// The full disclosure set, in the store's insertion order: the local node's
/// own record always, every other held record whose subject is marked
/// desirable, each with its address disclosed or redacted per
/// `disclose_addr`.
pub open spec fn produce_spec(
    s: Map<Seq<u8>, RecView>,
    rootk: Seq<u8>,
    rcpt: Seq<u8>,
    rs: Seq<RecView>,
) -> Seq<GossipRecView>
    decreases rs.len(),
{
    if rs.len() == 0 {
        Seq::empty()
    } else {
        let rest = produce_spec(s, rootk, rcpt, rs.drop_last());
        let r = rs.last();
        if r.inner.public_key == rootk || r.desirable {
            rest.push(gossip_form(r, disclose_addr(s, rcpt, r.inner.public_key)))
        } else {
            rest
        }
    }
}

proof fn lemma_produce_spec_step(
    s: Map<Seq<u8>, RecView>,
    rootk: Seq<u8>,
    rcpt: Seq<u8>,
    rs: Seq<RecView>,
    i: int,
)
    requires
        0 <= i < rs.len(),
    ensures
        produce_spec(s, rootk, rcpt, rs.take(i + 1)) == if rs[i].inner.public_key == rootk
            || rs[i].desirable {
            produce_spec(s, rootk, rcpt, rs.take(i)).push(gossip_form(rs[i], disclose_addr(s,
                rcpt, rs[i].inner.public_key)))
        } else {
            produce_spec(s, rootk, rcpt, rs.take(i))
        },
{
    assert(rs.take(i + 1).drop_last() =~= rs.take(i));
    assert(rs.take(i + 1).last() == rs[i]);
}

/// Every record in a disclosure set carries an address only where
/// `disclose_addr` allows it.
pub proof fn lemma_produce_spec_redacts(
    s: Map<Seq<u8>, RecView>,
    rootk: Seq<u8>,
    rcpt: Seq<u8>,
    rs: Seq<RecView>,
)
    ensures
        forall|i: int|
            0 <= i < produce_spec(s, rootk, rcpt, rs).len() && !disclose_addr(s, rcpt, (
            #[trigger] produce_spec(s, rootk, rcpt, rs)[i]).inner.public_key) ==> produce_spec(s,
                rootk, rcpt, rs)[i].network_address is None,
    decreases rs.len(),
{
    if rs.len() > 0 {
        lemma_produce_spec_redacts(s, rootk, rcpt, rs.drop_last());
    }
}

impl TopologyStore {
    /// Builds the Standard gossip to send to `recipient`: the local node's
    /// own record plus every desirable held record, payloads and signatures
    /// verbatim, addresses redacted for subjects the recipient may not learn
    /// addresses of. A subject's address is never included unless the
    /// subject is the recipient itself or already mutually known to it.
    pub fn produce(&self, recipient: &PublicKey) -> (out: Gossip)
        requires
            self.wf(),
        ensures
            out@ == produce_spec(self@, self.root_key@, recipient@, self.recs()),
            forall|i: int|
                0 <= i < out@.len() && !disclose_addr(self@, recipient@, (
                #[trigger] out@[i]).inner.public_key) ==> out@[i].network_address is None,
    {
        let mut records: Vec<GossipRecord> = Vec::new();
        let ghost mut outv: Seq<GossipRecView> = Seq::empty();
        let mut i: usize = 0;
        proof {
            assert(self.recs().take(0) =~= Seq::<RecView>::empty());
        }
        while i < self.records.len()
            invariant
                self.wf(),
                i <= self.records.len(),
                outv == produce_spec(self@, self.root_key@, recipient@, self.recs().take(i as int)),
                records@.len() == outv.len(),
                forall|j: int| 0 <= j < records@.len() ==> (#[trigger] records@[j])@ == outv[j],
            decreases self.records.len() - i,
        {
            let rec = &self.records[i];
            proof {
                assert(self.recs()[i as int] == rec@);
            }
            let chosen = keys_equal(&rec.inner.public_key, &self.root_key)
                || rec.metadata.desirable;
            if chosen {
                let subj = &rec.inner.public_key;
                let disclose = keys_equal(subj, recipient) || self.full_neighbor(subj, recipient);
                let g = GossipRecord {
                    inner: clone_inner(&rec.inner),
                    signature: rec.signature.clone(),
                    network_address: if disclose {
                        clone_addr_opt(&rec.metadata.resolved_address)
                    } else {
                        None
                    },
                };
                proof {
                    assert(g@ == gossip_form(self.recs()[i as int], disclose_addr(self@,
                        recipient@, self.recs()[i as int].inner.public_key)));
                }
                records.push(g);
                proof {
                    outv = outv.push(gossip_form(self.recs()[i as int], disclose_addr(self@,
                        recipient@, self.recs()[i as int].inner.public_key)));
                }
            }
            proof {
                lemma_produce_spec_step(self@, self.root_key@, recipient@, self.recs(), i as int);
            }
            i = i + 1;
        }
        proof {
            assert(self.recs().take(self.recs().len() as int) =~= self.recs());
        }
        let out = Gossip { records };
        proof {
            assert(out@ =~= produce_spec(self@, self.root_key@, recipient@, self.recs()));
            lemma_produce_spec_redacts(self@, self.root_key@, recipient@, self.recs());
        }
        out
    }

    /// Builds a Debut: a single-record gossip holding only the local node's
    /// own record, with its confirmed address disclosed so the prospective
    /// neighbor can reply.
    pub fn produce_debut(&self) -> (out: Gossip)
        requires
            self.wf(),
        ensures
            out@ == seq![gossip_form(self.root_view(), true)],
    {
        let root = self.root();
        let g = GossipRecord {
            inner: clone_inner(&root.inner),
            signature: root.signature.clone(),
            network_address: clone_addr_opt(&root.metadata.resolved_address),
        };
        let mut records: Vec<GossipRecord> = Vec::new();
        records.push(g);
        let out = Gossip { records };
        proof {
            assert(out@ =~= seq![gossip_form(self.root_view(), true)]);
        }
        out
    }
}

} // verus!
