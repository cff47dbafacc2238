//! The gossip acceptor / merge engine. Every incoming record is verified
//! against the key embedded in its own signed payload; forged or malformed
//! records are dropped one by one without poisoning the batch; surviving
//! records are folded into the store through `add_or_replace`, so the merge
//! is monotonic, idempotent and replay-safe. If the batch leaves some subject
//! claiming the local node without the local node claiming it back, the local
//! node re-issues its own record to reciprocate, and counter-gossip for the
//! sender is produced whenever anything changed.
use vstd::prelude::*;

use crate::crypt::CryptDe;
use crate::keys::{keys_equal, PublicKey};
use crate::produce::{disclose_addr, produce_spec};
use crate::record::{
    grec_to_stored, inner_wf, lists_key, sig_ok, Gossip, GossipRecView, RecView,
};
use crate::store::{
    admissible, lemma_seq_to_map_index, re_signed_root, AddOutcome, TopologyStore,
};

verus! {

/// A wire record is valid when its signature verifies against its own
/// embedded key and its payload is well formed. Validity does not depend on
/// any store: a forged record is forged everywhere.
pub open spec fn record_valid<C: CryptDe>(c: C, g: GossipRecView) -> bool {
    sig_ok(c, grec_to_stored(g)) && inner_wf(g.inner)
}

/// The effect of one wire record on the store: stored exactly when it is
/// admissible (valid and strictly newer than what is held) and its subject
/// is not the local node — the local node's own record is never overwritten
/// by incoming data, whatever a sender claims about it.
pub open spec fn apply1<C: CryptDe>(
    c: C,
    rootk: Seq<u8>,
    s: Map<Seq<u8>, RecView>,
    g: GossipRecView,
) -> Map<Seq<u8>, RecView> {
    if g.inner.public_key != rootk && admissible(c, s, grec_to_stored(g)) {
        s.insert(g.inner.public_key, grec_to_stored(g))
    } else {
        s
    }
}

/// The effect of a whole batch, applied in order.
pub open spec fn apply_seq<C: CryptDe>(
    c: C,
    rootk: Seq<u8>,
    s: Map<Seq<u8>, RecView>,
    gs: Seq<GossipRecView>,
) -> Map<Seq<u8>, RecView>
    decreases gs.len(),
{
    if gs.len() == 0 {
        s
    } else {
        apply1(c, rootk, apply_seq(c, rootk, s, gs.drop_last()), gs.last())
    }
}

/// How many records of the batch are forged or malformed.
pub open spec fn count_invalid<C: CryptDe>(c: C, gs: Seq<GossipRecView>) -> nat
    decreases gs.len(),
{
    if gs.len() == 0 {
        0
    } else {
        count_invalid(c, gs.drop_last()) + if !record_valid(c, gs.last()) {
            1nat
        } else {
            0nat
        }
    }
}

/// The store-dependent part of the reciprocation test: the subject exists,
/// is not the local node, and claims the local node as a neighbor.
pub open spec fn recip_static_ok(s: Map<Seq<u8>, RecView>, rootk: Seq<u8>, k: Seq<u8>) -> bool {
    k != rootk && s.contains_key(k) && s[k].inner.neighbors.contains(rootk)
}

/// Folds the batch subjects, in order, into the local node's neighbor list:
/// each subject that claims the local node and is not yet claimed back is
/// appended once.
pub open spec fn recip_fold(
    s: Map<Seq<u8>, RecView>,
    rootk: Seq<u8>,
    ns: Seq<Seq<u8>>,
    gs: Seq<GossipRecView>,
) -> Seq<Seq<u8>>
    decreases gs.len(),
{
    if gs.len() == 0 {
        ns
    } else {
        let k = gs[0].inner.public_key;
        let ns1 = if recip_static_ok(s, rootk, k) && !ns.contains(k) {
            ns.push(k)
        } else {
            ns
        };
        recip_fold(s, rootk, ns1, gs.drop_first())
    }
}

/// The full effect of accepting a batch: merge every admissible record, then
/// reciprocate any new half-neighbor edge pointing at the local node by
/// re-issuing the root record (version advanced, re-signed), unless the root
/// version can no longer be advanced.
pub open spec fn accept_effect<C: CryptDe>(
    c: C,
    s: Map<Seq<u8>, RecView>,
    rootk: Seq<u8>,
    gs: Seq<GossipRecView>,
) -> Map<Seq<u8>, RecView> {
    let s1 = apply_seq(c, rootk, s, gs);
    let ns0 = s1[rootk].inner.neighbors;
    let ns1 = recip_fold(s1, rootk, ns0, gs);
    if ns1 == ns0 || s1[rootk].inner.version >= 0xffff_ffffu32 {
        s1
    } else {
        s1.insert(rootk, re_signed_root(c, s1[rootk], ns1))
    }
}

proof fn lemma_apply_seq_step<C: CryptDe>(
    c: C,
    rootk: Seq<u8>,
    s: Map<Seq<u8>, RecView>,
    gs: Seq<GossipRecView>,
    i: int,
)
    requires
        0 <= i < gs.len(),
    ensures
        apply_seq(c, rootk, s, gs.take(i + 1)) == apply1(c, rootk, apply_seq(c, rootk, s, gs.take(
            i)), gs[i]),
{
    assert(gs.take(i + 1).drop_last() =~= gs.take(i));
    assert(gs.take(i + 1).last() == gs[i]);
}

proof fn lemma_count_invalid_step<C: CryptDe>(c: C, gs: Seq<GossipRecView>, i: int)
    requires
        0 <= i < gs.len(),
    ensures
        count_invalid(c, gs.take(i + 1)) == count_invalid(c, gs.take(i)) + if !record_valid(c,
            gs[i]) {
            1nat
        } else {
            0nat
        },
{
    assert(gs.take(i + 1).drop_last() =~= gs.take(i));
    assert(gs.take(i + 1).last() == gs[i]);
}

/// What `accept` reports back: whether the store changed, the counter-gossip
/// for the sender if it did, and how many records of the batch were dropped
/// as forged or malformed.
pub struct AcceptOutcome {
    pub store_changed: bool,
    pub reply: Option<Gossip>,
    pub invalid_records: usize,
}

impl TopologyStore {
    /// Merges an incoming gossip payload from `sender_key` into the store.
    /// Each record is verified and applied independently: one bad record
    /// never blocks the rest. Stale records are ignored, records claiming to
    /// be the local node's own are ignored whatever their version (only the
    /// owner re-issues that record), new half-neighbor edges pointing at the
    /// local node are reciprocated, and counter-gossip for the sender is
    /// produced exactly when the store's content changed.
    pub fn accept<C: CryptDe>(&mut self, sender_key: &PublicKey, gossip: &Gossip, c: &C) -> (out:
        AcceptOutcome)
        requires
            old(self).wf(),
            c.spec_key() == old(self).root_key@,
        ensures
            final(self).wf(),
            final(self).root_key@ == old(self).root_key@,
            final(self)@ == accept_effect(*c, old(self)@, old(self).root_key@, gossip@),
            out.invalid_records as nat == count_invalid(*c, gossip@),
            out.store_changed == (final(self)@ != old(self)@),
            out.reply is Some <==> out.store_changed,
            out.reply matches Some(g) ==> g@ == produce_spec(final(self)@, old(self).root_key@,
                sender_key@, final(self).recs()),
            out.reply matches Some(g) ==> forall|i: int|
                0 <= i < g@.len() && !disclose_addr(final(self)@, sender_key@, (
                #[trigger] g@[i]).inner.public_key) ==> g@[i].network_address is None,
    {
        let ghost s0 = old(self)@;
        let ghost rootk = old(self).root_key@;
        let ghost gsv = gossip@;
        let mut changed = false;
        let ghost mut wk: Seq<u8> = Seq::empty();
        let mut invalid: usize = 0;
        let mut i: usize = 0;
        proof {
            assert(gsv.take(0) =~= Seq::<GossipRecView>::empty());
            lemma_seq_to_map_index(old(self).recs(), 0);
            assert(s0.contains_key(rootk));
        }
        while i < gossip.records.len()
            invariant
                self.wf(),
                self.root_key@ == rootk,
                c.spec_key() == rootk,
                gossip@ == gsv,
                s0.contains_key(rootk),
                i <= gossip.records.len(),
                gsv.len() == gossip.records.len(),
                self@ == apply_seq(*c, rootk, s0, gsv.take(i as int)),
                invalid as nat == count_invalid(*c, gsv.take(i as int)),
                invalid <= i,
                forall|k: Seq<u8>|
                    s0.contains_key(k) ==> #[trigger] self@.contains_key(k)
                        && s0[k].inner.version <= self@[k].inner.version,
                changed ==> self@.contains_key(wk) && (!s0.contains_key(wk)
                    || s0[wk].inner.version < self@[wk].inner.version),
                !changed ==> self@ == s0,
            decreases gossip.records.len() - i,
        {
            let grec = &gossip.records[i];
            proof {
                assert(gsv[i as int] == grec@);
            }
            let nrec = grec.into_node_record();
            let valid = nrec.verify(c) && !lists_key(&nrec.inner.neighbors, &nrec.inner.public_key);
            proof {
                assert(valid == record_valid(*c, gsv[i as int]));
                lemma_count_invalid_step(*c, gsv, i as int);
                lemma_apply_seq_step(*c, rootk, s0, gsv, i as int);
            }
            if !valid {
                invalid = invalid + 1;
            }
            let ghost prev = self@;
            let ghost rv = nrec@;
            let outcome = self.add_or_replace(nrec, c);
            proof {
                assert(self@ == apply1(*c, rootk, prev, gsv[i as int]));
            }
            match outcome {
                AddOutcome::StaleOrInvalid => {
                    proof {
                        assert(self@ == prev);
                    }
                },
                _ => {
                    changed = true;
                    proof {
                        wk = rv.inner.public_key;
                        if rv.inner.public_key == rootk || !admissible(*c, prev, rv) {
                            assert(outcome == AddOutcome::StaleOrInvalid);
                            assert(false);
                        }
                        assert(admissible(*c, prev, rv));
                        assert(self@ == prev.insert(wk, rv));
                        if s0.contains_key(wk) {
                            assert(s0[wk].inner.version <= prev[wk].inner.version);
                        }
                        assert forall|k2: Seq<u8>| s0.contains_key(k2) implies #[trigger] self@.contains_key(
                            k2) && s0[k2].inner.version <= self@[k2].inner.version by {
                            assert(prev.contains_key(k2));
                            if k2 == wk {
                                assert(prev[wk].inner.version < rv.inner.version);
                            } else {
                                assert(self@[k2] == prev[k2]);
                            }
                        }
                    }
                },
            }
            i = i + 1;
        }
        proof {
            assert(gsv.take(gsv.len() as int) =~= gsv);
        }
        let ghost s1 = self@;
        proof {
            lemma_seq_to_map_index(self.recs(), 0);
            assert(s1[rootk] == self.recs()[0]);
        }
        let ghost ns0 = s1[rootk].inner.neighbors;
        let ghost mut ns_cur: Seq<Seq<u8>> = ns0;
        let mut to_add: Vec<PublicKey> = Vec::new();
        let mut j: usize = 0;
        proof {
            assert(gsv.skip(0) =~= gsv);
        }
        while j < gossip.records.len()
            invariant
                self.wf(),
                self.root_key@ == rootk,
                self@ == s1,
                gossip@ == gsv,
                j <= gossip.records.len(),
                gsv.len() == gossip.records.len(),
                s0.contains_key(rootk),
                s0[rootk].inner.version <= s1[rootk].inner.version,
                s1.contains_key(rootk),
                s1[rootk] == self.recs()[0],
                ns0 == s1[rootk].inner.neighbors,
                ns_cur.len() == ns0.len() + to_add@.len(),
                forall|jj: int| 0 <= jj < ns0.len() ==> #[trigger] ns_cur[jj] == ns0[jj],
                forall|jj: int|
                    ns0.len() <= jj < ns_cur.len() ==> #[trigger] ns_cur[jj] == to_add@[jj
                        - ns0.len()]@,
                forall|jj: int| 0 <= jj < to_add@.len() ==> (#[trigger] to_add@[jj])@ != rootk,
                recip_fold(s1, rootk, ns_cur, gsv.skip(j as int)) == recip_fold(s1, rootk, ns0,
                    gsv),
            decreases gossip.records.len() - j,
        {
            let k = &gossip.records[j].inner.public_key;
            proof {
                assert(gsv[j as int] == gossip.records@[j as int]@);
                assert(gsv[j as int].inner.public_key == k@);
            }
            let static_ok = !keys_equal(k, &self.root_key) && (match self.node_by_key(k) {
                Some(rec) => lists_key(&rec.inner.neighbors, &self.root_key),
                None => false,
            });
            proof {
                assert(static_ok == recip_static_ok(s1, rootk, k@));
            }
            let in_ns0 = lists_key(&self.records[0].inner.neighbors, k);
            let in_to_add = lists_key(&to_add, k);
            proof {
                assert(self.recs()[0] == self.records@[0]@);
                assert(in_ns0 == ns0.contains(k@));
                assert(in_to_add == to_add@.map_values(|x: PublicKey| x@).contains(k@));
                if ns_cur.contains(k@) {
                    let jj = choose|jj: int| 0 <= jj < ns_cur.len() && ns_cur[jj] == k@;
                    if jj < ns0.len() {
                        assert(ns0[jj] == k@);
                        assert(ns0.contains(k@));
                    } else {
                        assert(to_add@[jj - ns0.len()]@ == k@);
                        assert(to_add@.map_values(|x: PublicKey| x@)[jj - ns0.len()] == k@);
                        assert(to_add@.map_values(|x: PublicKey| x@).contains(k@));
                    }
                }
                if ns0.contains(k@) {
                    let jj = choose|jj: int| 0 <= jj < ns0.len() && ns0[jj] == k@;
                    assert(ns_cur[jj] == k@);
                    assert(ns_cur.contains(k@));
                }
                if to_add@.map_values(|x: PublicKey| x@).contains(k@) {
                    let m = to_add@.map_values(|x: PublicKey| x@);
                    let jj = choose|jj: int| 0 <= jj < m.len() && #[trigger] m[jj] == k@;
                    assert(ns_cur[ns0.len() + jj] == k@);
                    assert(ns_cur.contains(k@));
                }
                assert((in_ns0 || in_to_add) == ns_cur.contains(k@));
            }
            let ghost ns_prev = ns_cur;
            if static_ok && !(in_ns0 || in_to_add) {
                to_add.push(k.clone());
                proof {
                    ns_cur = ns_cur.push(k@);
                }
            }
            proof {
                assert(gsv.skip(j as int)[0] == gsv[j as int]);
                assert(gsv.skip(j as int).drop_first() =~= gsv.skip(j + 1 as int));
                assert(recip_fold(s1, rootk, ns_prev, gsv.skip(j as int)) == recip_fold(s1, rootk,
                    ns_cur, gsv.skip(j + 1 as int)));
            }
            j = j + 1;
        }
        proof {
            assert(gsv.skip(gsv.len() as int) =~= Seq::<GossipRecView>::empty());
            assert(recip_fold(s1, rootk, ns_cur, gsv.skip(gsv.len() as int)) == ns_cur);
        }
        let ghost ns1 = recip_fold(s1, rootk, ns0, gsv);
        proof {
            assert(ns1 == ns_cur);
        }
        if to_add.len() > 0 && self.records[0].inner.version < 0xffff_ffffu32 {
            proof {
                assert(self.recs()[0] == self.records@[0]@);
                assert(s1[rootk].inner.version < 0xffff_ffffu32);
                assert(ns1.len() > ns0.len());
                assert(ns1 != ns0);
                assert(ns_cur =~= ns0 + to_add@.map_values(|x: PublicKey| x@));
            }
            self.extend_root_neighbors(&to_add, c);
            proof {
                assert(self@ == s1.insert(rootk, re_signed_root(*c, s1[rootk], ns1)));
                wk = rootk;
                assert(s0.contains_key(rootk));
                assert(s0[rootk].inner.version <= s1[rootk].inner.version);
                assert(self@[rootk].inner.version == s1[rootk].inner.version + 1);
            }
            changed = true;
        } else {
            proof {
                if to_add.len() == 0 {
                    assert(ns_cur =~= ns0);
                    assert(ns1 == ns0);
                } else {
                    assert(self.recs()[0] == self.records@[0]@);
                    assert(s1[rootk].inner.version >= 0xffff_ffffu32);
                }
                assert(self@ == accept_effect(*c, s0, rootk, gsv));
            }
        }
        proof {
            if changed {
                assert(self@.contains_key(wk));
                if self@ == s0 {
                    assert(self@[wk] == s0[wk]);
                    assert(false);
                }
            }
        }
        let reply = if changed {
            Some(self.produce(sender_key))
        } else {
            None
        };
        AcceptOutcome { store_changed: changed, reply, invalid_records: invalid }
    }
}

} // verus!
