//! The protocol's convergence laws, stated over the merge engine's own spec
//! model (`apply1`, `apply_seq`, `accept_effect`) and proved once and for
//! all: merging is monotonic in versions, replay-safe, rejects forgeries,
//! and isolates bad records from the rest of their batch.
use vstd::prelude::*;

use crate::accept::{
    accept_effect, apply1, apply_seq, recip_fold, recip_static_ok, record_valid,
};
use crate::crypt::CryptDe;
use crate::record::{grec_to_stored, GossipRecView, RecView};

verus! {

/// A record whose signature does not verify against its embedded public key
/// is never stored, regardless of its claimed version.
pub proof fn lemma_forgery_rejected<C: CryptDe>(
    c: C,
    rootk: Seq<u8>,
    s: Map<Seq<u8>, RecView>,
    g: GossipRecView,
)
    requires
        !crate::record::sig_ok(c, grec_to_stored(g)),
    ensures
        apply1(c, rootk, s, g) == s,
{
}

/// Monotonic merge: two valid records for the same subject, the second
/// strictly newer, applied in either order to a store that does not already
/// hold something newer than the second, leave the same store, holding the
/// newer record.
pub proof fn lemma_monotonic_merge<C: CryptDe>(
    c: C,
    rootk: Seq<u8>,
    s: Map<Seq<u8>, RecView>,
    g1: GossipRecView,
    g2: GossipRecView,
)
    requires
        g1.inner.public_key == g2.inner.public_key,
        g2.inner.public_key != rootk,
        g1.inner.version < g2.inner.version,
        record_valid(c, g1),
        record_valid(c, g2),
        !s.contains_key(g2.inner.public_key) || s[g2.inner.public_key].inner.version
            < g2.inner.version,
    ensures
        apply1(c, rootk, apply1(c, rootk, s, g1), g2) == apply1(c, rootk, apply1(c, rootk, s, g2),
            g1),
        apply1(c, rootk, apply1(c, rootk, s, g1), g2)[g2.inner.public_key] == grec_to_stored(g2),
{
    let k = g2.inner.public_key;
    assert(apply1(c, rootk, apply1(c, rootk, s, g2), g1) == s.insert(k, grec_to_stored(g2)));
    if admissible_here(c, s, g1) {
        assert(apply1(c, rootk, s, g1) == s.insert(k, grec_to_stored(g1)));
        assert(apply1(c, rootk, apply1(c, rootk, s, g1), g2) == s.insert(k, grec_to_stored(
            g1)).insert(k, grec_to_stored(g2)));
        assert(s.insert(k, grec_to_stored(g1)).insert(k, grec_to_stored(g2)) =~= s.insert(k,
            grec_to_stored(g2)));
    } else {
        assert(apply1(c, rootk, s, g1) == s);
    }
}

/// Shorthand for `apply1`'s gate, used only inside this module's proofs.
spec fn admissible_here<C: CryptDe>(c: C, s: Map<Seq<u8>, RecView>, g: GossipRecView) -> bool {
    crate::store::admissible(c, s, grec_to_stored(g))
}

/// Merging never loses a subject and never lowers the version held for one.
pub proof fn lemma_apply_seq_monotone<C: CryptDe>(
    c: C,
    rootk: Seq<u8>,
    s: Map<Seq<u8>, RecView>,
    gs: Seq<GossipRecView>,
    k: Seq<u8>,
)
    requires
        s.contains_key(k),
    ensures
        apply_seq(c, rootk, s, gs).contains_key(k),
        s[k].inner.version <= apply_seq(c, rootk, s, gs)[k].inner.version,
    decreases gs.len(),
{
    if gs.len() > 0 {
        lemma_apply_seq_monotone(c, rootk, s, gs.drop_last(), k);
    }
}

/// After a merge, every valid record of the batch whose subject is not the
/// local node is covered: the store holds its subject at that record's
/// version or newer.
pub proof fn lemma_apply_seq_covers<C: CryptDe>(
    c: C,
    rootk: Seq<u8>,
    s: Map<Seq<u8>, RecView>,
    gs: Seq<GossipRecView>,
    i: int,
)
    requires
        0 <= i < gs.len(),
        record_valid(c, gs[i]),
        gs[i].inner.public_key != rootk,
    ensures
        apply_seq(c, rootk, s, gs).contains_key(gs[i].inner.public_key),
        gs[i].inner.version <= apply_seq(c, rootk, s, gs)[gs[i].inner.public_key].inner.version,
    decreases gs.len(),
{
    let k = gs[i].inner.public_key;
    let prev = apply_seq(c, rootk, s, gs.drop_last());
    if i == gs.len() - 1 {
        if !admissible_here(c, prev, gs[i]) {
            assert(prev.contains_key(k) && gs[i].inner.version <= prev[k].inner.version);
        }
    } else {
        assert(gs.drop_last()[i] == gs[i]);
        lemma_apply_seq_covers(c, rootk, s, gs.drop_last(), i);
    }
}

/// A batch already fully covered by the store leaves it untouched.
pub proof fn lemma_apply_seq_noop<C: CryptDe>(
    c: C,
    rootk: Seq<u8>,
    t: Map<Seq<u8>, RecView>,
    gs: Seq<GossipRecView>,
)
    requires
        forall|i: int|
            0 <= i < gs.len() && record_valid(c, #[trigger] gs[i]) && gs[i].inner.public_key
                != rootk ==> t.contains_key(gs[i].inner.public_key) && gs[i].inner.version
                <= t[gs[i].inner.public_key].inner.version,
    ensures
        apply_seq(c, rootk, t, gs) == t,
    decreases gs.len(),
{
    if gs.len() > 0 {
        assert(forall|i: int| 0 <= i < gs.len() - 1 ==> gs.drop_last()[i] == gs[i]);
        lemma_apply_seq_noop(c, rootk, t, gs.drop_last());
        assert(gs[gs.len() - 1] == gs.last());
        if record_valid(c, gs.last()) && gs.last().inner.public_key != rootk {
            assert(!admissible_here(c, t, gs.last()));
        }
    }
}

/// Whatever the reciprocation fold starts out holding, it still holds.
pub proof fn lemma_recip_fold_monotone(
    s: Map<Seq<u8>, RecView>,
    rootk: Seq<u8>,
    ns: Seq<Seq<u8>>,
    gs: Seq<GossipRecView>,
    x: Seq<u8>,
)
    requires
        ns.contains(x),
    ensures
        recip_fold(s, rootk, ns, gs).contains(x),
    decreases gs.len(),
{
    if gs.len() > 0 {
        let k = gs[0].inner.public_key;
        let ns1 = if recip_static_ok(s, rootk, k) && !ns.contains(k) {
            ns.push(k)
        } else {
            ns
        };
        assert(ns1.contains(x)) by {
            let jj = choose|jj: int| 0 <= jj < ns.len() && ns[jj] == x;
            assert(ns1[jj] == x);
        }
        lemma_recip_fold_monotone(s, rootk, ns1, gs.drop_first(), x);
    }
}

/// After the fold, every batch subject that claims the local node is in the
/// local node's neighbor list.
pub proof fn lemma_recip_fold_covers(
    s: Map<Seq<u8>, RecView>,
    rootk: Seq<u8>,
    ns: Seq<Seq<u8>>,
    gs: Seq<GossipRecView>,
    i: int,
)
    requires
        0 <= i < gs.len(),
        recip_static_ok(s, rootk, gs[i].inner.public_key),
    ensures
        recip_fold(s, rootk, ns, gs).contains(gs[i].inner.public_key),
    decreases gs.len(),
{
    let k0 = gs[0].inner.public_key;
    let ns1 = if recip_static_ok(s, rootk, k0) && !ns.contains(k0) {
        ns.push(k0)
    } else {
        ns
    };
    if i == 0 {
        assert(ns1.contains(k0)) by {
            if !ns.contains(k0) {
                assert(ns.push(k0)[ns.len() as int] == k0);
            } else {
                assert(ns1.contains(k0));
            }
        }
        lemma_recip_fold_monotone(s, rootk, ns1, gs.drop_first(), k0);
    } else {
        assert(gs.drop_first()[i - 1] == gs[i]);
        lemma_recip_fold_covers(s, rootk, ns1, gs.drop_first(), i - 1);
    }
}

/// A fold whose every qualifying subject is already listed adds nothing.
pub proof fn lemma_recip_fold_noop(
    s: Map<Seq<u8>, RecView>,
    rootk: Seq<u8>,
    ns: Seq<Seq<u8>>,
    gs: Seq<GossipRecView>,
)
    requires
        forall|i: int|
            0 <= i < gs.len() ==> !recip_static_ok(s, rootk, (
            #[trigger] gs[i]).inner.public_key) || ns.contains(gs[i].inner.public_key),
    ensures
        recip_fold(s, rootk, ns, gs) == ns,
    decreases gs.len(),
{
    if gs.len() > 0 {
        assert(forall|i: int| 0 <= i < gs.len() - 1 ==> gs.drop_first()[i] == gs[i + 1]);
        lemma_recip_fold_noop(s, rootk, ns, gs.drop_first());
    }
}

/// Idempotence: accepting the same gossip payload twice leaves exactly the
/// store that accepting it once leaves.
pub proof fn lemma_accept_idempotent<C: CryptDe>(
    c: C,
    s: Map<Seq<u8>, RecView>,
    rootk: Seq<u8>,
    gs: Seq<GossipRecView>,
)
    requires
        s.contains_key(rootk),
    ensures
        accept_effect(c, accept_effect(c, s, rootk, gs), rootk, gs) == accept_effect(c, s, rootk,
            gs),
{
    let s1 = apply_seq(c, rootk, s, gs);
    let ns0 = s1[rootk].inner.neighbors;
    let ns1 = recip_fold(s1, rootk, ns0, gs);
    let t = accept_effect(c, s, rootk, gs);
    lemma_apply_seq_monotone(c, rootk, s, gs, rootk);

    // Re-merging the same batch is a no-op: the store already covers every
    // record it could apply.
    assert forall|i: int|
        0 <= i < gs.len() && record_valid(c, #[trigger] gs[i]) && gs[i].inner.public_key != rootk
        implies t.contains_key(gs[i].inner.public_key) && gs[i].inner.version
        <= t[gs[i].inner.public_key].inner.version by {
        lemma_apply_seq_covers(c, rootk, s, gs, i);
    }
    lemma_apply_seq_noop(c, rootk, t, gs);

    // Re-folding reciprocation adds nothing: every qualifying subject is
    // already in the list the first fold produced.
    if ns1 == ns0 || s1[rootk].inner.version >= 0xffff_ffffu32 {
        assert(t == s1);
        assert(accept_effect(c, t, rootk, gs) == t);
    } else {
        assert(t[rootk].inner.neighbors == ns1);
        assert forall|i: int|
            0 <= i < gs.len() implies !recip_static_ok(t, rootk, (
        #[trigger] gs[i]).inner.public_key) || ns1.contains(gs[i].inner.public_key) by {
            let k = gs[i].inner.public_key;
            if recip_static_ok(t, rootk, k) {
                assert(k != rootk);
                assert(t[k] == s1[k]);
                assert(recip_static_ok(s1, rootk, k));
                lemma_recip_fold_covers(s1, rootk, ns0, gs, i);
            }
        }
        lemma_recip_fold_noop(t, rootk, ns1, gs);
        assert(accept_effect(c, t, rootk, gs) == t);
    }
}

/// Bad-record isolation: removing a forged or malformed record from a batch
/// does not change what the merge leaves in the store; the other records are
/// processed exactly as they would have been without it.
pub proof fn lemma_invalid_record_isolated<C: CryptDe>(
    c: C,
    rootk: Seq<u8>,
    s: Map<Seq<u8>, RecView>,
    gs: Seq<GossipRecView>,
    i: int,
)
    requires
        0 <= i < gs.len(),
        !record_valid(c, gs[i]),
    ensures
        apply_seq(c, rootk, s, gs) == apply_seq(c, rootk, s, gs.remove(i)),
    decreases gs.len(),
{
    if i == gs.len() - 1 {
        assert(gs.remove(i) =~= gs.drop_last());
        assert(!admissible_here(c, apply_seq(c, rootk, s, gs.drop_last()), gs.last()));
    } else {
        assert(gs.drop_last()[i] == gs[i]);
        lemma_invalid_record_isolated(c, rootk, s, gs.drop_last(), i);
        assert(gs.remove(i).drop_last() =~= gs.drop_last().remove(i));
        assert(gs.remove(i).last() == gs.last());
        assert(gs.remove(i).len() > 0);
    }
}

} // verus!
