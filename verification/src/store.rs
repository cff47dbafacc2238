//! The topology store ("neighborhood database"): the local, mutable,
//! key-indexed collection of authenticated records, rooted at the local
//! node's own record. All mutation of non-root records goes through
//! `add_or_replace`, the single choke point that makes merging idempotent
//! and monotonic; the root record is only ever replaced by a re-signed,
//! version-bumped successor.
use vstd::prelude::*;

use crate::crypt::CryptDe;
use crate::keys::{clone_addr_opt, keys_equal, PublicKey};
use crate::record::{
    clone_inner, clone_key_vec, encode_inner, inner_wf, lists_key, sig_ok, InnerView, NodeRecord,
    NodeRecordInner, NodeRecordMetadata, RecView,
};

verus! {

/// No two records claim the same subject.
pub open spec fn keys_unique(s: Seq<RecView>) -> bool {
    forall|i: int, j: int|
        0 <= i < j < s.len() ==> (#[trigger] s[i]).inner.public_key != (#[trigger] s[j]).inner.public_key
}

/// The key-indexed abstraction of a record sequence.
pub open spec fn seq_to_map(s: Seq<RecView>) -> Map<Seq<u8>, RecView>
    decreases s.len(),
{
    if s.len() == 0 {
        Map::empty()
    } else {
        seq_to_map(s.drop_last()).insert(s.last().inner.public_key, s.last())
    }
}

pub proof fn lemma_seq_to_map_contains(s: Seq<RecView>, k: Seq<u8>)
    ensures
        seq_to_map(s).contains_key(k) <==> exists|i: int|
            0 <= i < s.len() && (#[trigger] s[i]).inner.public_key == k,
    decreases s.len(),
{
    if s.len() > 0 {
        lemma_seq_to_map_contains(s.drop_last(), k);
        if seq_to_map(s).contains_key(k) {
            if s.last().inner.public_key == k {
                assert(s[s.len() - 1].inner.public_key == k);
            } else {
                let i = choose|i: int|
                    0 <= i < s.drop_last().len() && (#[trigger] s.drop_last()[i]).inner.public_key
                        == k;
                assert(s[i].inner.public_key == k);
            }
        }
        if exists|i: int| 0 <= i < s.len() && (#[trigger] s[i]).inner.public_key == k {
            let i = choose|i: int| 0 <= i < s.len() && (#[trigger] s[i]).inner.public_key == k;
            if i < s.len() - 1 {
                assert(s.drop_last()[i].inner.public_key == k);
            }
        }
    }
}

pub proof fn lemma_seq_to_map_index(s: Seq<RecView>, i: int)
    requires
        keys_unique(s),
        0 <= i < s.len(),
    ensures
        seq_to_map(s).contains_key(s[i].inner.public_key),
        seq_to_map(s)[s[i].inner.public_key] == s[i],
    decreases s.len(),
{
    if i == s.len() - 1 {
        assert(s.last() == s[i]);
    } else {
        assert(keys_unique(s.drop_last()));
        assert(s.drop_last()[i] == s[i]);
        lemma_seq_to_map_index(s.drop_last(), i);
        assert(s.last().inner.public_key != s[i].inner.public_key);
    }
}

pub proof fn lemma_seq_to_map_update(s: Seq<RecView>, i: int, r: RecView)
    requires
        keys_unique(s),
        0 <= i < s.len(),
        r.inner.public_key == s[i].inner.public_key,
    ensures
        seq_to_map(s.update(i, r)) == seq_to_map(s).insert(r.inner.public_key, r),
    decreases s.len(),
{
    let k = r.inner.public_key;
    if i == s.len() - 1 {
        assert(s.update(i, r).drop_last() =~= s.drop_last());
        assert(s.update(i, r).last() == r);
        assert(seq_to_map(s.drop_last()).insert(k, s.last()).insert(k, r) =~= seq_to_map(
            s.drop_last()).insert(k, r));
    } else {
        assert(keys_unique(s.drop_last()));
        assert(s.drop_last()[i] == s[i]);
        lemma_seq_to_map_update(s.drop_last(), i, r);
        assert(s.update(i, r).drop_last() =~= s.drop_last().update(i, r));
        assert(s.update(i, r).last() == s.last());
        let lk = s.last().inner.public_key;
        assert(lk != k);
        assert(seq_to_map(s.drop_last()).insert(k, r).insert(lk, s.last()) =~= seq_to_map(
            s.drop_last()).insert(lk, s.last()).insert(k, r));
    }
}

pub proof fn lemma_seq_to_map_push(s: Seq<RecView>, r: RecView)
    ensures
        seq_to_map(s.push(r)) == seq_to_map(s).insert(r.inner.public_key, r),
{
    assert(s.push(r).drop_last() =~= s);
    assert(s.push(r).last() == r);
}

/// Subject `a`'s record exists and claims `b` as a neighbor.
pub open spec fn lists(s: Map<Seq<u8>, RecView>, a: Seq<u8>, b: Seq<u8>) -> bool {
    s.contains_key(a) && s[a].inner.neighbors.contains(b)
}

/// Mutual neighbor claim: both records exist and each lists the other.
pub open spec fn is_full_neighbor(s: Map<Seq<u8>, RecView>, a: Seq<u8>, b: Seq<u8>) -> bool {
    lists(s, a, b) && lists(s, b, a)
}

/// One-directional claim: `a` lists `b` and `b` does not list `a` back.
pub open spec fn is_half_neighbor(s: Map<Seq<u8>, RecView>, a: Seq<u8>, b: Seq<u8>) -> bool {
    lists(s, a, b) && !lists(s, b, a)
}

/// A record may enter the store only if its signature verifies, its payload
/// is well formed, and it strictly advances the version the store already
/// holds for its subject (or the subject is new).
pub open spec fn admissible<C: CryptDe>(c: C, s: Map<Seq<u8>, RecView>, r: RecView) -> bool {
    &&& sig_ok(c, r)
    &&& inner_wf(r.inner)
    &&& (!s.contains_key(r.inner.public_key) || s[r.inner.public_key].inner.version
        < r.inner.version)
}

/// The root record after a topology change: same subject and address, the
/// given neighbor list, version advanced by one, re-signed by the owner.
pub open spec fn re_signed_root<C: CryptDe>(c: C, r: RecView, ns: Seq<Seq<u8>>) -> RecView {
    let inner = InnerView {
        public_key: r.inner.public_key,
        network_address: r.inner.network_address,
        version: (r.inner.version + 1) as u32,
        neighbors: ns,
    };
    RecView {
        inner,
        signature: c.spec_sig(encode_inner(inner)),
        desirable: r.desirable,
        resolved_address: r.resolved_address,
    }
}

/// What `add_or_replace` reports: a new subject was added, a known subject's
/// record was replaced by a strictly newer one, or the record was stale,
/// forged or malformed and the store was left untouched.
#[derive(PartialEq, Eq, Structural, Clone, Copy, Debug)]
pub enum AddOutcome {
    Added,
    Replaced,
    StaleOrInvalid,
}

/// The local topology view: the root (own) record plus every other record
/// the node currently holds, keyed by subject, in insertion order.
pub struct TopologyStore {
    pub root_key: PublicKey,
    pub records: Vec<NodeRecord>,
}

impl View for TopologyStore {
    type V = Map<Seq<u8>, RecView>;

    open spec fn view(&self) -> Map<Seq<u8>, RecView> {
        seq_to_map(self.recs())
    }
}

impl TopologyStore {
    /// The held records in insertion order, the root first.
    pub open spec fn recs(&self) -> Seq<RecView> {
        self.records@.map_values(|r: NodeRecord| r@)
    }

    /// Well-formedness: subjects are unique, the root's record is present and
    /// first, and every held payload is well formed.
    pub open spec fn wf(&self) -> bool {
        &&& keys_unique(self.recs())
        &&& self.recs().len() > 0
        &&& self.recs()[0].inner.public_key == self.root_key@
        &&& forall|i: int| 0 <= i < self.recs().len() ==> inner_wf((#[trigger] self.recs()[i]).inner)
    }

    /// The root's record as the store holds it.
    pub open spec fn root_view(&self) -> RecView {
        self@[self.root_key@]
    }

    /// Creates a store holding exactly the local node's own record.
    pub fn new(root_record: NodeRecord) -> (r: TopologyStore)
        requires
            inner_wf(root_record@.inner),
        ensures
            r.wf(),
            r.root_key@ == root_record@.inner.public_key,
            r.recs() == seq![root_record@],
            r@ == Map::<Seq<u8>, RecView>::empty().insert(root_record@.inner.public_key,
                root_record@),
    {
        let root_key = root_record.inner.public_key.clone();
        let mut records: Vec<NodeRecord> = Vec::new();
        records.push(root_record);
        let s = TopologyStore { root_key, records };
        proof {
            assert(s.recs() =~= seq![root_record@]);
            assert(s.recs().drop_last() =~= Seq::<RecView>::empty());
            assert(s.recs().last() == root_record@);
            assert(seq_to_map(s.recs()) == seq_to_map(Seq::<RecView>::empty()).insert(
                root_record@.inner.public_key, root_record@));
            assert(seq_to_map(Seq::<RecView>::empty()) =~= Map::<Seq<u8>, RecView>::empty());
        }
        s
    }

    /// The local node's own record.
    pub fn root(&self) -> (r: &NodeRecord)
        requires
            self.wf(),
        ensures
            r@ == self.root_view(),
            r@.inner.public_key == self.root_key@,
    {
        proof {
            lemma_seq_to_map_index(self.recs(), 0);
        }
        &self.records[0]
    }

    /// Looks a subject up.
    pub fn node_by_key(&self, k: &PublicKey) -> (r: Option<&NodeRecord>)
        requires
            self.wf(),
        ensures
            match r {
                Some(rec) => self@.contains_key(k@) && rec@ == self@[k@],
                None => !self@.contains_key(k@),
            },
    {
        let mut i: usize = 0;
        while i < self.records.len()
            invariant
                self.wf(),
                i <= self.records.len(),
                forall|j: int| 0 <= j < i ==> (#[trigger] self.recs()[j]).inner.public_key != k@,
            decreases self.records.len() - i,
        {
            if keys_equal(&self.records[i].inner.public_key, k) {
                proof {
                    assert(self.recs()[i as int].inner.public_key == k@);
                    lemma_seq_to_map_index(self.recs(), i as int);
                }
                return Some(&self.records[i]);
            }
            i = i + 1;
        }
        proof {
            lemma_seq_to_map_contains(self.recs(), k@);
        }
        None
    }

    /// True when the store holds a record for the subject.
    pub fn contains_node(&self, k: &PublicKey) -> (r: bool)
        requires
            self.wf(),
        ensures
            r == self@.contains_key(k@),
    {
        match self.node_by_key(k) {
            Some(_) => true,
            None => false,
        }
    }

    /// True when `a`'s held record claims `b` as a neighbor.
    pub fn node_lists(&self, a: &PublicKey, b: &PublicKey) -> (r: bool)
        requires
            self.wf(),
        ensures
            r == lists(self@, a@, b@),
    {
        match self.node_by_key(a) {
            Some(rec) => lists_key(&rec.inner.neighbors, b),
            None => false,
        }
    }

    /// True when `a` and `b` mutually claim each other.
    pub fn full_neighbor(&self, a: &PublicKey, b: &PublicKey) -> (r: bool)
        requires
            self.wf(),
        ensures
            r == is_full_neighbor(self@, a@, b@),
    {
        self.node_lists(a, b) && self.node_lists(b, a)
    }

    /// True when `a` claims `b` and `b` does not claim `a` back.
    pub fn half_neighbor(&self, a: &PublicKey, b: &PublicKey) -> (r: bool)
        requires
            self.wf(),
        ensures
            r == is_half_neighbor(self@, a@, b@),
    {
        self.node_lists(a, b) && !self.node_lists(b, a)
    }

    /// The subjects that `k` and the counterpart mutually claim: exactly the
    /// full-neighbor counterparts of `k` in this store.
    pub fn full_neighbor_keys(&self, k: &PublicKey) -> (r: Vec<PublicKey>)
        requires
            self.wf(),
        ensures
            forall|j: int| 0 <= j < r@.len() ==> is_full_neighbor(self@, k@, (#[trigger] r@[j])@),
            forall|m: Seq<u8>|
                #[trigger] is_full_neighbor(self@, k@, m) ==> exists|j: int|
                    0 <= j < r@.len() && (#[trigger] r@[j])@ == m,
    {
        let mut out: Vec<PublicKey> = Vec::new();
        let rec = match self.node_by_key(k) {
            Some(rec) => rec,
            None => {
                return out;
            },
        };
        let mut i: usize = 0;
        while i < rec.inner.neighbors.len()
            invariant
                self.wf(),
                self@.contains_key(k@),
                rec@ == self@[k@],
                i <= rec.inner.neighbors.len(),
                forall|j: int| 0 <= j < out@.len() ==> is_full_neighbor(self@, k@, (#[trigger] out@[j])@),
                forall|j: int|
                    0 <= j < i && is_full_neighbor(self@, k@, (#[trigger] rec.inner.neighbors@[j])@)
                        ==> exists|j2: int| 0 <= j2 < out@.len() && (#[trigger] out@[j2])@
                        == rec.inner.neighbors@[j]@,
            decreases rec.inner.neighbors.len() - i,
        {
            let n = &rec.inner.neighbors[i];
            if self.node_lists(k, n) && self.node_lists(n, k) {
                let ghost prev = out@;
                out.push(n.clone());
                proof {
                    assert(out@[out@.len() - 1]@ == rec.inner.neighbors@[i as int]@);
                    assert(forall|j: int| 0 <= j < prev.len() ==> out@[j] == prev[j]);
                }
            }
            i = i + 1;
        }
        proof {
            assert forall|m: Seq<u8>| #[trigger] is_full_neighbor(self@, k@, m) implies exists|
                j: int,
            | 0 <= j < out@.len() && (#[trigger] out@[j])@ == m by {
                assert(self@[k@].inner.neighbors.contains(m));
                let j = choose|j: int|
                    0 <= j < self@[k@].inner.neighbors.len() && self@[k@].inner.neighbors[j] == m;
                assert(rec@.inner.neighbors[j] == m);
                assert(rec.inner.neighbors@.map_values(|x: PublicKey| x@)[j] == m);
                assert(rec.inner.neighbors@[j]@ == m);
            }
        }
        out
    }

    /// The subjects `k` claims that do not claim `k` back: the half-neighbor
    /// counterparts of `k` in this store.
    pub fn half_neighbor_keys(&self, k: &PublicKey) -> (r: Vec<PublicKey>)
        requires
            self.wf(),
        ensures
            forall|j: int| 0 <= j < r@.len() ==> is_half_neighbor(self@, k@, (#[trigger] r@[j])@),
            forall|m: Seq<u8>|
                #[trigger] is_half_neighbor(self@, k@, m) ==> exists|j: int|
                    0 <= j < r@.len() && (#[trigger] r@[j])@ == m,
    {
        let mut out: Vec<PublicKey> = Vec::new();
        let rec = match self.node_by_key(k) {
            Some(rec) => rec,
            None => {
                return out;
            },
        };
        let mut i: usize = 0;
        while i < rec.inner.neighbors.len()
            invariant
                self.wf(),
                self@.contains_key(k@),
                rec@ == self@[k@],
                i <= rec.inner.neighbors.len(),
                forall|j: int| 0 <= j < out@.len() ==> is_half_neighbor(self@, k@, (#[trigger] out@[j])@),
                forall|j: int|
                    0 <= j < i && is_half_neighbor(self@, k@, (#[trigger] rec.inner.neighbors@[j])@)
                        ==> exists|j2: int| 0 <= j2 < out@.len() && (#[trigger] out@[j2])@
                        == rec.inner.neighbors@[j]@,
            decreases rec.inner.neighbors.len() - i,
        {
            let n = &rec.inner.neighbors[i];
            if !self.node_lists(n, k) {
                let ghost prev = out@;
                out.push(n.clone());
                proof {
                    assert(rec.inner.neighbors@.map_values(|x: PublicKey| x@)[i as int]
                        == rec.inner.neighbors@[i as int]@);
                    assert(lists(self@, k@, rec.inner.neighbors@[i as int]@));
                    assert(out@[out@.len() - 1]@ == rec.inner.neighbors@[i as int]@);
                    assert(forall|j: int| 0 <= j < prev.len() ==> out@[j] == prev[j]);
                }
            }
            i = i + 1;
        }
        proof {
            assert forall|m: Seq<u8>| #[trigger] is_half_neighbor(self@, k@, m) implies exists|
                j: int,
            | 0 <= j < out@.len() && (#[trigger] out@[j])@ == m by {
                assert(self@[k@].inner.neighbors.contains(m));
                let j = choose|j: int|
                    0 <= j < self@[k@].inner.neighbors.len() && self@[k@].inner.neighbors[j] == m;
                assert(rec.inner.neighbors@.map_values(|x: PublicKey| x@)[j] == m);
                assert(rec.inner.neighbors@[j]@ == m);
            }
        }
        out
    }

    /// The single choke point for non-root mutation. Inserts the record if
    /// its subject is new; replaces the held record only if the incoming one
    /// verifies, is well formed, and carries a strictly higher version;
    /// otherwise leaves the store untouched and reports `StaleOrInvalid`. A
    /// record that fails verification is never stored, whatever version it
    /// claims, and re-applying any record is always safe. The local node's
    /// own record is out of reach here entirely: it is mutated only by the
    /// owner's re-issuing paths, never by data that arrived from outside.
    pub fn add_or_replace<C: CryptDe>(&mut self, rec: NodeRecord, c: &C) -> (r: AddOutcome)
        requires
            old(self).wf(),
        ensures
            final(self).wf(),
            final(self).root_key@ == old(self).root_key@,
            rec@.inner.public_key != old(self).root_key@ && admissible(*c, old(self)@, rec@) ==> {
                &&& final(self)@ == old(self)@.insert(rec@.inner.public_key, rec@)
                &&& (r == AddOutcome::Added <==> !old(self)@.contains_key(rec@.inner.public_key))
                &&& (r == AddOutcome::Replaced <==> old(self)@.contains_key(rec@.inner.public_key))
            },
            rec@.inner.public_key == old(self).root_key@ || !admissible(*c, old(self)@, rec@)
                ==> final(self)@ == old(self)@ && r == AddOutcome::StaleOrInvalid && final(
                self).recs() == old(self).recs(),
    {
        if keys_equal(&rec.inner.public_key, &self.root_key) {
            return AddOutcome::StaleOrInvalid;
        }
        if !rec.verify(c) {
            return AddOutcome::StaleOrInvalid;
        }
        if lists_key(&rec.inner.neighbors, &rec.inner.public_key) {
            return AddOutcome::StaleOrInvalid;
        }
        let ghost old_recs = self.recs();
        let mut i: usize = 0;
        while i < self.records.len()
            invariant
                self == old(self),
                self.wf(),
                self.recs() == old_recs,
                sig_ok(*c, rec@),
                inner_wf(rec@.inner),
                rec@.inner.public_key != old(self).root_key@,
                i <= self.records.len(),
                forall|j: int|
                    0 <= j < i ==> (#[trigger] self.recs()[j]).inner.public_key
                        != rec@.inner.public_key,
            decreases self.records.len() - i,
        {
            if keys_equal(&self.records[i].inner.public_key, &rec.inner.public_key) {
                proof {
                    lemma_seq_to_map_index(self.recs(), i as int);
                }
                if self.records[i].inner.version < rec.inner.version {
                    let ghost rv = rec@;
                    let ghost ii = i as int;
                    self.records.set(i, rec);
                    proof {
                        assert(self.recs() =~= old_recs.update(ii, rv));
                        lemma_seq_to_map_update(old_recs, ii, rv);
                        assert forall|a: int, b: int| 0 <= a < b < self.recs().len() implies (
                        #[trigger] self.recs()[a]).inner.public_key != (
                        #[trigger] self.recs()[b]).inner.public_key by {
                            assert(old_recs[a].inner.public_key != old_recs[b].inner.public_key);
                        }
                        assert forall|a: int| 0 <= a < self.recs().len() implies inner_wf((
                        #[trigger] self.recs()[a]).inner) by {
                            if a != ii {
                                assert(self.recs()[a] == old_recs[a]);
                            }
                        }
                        assert(self.recs()[0].inner.public_key == old_recs[0].inner.public_key);
                        assert(admissible(*c, old(self)@, rv));
                    }
                    return AddOutcome::Replaced;
                } else {
                    return AddOutcome::StaleOrInvalid;
                }
            }
            i = i + 1;
        }
        proof {
            lemma_seq_to_map_contains(old_recs, rec@.inner.public_key);
        }
        let ghost rv = rec@;
        self.records.push(rec);
        proof {
            assert(self.recs() =~= old_recs.push(rv));
            lemma_seq_to_map_push(old_recs, rv);
            assert(self.recs()[0] == old_recs[0]);
        }
        AddOutcome::Added
    }

    /// Re-issues the root record with the given keys appended to its
    /// neighbor list, its version advanced by one, and a fresh signature by
    /// the owner. Only the owner's own signer is accepted.
    pub fn extend_root_neighbors<C: CryptDe>(&mut self, to_add: &Vec<PublicKey>, c: &C)
        requires
            old(self).wf(),
            c.spec_key() == old(self).root_key@,
            old(self).root_view().inner.version < 0xffff_ffffu32,
            forall|j: int| 0 <= j < to_add@.len() ==> (#[trigger] to_add@[j])@ != old(self).root_key@,
        ensures
            final(self).wf(),
            final(self).root_key@ == old(self).root_key@,
            final(self)@ == old(self)@.insert(old(self).root_key@, re_signed_root(*c,
                old(self).root_view(), old(self).root_view().inner.neighbors + to_add@.map_values(
                |x: PublicKey| x@))),
    {
        proof {
            lemma_seq_to_map_index(self.recs(), 0);
        }
        let root = &self.records[0];
        let ghost base = old(self).root_view().inner.neighbors;
        let mut neighbors = clone_key_vec(&root.inner.neighbors);
        proof {
            assert(root@ == old(self).root_view());
            assert(neighbors@.map_values(|x: PublicKey| x@) == base);
            assert(neighbors@.len() == base.len());
            assert(forall|j: int|
                0 <= j < base.len() ==> (#[trigger] neighbors@[j])@ == base[j]);
        }
        let mut i: usize = 0;
        while i < to_add.len()
            invariant
                i <= to_add.len(),
                neighbors@.len() == base.len() + i,
                forall|j: int| 0 <= j < base.len() ==> (#[trigger] neighbors@[j])@ == base[j],
                forall|j: int|
                    base.len() <= j < base.len() + i ==> (#[trigger] neighbors@[j])@ == to_add@[j
                        - base.len()]@,
                self == old(self),
            decreases to_add.len() - i,
        {
            neighbors.push(to_add[i].clone());
            i = i + 1;
        }
        proof {
            assert(neighbors@.map_values(|x: PublicKey| x@) =~= base + to_add@.map_values(
                |x: PublicKey| x@));
        }
        let root = &self.records[0];
        let new_inner = NodeRecordInner {
            public_key: root.inner.public_key.clone(),
            network_address: clone_addr_opt(&root.inner.network_address),
            version: root.inner.version + 1,
            neighbors,
        };
        proof {
            let ns = new_inner@.neighbors;
            let base = old(self).root_view().inner.neighbors;
            let added = to_add@.map_values(|x: PublicKey| x@);
            assert forall|m: Seq<u8>| ns.contains(m) implies m != old(self).root_key@ by {
                let j = choose|j: int| 0 <= j < ns.len() && ns[j] == m;
                if j < base.len() {
                    assert(base[j] == m);
                    assert(base.contains(m));
                    assert(inner_wf(old(self).root_view().inner));
                } else {
                    assert(added[j - base.len()] == m);
                    assert(to_add@[j - base.len()]@ == m);
                }
            }
            assert(inner_wf(new_inner@));
        }
        let metadata = NodeRecordMetadata {
            desirable: self.records[0].metadata.desirable,
            resolved_address: clone_addr_opt(&self.records[0].metadata.resolved_address),
        };
        let new_rec = match NodeRecord::sign(new_inner, metadata, c) {
            Ok(r) => r,
            Err(_) => {
                proof {
                    assert(false);
                }
                vstd::pervasive::unreached()
            },
        };
        let ghost old_recs = self.recs();
        let ghost rv = new_rec@;
        self.records.set(0, new_rec);
        proof {
            assert(self.recs() =~= old_recs.update(0, rv));
            lemma_seq_to_map_update(old_recs, 0, rv);
            assert(rv == re_signed_root(*c, old(self).root_view(),
                old(self).root_view().inner.neighbors + to_add@.map_values(|x: PublicKey| x@)));
        }
    }
}

} // verus!
