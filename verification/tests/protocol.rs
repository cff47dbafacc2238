use neighborhood::accept::AcceptOutcome;
use neighborhood::crypt::{CryptDe, NullCryptDe};
use neighborhood::handshake::HandshakeState;
use neighborhood::keys::{NetworkAddress, PublicKey};
use neighborhood::record::{clone_inner, Gossip, GossipRecord, NodeRecord};
use neighborhood::store::{AddOutcome, TopologyStore};

fn key(b: &[u8]) -> PublicKey {
    PublicKey::new(b.to_vec())
}

fn addr(b: &[u8]) -> NetworkAddress {
    NetworkAddress::new(b.to_vec())
}

fn signer(b: &[u8]) -> NullCryptDe {
    NullCryptDe::new(key(b))
}

fn make_record(kb: &[u8], address: Option<&[u8]>, version: u32, neighbors: &[&[u8]]) -> NodeRecord {
    let c = signer(kb);
    NodeRecord::from_identity_and_state(
        &c,
        address.map(addr),
        address.map(addr),
        version,
        neighbors.iter().map(|n| key(n)).collect(),
    )
    .unwrap()
}

fn to_gossip(rec: &NodeRecord, address: Option<&[u8]>) -> GossipRecord {
    GossipRecord {
        inner: clone_inner(&rec.inner),
        signature: rec.signature.clone(),
        network_address: address.map(addr),
    }
}

fn store_for(kb: &[u8], address: Option<&[u8]>, neighbors: &[&[u8]]) -> TopologyStore {
    TopologyStore::new(make_record(kb, address, 1, neighbors))
}

fn stored_version(store: &TopologyStore, kb: &[u8]) -> Option<u32> {
    store.node_by_key(&key(kb)).map(|r| r.inner.version)
}

fn accept_from(store: &mut TopologyStore, sender: &[u8], gossip: &Gossip) -> AcceptOutcome {
    let c = NullCryptDe::new(store.root_key.clone());
    store.accept(&key(sender), gossip, &c)
}

#[test]
fn monotonic_merge_either_order() {
    let b1 = to_gossip(&make_record(b"B", Some(b"b-addr"), 3, &[b"X"]), None);
    let b2 = to_gossip(&make_record(b"B", Some(b"b-addr"), 7, &[b"X", b"Y"]), None);

    let mut low_first = store_for(b"A", Some(b"a-addr"), &[]);
    let c_a = signer(b"A");
    assert_eq!(low_first.add_or_replace(b1.into_node_record(), &c_a), AddOutcome::Added);
    assert_eq!(low_first.add_or_replace(b2.into_node_record(), &c_a), AddOutcome::Replaced);

    let mut high_first = store_for(b"A", Some(b"a-addr"), &[]);
    assert_eq!(high_first.add_or_replace(b2.into_node_record(), &c_a), AddOutcome::Added);
    assert_eq!(
        high_first.add_or_replace(b1.into_node_record(), &c_a),
        AddOutcome::StaleOrInvalid
    );

    assert_eq!(stored_version(&low_first, b"B"), Some(7));
    assert_eq!(stored_version(&high_first, b"B"), Some(7));
    let low = low_first.node_by_key(&key(b"B")).unwrap();
    let high = high_first.node_by_key(&key(b"B")).unwrap();
    assert_eq!(low.inner.neighbors, high.inner.neighbors);
    assert_eq!(low.inner.neighbors.len(), 2);
    assert_eq!(low.signature.bytes, high.signature.bytes);
}

#[test]
fn idempotent_accept() {
    let mut store = store_for(b"A", Some(b"a-addr"), &[]);
    let b = make_record(b"B", Some(b"b-addr"), 2, &[b"A"]);
    let c = make_record(b"C", None, 5, &[b"B"]);
    let gossip = Gossip { records: vec![to_gossip(&b, Some(b"b-addr")), to_gossip(&c, None)] };

    let first = accept_from(&mut store, b"B", &gossip);
    assert!(first.store_changed);
    assert!(first.reply.is_some());
    let records_after_first: Vec<(Vec<u8>, u32, Vec<u8>)> = store
        .records
        .iter()
        .map(|r| (r.inner.public_key.bytes.clone(), r.inner.version, r.signature.bytes.clone()))
        .collect();

    let second = accept_from(&mut store, b"B", &gossip);
    assert!(!second.store_changed);
    assert!(second.reply.is_none());
    let records_after_second: Vec<(Vec<u8>, u32, Vec<u8>)> = store
        .records
        .iter()
        .map(|r| (r.inner.public_key.bytes.clone(), r.inner.version, r.signature.bytes.clone()))
        .collect();
    assert_eq!(records_after_first, records_after_second);
}

#[test]
fn forgery_rejected_regardless_of_version() {
    let mut store = store_for(b"A", Some(b"a-addr"), &[]);
    let mut forged = to_gossip(&make_record(b"B", None, 1000, &[]), None);
    forged.signature.bytes[0] ^= 0xff;
    let c_a = signer(b"A");
    assert_eq!(
        store.add_or_replace(forged.into_node_record(), &c_a),
        AddOutcome::StaleOrInvalid
    );
    assert!(store.node_by_key(&key(b"B")).is_none());
}

#[test]
fn stale_version_is_benign_noop() {
    let mut store = store_for(b"A", Some(b"a-addr"), &[]);
    let c_a = signer(b"A");
    let newer = make_record(b"B", None, 5, &[b"X"]);
    assert_eq!(store.add_or_replace(newer, &c_a), AddOutcome::Added);
    let older = make_record(b"B", None, 4, &[]);
    assert_eq!(store.add_or_replace(older, &c_a), AddOutcome::StaleOrInvalid);
    let equal = make_record(b"B", None, 5, &[]);
    assert_eq!(store.add_or_replace(equal, &c_a), AddOutcome::StaleOrInvalid);
    let held = store.node_by_key(&key(b"B")).unwrap();
    assert_eq!(held.inner.version, 5);
    assert_eq!(held.inner.neighbors, vec![key(b"X")]);
}

#[test]
fn address_redaction_for_strangers() {
    // A holds B (mutual with A) and C (known only one-sidedly), both with
    // confirmed addresses; gossip to stranger X must redact both B's and C's
    // addresses, and disclose X's own back to X.
    let mut store = store_for(b"A", Some(b"a-addr"), &[b"B", b"C"]);
    let c_a = signer(b"A");
    let b = make_record(b"B", Some(b"b-addr"), 2, &[b"A"]);
    let c = make_record(b"C", Some(b"c-addr"), 2, &[]);
    let x = make_record(b"X", Some(b"x-addr"), 2, &[]);
    store.add_or_replace(b, &c_a);
    store.add_or_replace(c, &c_a);
    store.add_or_replace(x, &c_a);

    let gossip = store.produce(&key(b"X"));
    let mut saw = 0;
    for g in gossip.records.iter() {
        let subject = g.inner.public_key.bytes.as_slice();
        match subject {
            b"B" => {
                // B is mutually known to A, not to X: redacted.
                assert!(g.network_address.is_none());
                saw += 1;
            }
            b"C" => {
                assert!(g.network_address.is_none());
                saw += 1;
            }
            b"X" => {
                // X re-learns its own data.
                assert_eq!(g.network_address.as_ref().unwrap().bytes, b"x-addr".to_vec());
                saw += 1;
            }
            b"A" => {
                // A is not mutually known to X either: redacted.
                assert!(g.network_address.is_none());
                saw += 1;
            }
            _ => panic!("unexpected subject in gossip"),
        }
    }
    assert_eq!(saw, 4);
}

#[test]
fn convergence_scenario_two_nodes() {
    // Node A and node B, each alone in its own store.
    let mut store_a = store_for(b"A", Some(b"a-addr"), &[]);
    let mut store_b = store_for(b"B", Some(b"b-addr"), &[]);
    let c_b = signer(b"B");

    // B introduces itself: claims A, re-signs, sends a Debut.
    let debut = store_b.start_debut(&key(b"A"), &c_b);
    assert_eq!(debut.records.len(), 1);
    assert_eq!(debut.records[0].inner.public_key, key(b"B"));

    // A accepts the Debut: gains B's record, reciprocates, replies.
    let out_a = accept_from(&mut store_a, b"B", &debut);
    assert!(out_a.store_changed);
    assert!(store_a.node_by_key(&key(b"B")).is_some());
    assert!(store_a.full_neighbor(&key(b"A"), &key(b"B")));
    let reply = out_a.reply.expect("counter-gossip owed after a debut");

    // The reply carries A's own record, now claiming B, with A's address
    // disclosed to its new full neighbor.
    let own = reply
        .records
        .iter()
        .find(|g| g.inner.public_key == key(b"A"))
        .expect("own record always included");
    assert!(own.inner.neighbors.contains(&key(b"B")));
    assert_eq!(own.network_address.as_ref().unwrap().bytes, b"a-addr".to_vec());

    // B accepts the reply: both sides now agree on the two-node subgraph.
    let out_b = accept_from(&mut store_b, b"A", &reply);
    assert!(out_b.store_changed);
    assert!(store_b.full_neighbor(&key(b"A"), &key(b"B")));
    assert_eq!(store_a.peer_state(&key(b"B")), HandshakeState::Converged);
    assert_eq!(store_b.peer_state(&key(b"A")), HandshakeState::Converged);
    assert_eq!(
        store_b.node_by_key(&key(b"A")).unwrap().metadata.resolved_address.as_ref().unwrap().bytes,
        b"a-addr".to_vec()
    );
}

fn handshake(initiator: &mut TopologyStore, target: &mut TopologyStore) {
    let c_i = NullCryptDe::new(initiator.root_key.clone());
    let target_key = target.root_key.clone();
    let debut = initiator.start_debut(&target_key, &c_i);
    let initiator_key = initiator.root_key.clone();
    let c_t = NullCryptDe::new(target.root_key.clone());
    let out_t = target.accept(&initiator_key, &debut, &c_t);
    if let Some(reply) = out_t.reply {
        let out_i = initiator.accept(&target_key, &reply, &c_i);
        if let Some(counter) = out_i.reply {
            target.accept(&initiator_key, &counter, &c_t);
        }
    }
}

#[test]
fn multi_hop_propagation() {
    let mut store_a = store_for(b"A", Some(b"a-addr"), &[]);
    let mut store_b = store_for(b"B", Some(b"b-addr"), &[]);
    let mut store_c = store_for(b"C", Some(b"c-addr"), &[]);

    // B pairs with A, then C pairs with B.
    handshake(&mut store_b, &mut store_a);
    handshake(&mut store_c, &mut store_b);
    // Periodic re-gossip (externally scheduled): B pushes its view to A.
    let to_a = store_b.produce(&key(b"A"));
    accept_from(&mut store_a, b"B", &to_a);

    assert!(store_b.full_neighbor(&key(b"B"), &key(b"A")));
    assert!(store_b.full_neighbor(&key(b"B"), &key(b"C")));
    assert!(!store_a.full_neighbor(&key(b"A"), &key(b"C")));

    // B holds confirmed, address-bearing records for both ends.
    let b_of_a = store_a.node_by_key(&key(b"B")).unwrap();
    assert!(b_of_a.metadata.resolved_address.is_some());
    assert_eq!(
        store_b.node_by_key(&key(b"A")).unwrap().metadata.resolved_address.as_ref().unwrap().bytes,
        b"a-addr".to_vec()
    );
    assert_eq!(
        store_b.node_by_key(&key(b"C")).unwrap().metadata.resolved_address.as_ref().unwrap().bytes,
        b"c-addr".to_vec()
    );

    // A has learned of C, but without a confirmed address: C is not A's
    // full neighbor, so its address was redacted in transit.
    let c_of_a = store_a.node_by_key(&key(b"C")).expect("C's record propagated to A");
    assert!(c_of_a.metadata.resolved_address.is_none());
}

#[test]
fn bad_record_isolation() {
    let mut store = store_for(b"A", Some(b"a-addr"), &[]);
    let good_b = to_gossip(&make_record(b"B", Some(b"b-addr"), 2, &[b"A"]), None);
    let mut tampered = to_gossip(&make_record(b"T", Some(b"t-addr"), 2, &[b"A"]), None);
    tampered.inner.version = 9;  // payload altered after signing
    let good_c = to_gossip(&make_record(b"C", None, 3, &[]), None);
    let gossip = Gossip { records: vec![good_b, tampered, good_c] };

    let out = accept_from(&mut store, b"B", &gossip);
    assert_eq!(out.invalid_records, 1);
    assert!(out.store_changed);
    assert_eq!(stored_version(&store, b"B"), Some(2));
    assert_eq!(stored_version(&store, b"C"), Some(3));
    assert!(store.node_by_key(&key(b"T")).is_none());
}

#[test]
fn empty_gossip_is_noop() {
    let mut store = store_for(b"A", Some(b"a-addr"), &[]);
    let out = accept_from(&mut store, b"B", &Gossip { records: vec![] });
    assert!(!out.store_changed);
    assert!(out.reply.is_none());
    assert_eq!(out.invalid_records, 0);
    assert_eq!(store.records.len(), 1);
}

#[test]
fn own_record_never_overwritten_by_gossip() {
    // A peer presenting A's own record cannot regress it (stale version)
    // nor replace it (higher version): only the owner re-issues it.
    let mut store = store_for(b"A", Some(b"a-addr"), &[b"B"]);
    let stale_own = to_gossip(&make_record(b"A", Some(b"elsewhere"), 1, &[]), None);
    let gossip = Gossip { records: vec![stale_own] };
    let out = accept_from(&mut store, b"B", &gossip);
    assert!(!out.store_changed);
    assert_eq!(store.root().inner.neighbors, vec![key(b"B")]);

    let fresh_own = to_gossip(&make_record(b"A", Some(b"elsewhere"), 99, &[]), Some(b"elsewhere"));
    let gossip2 = Gossip { records: vec![fresh_own] };
    let out2 = accept_from(&mut store, b"B", &gossip2);
    assert!(!out2.store_changed);
    assert_eq!(store.root().inner.version, 1);
    assert_eq!(store.root().inner.neighbors, vec![key(b"B")]);
    assert_eq!(
        store.root().metadata.resolved_address.as_ref().unwrap().bytes,
        b"a-addr".to_vec()
    );
}

#[test]
fn reciprocation_bumps_and_resigns_root() {
    let mut store = store_for(b"A", Some(b"a-addr"), &[]);
    assert_eq!(store.root().inner.version, 1);
    let b = make_record(b"B", Some(b"b-addr"), 2, &[b"A"]);
    let gossip = Gossip { records: vec![to_gossip(&b, Some(b"b-addr"))] };
    accept_from(&mut store, b"B", &gossip);
    let root = store.root();
    assert_eq!(root.inner.version, 2);
    assert!(root.inner.neighbors.contains(&key(b"A")) == false);
    assert!(root.inner.neighbors.contains(&key(b"B")));
    let c_a = signer(b"A");
    assert!(store.root().verify(&c_a));
}

#[test]
fn handshake_states_progression() {
    let mut store = store_for(b"A", Some(b"a-addr"), &[]);
    let c_a = signer(b"A");
    assert_eq!(store.peer_state(&key(b"B")), HandshakeState::Unknown);

    // A record with no claims either way: merely introduced.
    let b_alone = make_record(b"B", None, 2, &[]);
    store.add_or_replace(b_alone, &c_a);
    assert_eq!(store.peer_state(&key(b"B")), HandshakeState::Introduced);

    // B claims A, A does not reciprocate yet: partially known.
    let b_claims = make_record(b"B", None, 3, &[b"A"]);
    store.add_or_replace(b_claims, &c_a);
    assert_eq!(store.peer_state(&key(b"B")), HandshakeState::PartiallyKnown);

    // A claims B back: converged.
    let to_add = vec![key(b"B")];
    store.extend_root_neighbors(&to_add, &c_a);
    assert_eq!(store.peer_state(&key(b"B")), HandshakeState::Converged);
}

#[test]
fn undesirable_records_not_advertised() {
    let mut store = store_for(b"A", Some(b"a-addr"), &[]);
    let c_a = signer(b"A");
    let b = make_record(b"B", None, 2, &[]);
    let mut c = make_record(b"C", None, 2, &[]);
    c.metadata.desirable = false;
    store.add_or_replace(b, &c_a);
    store.add_or_replace(c, &c_a);
    let gossip = store.produce(&key(b"X"));
    let subjects: Vec<Vec<u8>> =
        gossip.records.iter().map(|g| g.inner.public_key.bytes.clone()).collect();
    assert!(subjects.contains(&b"A".to_vec()));
    assert!(subjects.contains(&b"B".to_vec()));
    assert!(!subjects.contains(&b"C".to_vec()));
    // Own record comes first: insertion order, rooted at self.
    assert_eq!(gossip.records[0].inner.public_key, key(b"A"));
}

#[test]
fn neighbor_queries_classify_edges() {
    let mut store = store_for(b"A", None, &[b"B", b"C"]);
    let c_a = signer(b"A");
    store.add_or_replace(make_record(b"B", None, 2, &[b"A"]), &c_a);
    store.add_or_replace(make_record(b"C", None, 2, &[]), &c_a);

    let full = store.full_neighbor_keys(&key(b"A"));
    assert_eq!(full, vec![key(b"B")]);
    let half = store.half_neighbor_keys(&key(b"A"));
    assert_eq!(half, vec![key(b"C")]);
    assert!(store.half_neighbor(&key(b"A"), &key(b"C")));
    assert!(!store.half_neighbor(&key(b"A"), &key(b"B")));
}
