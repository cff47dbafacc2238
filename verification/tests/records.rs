use neighborhood::constructor::{
    local_db_from_node, lookup_addr, make_modified_db, make_modified_node_records, modify_node,
};
use neighborhood::crypt::NullCryptDe;
use neighborhood::keys::{NetworkAddress, PublicKey};
use neighborhood::record::{
    encode_inner_bytes, NodeRecord, NodeRecordInner, NodeRecordMetadata,
};
use neighborhood::store::TopologyStore;

fn key(b: &[u8]) -> PublicKey {
    PublicKey::new(b.to_vec())
}

fn addr(b: &[u8]) -> NetworkAddress {
    NetworkAddress::new(b.to_vec())
}

fn signer(b: &[u8]) -> NullCryptDe {
    NullCryptDe::new(key(b))
}

fn make_record(kb: &[u8], address: Option<&[u8]>, version: u32, neighbors: &[&[u8]]) -> NodeRecord {
    let c = signer(kb);
    NodeRecord::from_identity_and_state(
        &c,
        address.map(addr),
        address.map(addr),
        version,
        neighbors.iter().map(|n| key(n)).collect(),
    )
    .unwrap()
}

#[test]
fn sign_then_verify_succeeds() {
    let rec = make_record(b"N", Some(b"n-addr"), 3, &[b"M"]);
    let c = signer(b"N");
    assert!(rec.verify(&c));
    assert!(rec.metadata.desirable);
}

#[test]
fn sign_rejects_foreign_identity() {
    let inner = NodeRecordInner {
        public_key: key(b"N"),
        network_address: None,
        version: 1,
        neighbors: vec![],
    };
    let md = NodeRecordMetadata { desirable: true, resolved_address: None };
    let other = signer(b"IMPOSTOR");
    assert!(NodeRecord::sign(inner, md, &other).is_err());
}

#[test]
fn record_never_claims_itself() {
    let c = signer(b"N");
    let outcome =
        NodeRecord::from_identity_and_state(&c, None, None, 1, vec![key(b"M"), key(b"N")]);
    assert!(outcome.is_err());
}

#[test]
fn canonical_encoding_is_stable_and_distinguishing() {
    let a1 = make_record(b"N", Some(b"n-addr"), 3, &[b"M", b"O"]);
    let a2 = make_record(b"N", Some(b"n-addr"), 3, &[b"M", b"O"]);
    assert_eq!(encode_inner_bytes(&a1.inner), encode_inner_bytes(&a2.inner));

    let newer = make_record(b"N", Some(b"n-addr"), 4, &[b"M", b"O"]);
    assert_ne!(encode_inner_bytes(&a1.inner), encode_inner_bytes(&newer.inner));
    let fewer = make_record(b"N", Some(b"n-addr"), 3, &[b"M"]);
    assert_ne!(encode_inner_bytes(&a1.inner), encode_inner_bytes(&fewer.inner));
    let no_addr = make_record(b"N", None, 3, &[b"M", b"O"]);
    assert_ne!(encode_inner_bytes(&a1.inner), encode_inner_bytes(&no_addr.inner));
}

#[test]
fn tampering_any_field_breaks_verification() {
    let c = signer(b"N");
    let mut rec = make_record(b"N", Some(b"n-addr"), 3, &[b"M"]);
    assert!(rec.verify(&c));
    rec.inner.neighbors.push(key(b"Z"));
    assert!(!rec.verify(&c));
}

#[test]
fn lookup_addr_first_match_wins() {
    let assoc = vec![(key(b"X"), addr(b"one")), (key(b"X"), addr(b"two"))];
    assert_eq!(lookup_addr(&assoc, &key(b"X")).unwrap().bytes, b"one".to_vec());
    assert!(lookup_addr(&assoc, &key(b"Y")).is_none());
}

#[test]
fn modify_node_reissues_at_version() {
    let model = make_record(b"N", Some(b"n-addr"), 1, &[b"M"]);
    let c = signer(b"N");
    let reissued = modify_node(&model, Some(addr(b"fresh")), 2, &c);
    assert_eq!(reissued.inner.version, 2);
    assert_eq!(reissued.inner.public_key, key(b"N"));
    assert_eq!(reissued.inner.neighbors, vec![key(b"M")]);
    assert_eq!(reissued.metadata.resolved_address.as_ref().unwrap().bytes, b"fresh".to_vec());
    assert!(reissued.verify(&c));
}

#[test]
fn modify_node_preserves_desirability() {
    let mut model = make_record(b"N", Some(b"n-addr"), 1, &[b"M"]);
    model.metadata.desirable = false;
    let c = signer(b"N");
    let reissued = modify_node(&model, None, 2, &c);
    assert!(!reissued.metadata.desirable);

    let db = TopologyStore::new(model);
    let out = make_modified_node_records(&db, &vec![], 2);
    assert!(!out[0].metadata.desirable);
}

#[test]
fn make_modified_node_records_assigns_addresses() {
    let mut db = TopologyStore::new(make_record(b"A", Some(b"a-addr"), 1, &[b"B"]));
    let c_a = signer(b"A");
    db.add_or_replace(make_record(b"B", Some(b"b-addr"), 1, &[b"A"]), &c_a);
    let overrides = vec![(key(b"B"), addr(b"mock-b"))];

    let out = make_modified_node_records(&db, &overrides, 2);
    assert_eq!(out.len(), 2);
    for rec in out.iter() {
        assert_eq!(rec.inner.version, 2);
        let c = NullCryptDe::new(rec.inner.public_key.clone());
        assert!(rec.verify(&c));
    }
    let b = out.iter().find(|r| r.inner.public_key == key(b"B")).unwrap();
    assert_eq!(b.metadata.resolved_address.as_ref().unwrap().bytes, b"mock-b".to_vec());
    let a = out.iter().find(|r| r.inner.public_key == key(b"A")).unwrap();
    assert_eq!(a.metadata.resolved_address.as_ref().unwrap().bytes, b"a-addr".to_vec());
}

#[test]
fn local_db_from_node_resigns_root() {
    let node = make_record(b"A", Some(b"a-addr"), 5, &[b"B"]);
    let c = signer(b"A");
    let db = local_db_from_node(&node, &c);
    assert_eq!(db.root_key, key(b"A"));
    assert_eq!(db.root().inner.version, 5);
    assert!(db.root().verify(&c));
    assert_eq!(db.records.len(), 1);
}

#[test]
fn make_modified_db_mirrors_model_structure() {
    let root = make_record(b"A", Some(b"a-addr"), 2, &[b"B", b"C"]);
    let others = vec![
        make_record(b"B", Some(b"b-addr"), 2, &[b"A"]),
        make_record(b"C", None, 2, &[b"A"]),
        make_record(b"A", Some(b"elsewhere"), 9, &[]),  // the root is never folded in
    ];
    let c = signer(b"A");
    let db = make_modified_db(&root, &others, &c);
    assert_eq!(db.root_key, key(b"A"));
    assert_eq!(db.root().inner.version, 2);
    assert_eq!(db.root().inner.neighbors, vec![key(b"B"), key(b"C")]);
    assert!(db.node_by_key(&key(b"B")).is_some());
    assert!(db.node_by_key(&key(b"C")).is_some());
    assert!(db.full_neighbor(&key(b"A"), &key(b"B")));
    assert_eq!(db.records.len(), 3);
}

fn sample_gossip() -> neighborhood::record::Gossip {
    let a = make_record(b"A", Some(b"a-addr"), 2, &[b"B"]);
    let b = make_record(b"B", None, 7, &[b"A", b"C"]);
    neighborhood::record::Gossip {
        records: vec![
            neighborhood::record::GossipRecord {
                inner: neighborhood::record::clone_inner(&a.inner),
                signature: a.signature.clone(),
                network_address: Some(addr(b"a-addr")),
            },
            neighborhood::record::GossipRecord {
                inner: neighborhood::record::clone_inner(&b.inner),
                signature: b.signature.clone(),
                network_address: None,
            },
        ],
    }
}

#[test]
fn gossip_round_trips_through_wire_bytes() {
    let gossip = sample_gossip();
    let bytes = neighborhood::codec::encode_gossip(&gossip);
    let decoded = neighborhood::codec::decode_gossip(&bytes).unwrap();
    assert_eq!(decoded.records.len(), 2);
    for (orig, back) in gossip.records.iter().zip(decoded.records.iter()) {
        assert_eq!(back.inner.public_key, orig.inner.public_key);
        assert_eq!(back.inner.version, orig.inner.version);
        assert_eq!(back.inner.neighbors, orig.inner.neighbors);
        assert_eq!(back.signature.bytes, orig.signature.bytes);
        assert_eq!(
            back.network_address.as_ref().map(|a| a.bytes.clone()),
            orig.network_address.as_ref().map(|a| a.bytes.clone())
        );
    }
    // serialize -> deserialize -> serialize is byte-for-byte stable
    assert_eq!(neighborhood::codec::encode_gossip(&decoded), bytes);
}

#[test]
fn malformed_payloads_rejected_whole() {
    let gossip = sample_gossip();
    let bytes = neighborhood::codec::encode_gossip(&gossip);

    let truncated = bytes[..bytes.len() - 3].to_vec();
    assert!(neighborhood::codec::decode_gossip(&truncated).is_err());

    let mut trailing = bytes.clone();
    trailing.push(0);
    assert!(neighborhood::codec::decode_gossip(&trailing).is_err());

    assert!(neighborhood::codec::decode_gossip(&vec![1, 2, 3]).is_err());
}
