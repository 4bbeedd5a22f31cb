//! Authorization checks at mutation entry points and at merges.

use tlfs_crdt::causal::Causal;
use tlfs_crdt::crdt::Crdt;
use tlfs_crdt::dots::{Dot, DotSet, PeerId};
use tlfs_crdt::error::CrdtError;
use tlfs_crdt::path::{Actor, DocId, PathBuf, Permission, Policy, Primitive};
use tlfs_crdt::store::DotStore;

fn peer(n: u8) -> PeerId {
    PeerId::new([n; 32])
}

fn replica() -> (sled::Db, Crdt) {
    let db = sled::Config::new().temporary(true).open().unwrap();
    let state = db.open_tree("state").unwrap();
    let expired = db.open_tree("expired").unwrap();
    (db, Crdt::new(state, expired))
}

#[test]
fn unauthorized_mutation_is_refused() {
    let owner = peer(1);
    let stranger = peer(2);
    let doc = DocId::new(owner.bytes);
    let (_db, crdt) = replica();
    let mut path = PathBuf::new();
    path.doc(&doc);
    path.field(b"x".to_vec());
    assert!(matches!(
        crdt.assign(&path, &stranger, Primitive::U64(1)),
        Err(CrdtError::Unauthorized)
    ));
    assert!(!crdt.can(&stranger, Permission::Read, &path).unwrap());
    assert!(crdt.can(&owner, Permission::Own, &path).unwrap());
}

#[test]
fn join_filters_unauthorized_writes() {
    // peer 2, lacking Write, sends a delta adding a map entry
    let owner = peer(1);
    let intruder = peer(2);
    let doc = DocId::new(owner.bytes);
    let (_db, mut crdt) = replica();
    let mut entry = PathBuf::new();
    entry.doc(&doc);
    entry.key(Primitive::Str(b"a".to_vec()));
    let mut leaf = entry.clone();
    leaf.fun_leaf(Dot::new(intruder, 1), Primitive::U64(13));
    let mut store = DotStore::new();
    store.insert(leaf);
    let forged = Causal::from_parts(store, DotSet::new());

    crdt.join(&intruder, &doc, &forged).unwrap();
    assert!(crdt.values(&entry).unwrap().is_empty());

    // the same delta from the owner lands
    let mut leaf2 = entry.clone();
    leaf2.fun_leaf(Dot::new(owner, 1), Primitive::U64(13));
    let mut store2 = DotStore::new();
    store2.insert(leaf2);
    let honest = Causal::from_parts(store2, DotSet::new());
    crdt.join(&owner, &doc, &honest).unwrap();
    assert_eq!(crdt.values(&entry).unwrap(), vec![Primitive::U64(13)]);
}

#[test]
fn granted_peer_may_write_until_revoked() {
    let owner = peer(1);
    let guest = peer(2);
    let doc = DocId::new(owner.bytes);
    let (_db, mut crdt) = replica();
    let mut root = PathBuf::new();
    root.doc(&doc);
    let mut item = root.clone();
    item.field(b"notes".to_vec());

    let grant = crdt
        .say(&root, &owner, Policy::Can(Actor::Peer(guest), Permission::Write))
        .unwrap();
    let grant_dot = grant.store().iter()[0].dot();
    crdt.join(&owner, &doc, &grant).unwrap();
    assert!(crdt.can(&guest, Permission::Write, &item).unwrap());

    let revoke = crdt
        .say(&root, &owner, Policy::Revokes(grant_dot))
        .unwrap();
    crdt.join(&owner, &doc, &revoke).unwrap();
    assert!(!crdt.can(&guest, Permission::Write, &item).unwrap());
}

#[test]
fn conditional_grant_follows_its_condition() {
    let owner = peer(1);
    let guest = peer(2);
    let doc = DocId::new(owner.bytes);
    let (_db, mut crdt) = replica();
    let mut root = PathBuf::new();
    root.doc(&doc);

    // writing is granted to whoever already holds Read here
    let cond = crdt
        .say(
            &root,
            &owner,
            Policy::CanIf(Actor::Peer(guest), Permission::Write, Permission::Read),
        )
        .unwrap();
    crdt.join(&owner, &doc, &cond).unwrap();
    assert!(!crdt.can(&guest, Permission::Write, &root).unwrap());

    let read = crdt
        .say(&root, &owner, Policy::Can(Actor::Peer(guest), Permission::Read))
        .unwrap();
    crdt.join(&owner, &doc, &read).unwrap();
    assert!(crdt.can(&guest, Permission::Write, &root).unwrap());
}

#[test]
fn concurrent_policy_ops_commute() {
    // the owner grants Write to peer 2 while revoking its earlier Read;
    // both application orders give the same policy state
    let owner = peer(1);
    let guest = peer(2);
    let doc = DocId::new(owner.bytes);
    let (_d0, mut base) = replica();
    let mut root = PathBuf::new();
    root.doc(&doc);

    let read = base
        .say(&root, &owner, Policy::Can(Actor::Peer(guest), Permission::Read))
        .unwrap();
    let read_dot = read.store().iter()[0].dot();
    base.join(&owner, &doc, &read).unwrap();

    let grant = base
        .say(&root, &owner, Policy::Can(Actor::Peer(guest), Permission::Write))
        .unwrap();
    base.join(&owner, &doc, &grant).unwrap();
    let revoke = base
        .say(&root, &owner, Policy::Revokes(read_dot))
        .unwrap();

    let (_d1, mut one) = replica();
    one.join(&owner, &doc, &read).unwrap();
    one.join(&owner, &doc, &grant).unwrap();
    one.join(&owner, &doc, &revoke).unwrap();

    let (_d2, mut two) = replica();
    two.join(&owner, &doc, &read).unwrap();
    two.join(&owner, &doc, &revoke).unwrap();
    two.join(&owner, &doc, &grant).unwrap();

    for perm in [Permission::Read, Permission::Write, Permission::Control, Permission::Own] {
        assert_eq!(
            one.can(&guest, perm, &root).unwrap(),
            two.can(&guest, perm, &root).unwrap()
        );
    }
    let ctx1 = one.ctx(&doc).unwrap();
    let ctx2 = two.ctx(&doc).unwrap();
    assert!(ctx1.dots().set_equals(ctx2.dots()));
    assert!(ctx1.expired().set_equals(ctx2.expired()));
    // the write grant survives, the read grant is gone
    assert!(one.can(&guest, Permission::Write, &root).unwrap());
}

#[test]
fn exhausted_counter_is_fatal_for_the_peer() {
    let owner = peer(1);
    let doc = DocId::new(owner.bytes);
    let (_db, mut crdt) = replica();
    let mut root = PathBuf::new();
    root.doc(&doc);
    let mut flag = root.clone();
    flag.field(b"f".to_vec());

    // a delta that expires the owner's largest possible dot
    let spent = Causal::from_parts(
        DotStore::new(),
        DotSet::from_dots(vec![Dot::new(owner, u64::MAX)]),
    );
    crdt.join(&owner, &doc, &spent).unwrap();
    assert!(matches!(
        crdt.enable(&flag, &owner),
        Err(CrdtError::ExhaustedCounter)
    ));
}
