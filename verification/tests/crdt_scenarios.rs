//! End-to-end scenarios against the flat sled-backed store.

use tlfs_crdt::causal::{Causal, CausalContext};
use tlfs_crdt::crdt::Crdt;
use tlfs_crdt::dots::{Dot, DotSet, PeerId};
use tlfs_crdt::store::DotStore;
use tlfs_crdt::path::{Actor, DocId, PathBuf, Permission, Policy, Primitive};

fn peer(n: u8) -> PeerId {
    PeerId::new([n; 32])
}

fn replica() -> (sled::Db, Crdt) {
    let db = sled::Config::new().temporary(true).open().unwrap();
    let state = db.open_tree("state").unwrap();
    let expired = db.open_tree("expired").unwrap();
    (db, Crdt::new(state, expired))
}

/// The document is owned by the peer whose identity it carries.
fn doc_of(owner: &PeerId) -> DocId {
    DocId::new(owner.bytes)
}

fn u64s(crdt: &Crdt, path: &PathBuf) -> Vec<u64> {
    let mut out: Vec<u64> = crdt
        .values(path)
        .unwrap()
        .into_iter()
        .filter_map(|p| match p {
            Primitive::U64(n) => Some(n),
            _ => None,
        })
        .collect();
    out.sort();
    out
}

#[test]
fn test_ewflag() {
    let owner = peer(0);
    let doc = doc_of(&owner);
    let (_db, mut crdt) = replica();
    let mut flag = PathBuf::new();
    flag.doc(&doc);
    flag.field(b"a".to_vec());
    flag.field(b"b".to_vec());

    let op = crdt.enable(&flag, &owner).unwrap();
    assert!(!crdt.enabled(&flag).unwrap());
    crdt.join(&owner, &doc, &op).unwrap();
    assert!(crdt.enabled(&flag).unwrap());

    let op = crdt.disable(&flag, &owner).unwrap();
    crdt.join(&owner, &doc, &op).unwrap();
    assert!(!crdt.enabled(&flag).unwrap());
}

#[test]
fn test_ewflag_unjoin() {
    let owner = peer(0);
    let doc = doc_of(&owner);
    let (_da, mut a) = replica();
    let (_dbb, mut b) = replica();
    let mut flag = PathBuf::new();
    flag.doc(&doc);
    flag.field(b"f".to_vec());

    // replica A enables; B sees the enable
    let op = a.enable(&flag, &owner).unwrap();
    a.join(&owner, &doc, &op).unwrap();
    b.join(&owner, &doc, &op).unwrap();
    assert!(a.enabled(&flag).unwrap());
    assert!(b.enabled(&flag).unwrap());

    // A disables; B has not seen it
    let ctx_b = b.ctx(&doc).unwrap();
    let op = a.disable(&flag, &owner).unwrap();
    a.join(&owner, &doc, &op).unwrap();
    assert!(!a.enabled(&flag).unwrap());
    assert!(b.enabled(&flag).unwrap());

    // B advertises its context; A answers with the delta; B applies it
    let delta = a.unjoin(&owner, &doc, &ctx_b).unwrap();
    b.join(&owner, &doc, &delta).unwrap();
    assert!(!a.enabled(&flag).unwrap());
    assert!(!b.enabled(&flag).unwrap());
}

#[test]
fn test_mvreg() {
    let peer1 = peer(1);
    let peer2 = peer(2);
    let doc = doc_of(&peer1);
    let (_d1, mut c1) = replica();
    let (_d2, mut c2) = replica();
    let (_d3, mut c3) = replica();
    let mut root = PathBuf::new();
    root.doc(&doc);
    let mut reg = root.clone();
    reg.field(b"reg".to_vec());

    // the owner grants peer 2 write access; every replica learns of it
    let grant = c1
        .say(&root, &peer1, Policy::Can(Actor::Peer(peer2), Permission::Write))
        .unwrap();
    c1.join(&peer1, &doc, &grant).unwrap();
    c2.join(&peer1, &doc, &grant).unwrap();
    c3.join(&peer1, &doc, &grant).unwrap();

    // concurrent assignments on separate replicas
    let op1 = c1.assign(&reg, &peer1, Primitive::U64(42)).unwrap();
    c1.join(&peer1, &doc, &op1).unwrap();
    let op2 = c2.assign(&reg, &peer2, Primitive::U64(43)).unwrap();
    c2.join(&peer2, &doc, &op2).unwrap();

    // a third replica sees both: the register is multi-valued
    c3.join(&peer1, &doc, &op1).unwrap();
    c3.join(&peer2, &doc, &op2).unwrap();
    assert_eq!(u64s(&c3, &reg), vec![42, 43]);

    // a later assignment that observed both collapses the register
    let op3 = c3.assign(&reg, &peer1, Primitive::U64(99)).unwrap();
    c3.join(&peer1, &doc, &op3).unwrap();
    assert_eq!(u64s(&c3, &reg), vec![99]);
}

#[test]
fn test_ormap() {
    let owner = peer(1);
    let doc = doc_of(&owner);
    let (_db, mut crdt) = replica();
    let a = Primitive::Str(b"a".to_vec());
    let b = Primitive::Str(b"b".to_vec());
    let mut entry = PathBuf::new();
    entry.doc(&doc);
    entry.key(a);
    let mut inner = entry.clone();
    inner.key(b);

    let op = crdt.assign(&inner, &owner, Primitive::U64(42)).unwrap();
    crdt.join(&owner, &doc, &op).unwrap();
    assert_eq!(u64s(&crdt, &inner), vec![42]);

    let op = crdt.remove(&inner, &owner).unwrap();
    crdt.join(&owner, &doc, &op).unwrap();
    assert!(u64s(&crdt, &inner).is_empty());
}

#[test]
fn context_tracks_live_and_expired_dots() {
    let owner = peer(4);
    let doc = doc_of(&owner);
    let (_db, mut crdt) = replica();
    let mut flag = PathBuf::new();
    flag.doc(&doc);
    flag.field(b"x".to_vec());

    let op = crdt.enable(&flag, &owner).unwrap();
    let d = op.store().iter()[0].dot();
    crdt.join(&owner, &doc, &op).unwrap();
    let ctx = crdt.ctx(&doc).unwrap();
    assert!(ctx.dots().contains(&d));
    assert!(!ctx.expired().contains(&d));

    let op = crdt.disable(&flag, &owner).unwrap();
    crdt.join(&owner, &doc, &op).unwrap();
    let ctx = crdt.ctx(&doc).unwrap();
    assert!(ctx.expired().contains(&d));
}

#[test]
fn persistence_roundtrip() {
    // encoding a causal into a fresh store and reading it back yields
    // the same causal
    let owner = peer(3);
    let doc = doc_of(&owner);
    let (_db, mut crdt) = replica();

    let mut flag = PathBuf::new();
    flag.doc(&doc);
    flag.field(b"done".to_vec());
    flag.set_leaf(Dot::new(owner, 1));
    let mut reg = PathBuf::new();
    reg.doc(&doc);
    reg.key(Primitive::U64(5));
    reg.fun_leaf(Dot::new(owner, 2), Primitive::Str(b"v".to_vec()));
    let mut pol = PathBuf::new();
    pol.doc(&doc);
    pol.policy_leaf(Dot::new(owner, 3), Policy::Can(Actor::Anonymous, Permission::Read));
    let mut store = DotStore::new();
    store.insert(flag);
    store.insert(reg);
    store.insert(pol);
    let causal = Causal::from_parts(store, DotSet::from_dots(vec![Dot::new(owner, 4)]));

    crdt.join(&owner, &doc, &causal).unwrap();
    let back = crdt.unjoin(&owner, &doc, &CausalContext::new()).unwrap();
    assert!(back.store().set_equals(causal.store()));
    assert!(back.expired().set_equals(causal.expired()));
    assert!(back.equals(&causal));
}

#[test]
fn crdt_join_matches_causal_join() {
    // joining two deltas through the store gives the same causal as the
    // pure lattice join
    let owner = peer(6);
    let doc = doc_of(&owner);
    let (_db, mut crdt) = replica();

    let mut live1 = PathBuf::new();
    live1.doc(&doc);
    live1.field(b"a".to_vec());
    live1.set_leaf(Dot::new(owner, 1));
    let mut live2 = PathBuf::new();
    live2.doc(&doc);
    live2.field(b"b".to_vec());
    live2.fun_leaf(Dot::new(owner, 2), Primitive::U64(8));
    let mut store_a = DotStore::new();
    store_a.insert(live1);
    store_a.insert(live2);
    let a = Causal::from_parts(store_a, DotSet::new());

    // b expires the first leaf of a and brings one of its own
    let mut live3 = PathBuf::new();
    live3.doc(&doc);
    live3.field(b"c".to_vec());
    live3.set_leaf(Dot::new(owner, 3));
    let mut store_b = DotStore::new();
    store_b.insert(live3);
    let b = Causal::from_parts(store_b, DotSet::from_dots(vec![Dot::new(owner, 1)]));

    crdt.join(&owner, &doc, &a).unwrap();
    crdt.join(&owner, &doc, &b).unwrap();
    let persisted = crdt.unjoin(&owner, &doc, &CausalContext::new()).unwrap();

    let mut pure = a.clone();
    pure.join(&b);
    assert!(persisted.store().set_equals(pure.store()));
    assert!(persisted.expired().set_equals(pure.expired()));
}
