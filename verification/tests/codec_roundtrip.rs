//! The path codec: stored keys and values decode back to the path.

use tlfs_crdt::codec::{decode_entry, encode_key, encode_value};
use tlfs_crdt::dots::{Dot, PeerId};
use tlfs_crdt::error::CrdtError;
use tlfs_crdt::path::{Actor, DocId, PathBuf, Permission, Policy, Primitive};

fn peer(n: u8) -> PeerId {
    PeerId::new([n; 32])
}

fn roundtrip(p: &PathBuf) {
    let k = encode_key(p).unwrap();
    let v = encode_value(p);
    let q = decode_entry(&k, &v).unwrap();
    assert!(q.equals(p));
}

#[test]
fn roundtrip_set_leaf() {
    let mut p = PathBuf::new();
    p.doc(&DocId::new([1; 32]));
    p.set_leaf(Dot::new(peer(2), 9));
    roundtrip(&p);
}

#[test]
fn roundtrip_every_primitive() {
    for prim in [
        Primitive::Bool(true),
        Primitive::Bool(false),
        Primitive::U64(0),
        Primitive::U64(u64::MAX),
        Primitive::I64(-5),
        Primitive::I64(i64::MIN),
        Primitive::Str(b"key".to_vec()),
        Primitive::Str(Vec::new()),
    ] {
        let mut p = PathBuf::new();
        p.doc(&DocId::new([3; 32]));
        p.key(prim.clone());
        p.fun_leaf(Dot::new(peer(1), 1), prim);
        roundtrip(&p);
    }
}

#[test]
fn roundtrip_nested_map_and_record() {
    let mut p = PathBuf::new();
    p.doc(&DocId::new([0; 32]));
    p.field(b"todos".to_vec());
    p.key(Primitive::U64(3));
    p.field(b"title".to_vec());
    p.fun_leaf(Dot::new(peer(5), 77), Primitive::Str(b"buy milk".to_vec()));
    roundtrip(&p);
}

#[test]
fn roundtrip_policies() {
    for pol in [
        Policy::Can(Actor::Peer(peer(2)), Permission::Write),
        Policy::Can(Actor::Anonymous, Permission::Read),
        Policy::CanIf(Actor::Peer(peer(3)), Permission::Write, Permission::Read),
        Policy::Revokes(Dot::new(peer(1), 4)),
    ] {
        let mut p = PathBuf::new();
        p.doc(&DocId::new([9; 32]));
        p.policy_leaf(Dot::new(peer(1), 8), pol);
        roundtrip(&p);
    }
}

#[test]
fn encode_rejects_oversize_payload() {
    let mut p = PathBuf::new();
    p.doc(&DocId::new([0; 32]));
    p.field(vec![7u8; 70000]);
    p.set_leaf(Dot::new(peer(1), 1));
    assert_eq!(encode_key(&p), Err(CrdtError::InvalidPath));
}

#[test]
fn decode_rejects_garbage() {
    assert!(decode_entry(&Vec::new(), &Vec::new()).is_none());
    assert!(decode_entry(&vec![1, 2, 3], &Vec::new()).is_none());
    // a valid key whose trailing mirror byte is damaged
    let mut p = PathBuf::new();
    p.doc(&DocId::new([1; 32]));
    p.set_leaf(Dot::new(peer(2), 9));
    let mut k = encode_key(&p).unwrap();
    let last = k.len() - 1;
    k[last] ^= 0xff;
    assert!(decode_entry(&k, &Vec::new()).is_none());
    // a register key whose value bytes do not parse as a primitive
    let mut q = PathBuf::new();
    q.doc(&DocId::new([1; 32]));
    q.fun_leaf(Dot::new(peer(2), 9), Primitive::U64(1));
    let kq = encode_key(&q).unwrap();
    assert!(decode_entry(&kq, &vec![9, 9]).is_none());
}

#[test]
fn encode_is_injective_on_distinct_paths() {
    let mut p = PathBuf::new();
    p.doc(&DocId::new([1; 32]));
    p.field(b"a".to_vec());
    p.set_leaf(Dot::new(peer(2), 1));
    let mut q = PathBuf::new();
    q.doc(&DocId::new([1; 32]));
    q.field(b"b".to_vec());
    q.set_leaf(Dot::new(peer(2), 1));
    assert_ne!(encode_key(&p).unwrap(), encode_key(&q).unwrap());
}
