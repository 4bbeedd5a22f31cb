//! The join / unjoin algebra on concrete values.

use tlfs_crdt::causal::{Causal, CausalContext};
use tlfs_crdt::dots::{Dot, DotSet, PeerId};
use tlfs_crdt::path::{PathBuf, Primitive, Segment};
use tlfs_crdt::store::DotStore;

fn peer(n: u8) -> PeerId {
    PeerId::new([n; 32])
}

fn dot(n: u8, c: u64) -> Dot {
    Dot::new(peer(n), c)
}

/// A causal with two live set members under a field and one expired dot.
fn sample() -> Causal {
    let leaves = DotStore::dotset(vec![dot(1, 1), dot(2, 1)]);
    let store = DotStore::record(vec![(b"flag".to_vec(), leaves)]);
    let expired = DotSet::from_dots(vec![dot(1, 2)]);
    Causal::from_parts(store, expired)
}

fn sample_fun() -> Causal {
    let store = DotStore::dotfun(vec![
        (dot(1, 3), Primitive::U64(42)),
        (dot(2, 3), Primitive::Str(b"x".to_vec())),
    ]);
    Causal::from_parts(store, DotSet::new())
}

#[test]
fn join_idempotent() {
    let mut a = sample();
    let b = sample();
    a.join(&b);
    assert!(a.equals(&sample()));
}

#[test]
fn join_commutative() {
    let mut ab = sample();
    ab.join(&sample_fun());
    let mut ba = sample_fun();
    ba.join(&sample());
    assert!(ab.equals(&ba));
}

#[test]
fn join_associative() {
    let c = Causal::from_parts(
        DotStore::dotset(vec![dot(3, 1)]),
        DotSet::from_dots(vec![dot(2, 1)]),
    );
    let mut left = sample();
    left.join(&sample_fun());
    left.join(&c);
    let mut bc = sample_fun();
    bc.join(&c);
    let mut right = sample();
    right.join(&bc);
    assert!(left.equals(&right));
}

#[test]
fn unjoin_roundtrip() {
    let a = sample();
    // a context that has seen one live dot and one unrelated dot
    let k = CausalContext::from_parts(
        DotSet::from_dots(vec![dot(1, 1), dot(9, 7)]),
        DotSet::new(),
    );
    let delta = a.unjoin(&k);
    let mut joined = sample();
    joined.join(&delta);
    assert!(joined.equals(&a));
}

#[test]
fn unjoin_covers_store() {
    let a = sample();
    // b has seen a subset of a's live dots
    let b = Causal::from_parts(DotStore::dotset(vec![]), DotSet::new());
    let delta = a.unjoin(&b.ctx());
    let mut joined = sample();
    joined.join(&delta);
    assert!(joined.store().set_equals(a.store()));
}

#[test]
fn unjoin_of_full_context_is_empty() {
    let a = sample();
    let delta = a.unjoin(&a.ctx());
    assert!(delta.store().is_empty());
}

#[test]
fn join_drops_expired_leaves() {
    // the other side has observed dot (1,1) as removed
    let mut a = sample();
    let b = Causal::from_parts(DotStore::new(), DotSet::from_dots(vec![dot(1, 1)]));
    a.join(&b);
    let mut fields = PathBuf::new();
    fields.field(b"flag".to_vec());
    let mut survivor = fields.clone();
    survivor.set_leaf(dot(2, 1));
    let mut removed = fields;
    removed.set_leaf(dot(1, 1));
    assert!(a.store().contains(&survivor));
    assert!(!a.store().contains(&removed));
    assert!(a.expired().contains(&dot(1, 1)));
}

#[test]
fn dotset_operations() {
    let mut s = DotSet::from_pairs(vec![(peer(1), 1), (peer(1), 2)]);
    assert!(s.contains(&dot(1, 1)));
    assert!(!s.contains(&dot(2, 1)));
    s.insert(dot(2, 5));
    let t = DotSet::from_dots(vec![dot(1, 2), dot(2, 5), dot(3, 3)]);
    let i = s.intersection(&t);
    assert!(i.contains(&dot(1, 2)));
    assert!(i.contains(&dot(2, 5)));
    assert!(!i.contains(&dot(1, 1)));
    let d = s.difference(&t);
    assert!(d.contains(&dot(1, 1)));
    assert!(!d.contains(&dot(2, 5)));
    let mut u = s.duplicate();
    u.union(&t);
    assert!(u.contains(&dot(3, 3)));
    assert!(u.contains(&dot(1, 1)));
    assert_eq!(s.max_counter(&peer(1)), 2);
    assert_eq!(s.max_counter(&peer(9)), 0);
}

#[test]
fn store_constructors() {
    let inner = DotStore::dotfun(vec![(dot(1, 1), Primitive::U64(7))]);
    let m = DotStore::dotmap(vec![(Primitive::Str(b"k".to_vec()), inner)]);
    let mut expect = PathBuf::new();
    expect.key(Primitive::Str(b"k".to_vec()));
    expect.fun_leaf(dot(1, 1), Primitive::U64(7));
    assert!(m.contains(&expect));
    assert!(!m.is_empty());
    assert!(DotStore::new().is_empty());

    let pol = DotStore::policy(vec![(
        dot(1, 2),
        tlfs_crdt::path::Policy::Can(tlfs_crdt::path::Actor::Anonymous, tlfs_crdt::path::Permission::Read),
    )]);
    assert_eq!(pol.iter().len(), 1);

    // prefixing moves every path under the given node
    let mut node = PathBuf::new();
    node.doc(&tlfs_crdt::path::DocId::new([0; 32]));
    let wrapped = m.prefix(&node);
    let mut expect2 = node.clone();
    expect2.extend(&expect);
    assert!(wrapped.contains(&expect2));

    // dots lists every leaf dot
    let ds = DotSet::from_dots(wrapped.dots());
    assert!(ds.contains(&dot(1, 1)));
}

#[test]
fn store_insert_unjoin() {
    let mut s = DotStore::new();
    let mut p = PathBuf::new();
    p.set_leaf(dot(4, 4));
    s.insert(p.clone());
    assert!(s.contains(&p));
    let kept = s.unjoin(&DotSet::from_dots(vec![dot(4, 4)]));
    assert!(kept.contains(&p));
    let dropped = s.unjoin(&DotSet::new());
    assert!(dropped.is_empty());
}

#[test]
fn path_operations() {
    let mut p = PathBuf::new();
    p.doc(&tlfs_crdt::path::DocId::new([7; 32]));
    p.field(b"a".to_vec());
    p.set_leaf(dot(1, 1));
    assert_eq!(p.len(), 3);
    assert_eq!(p.dot(), dot(1, 1));
    let parent = p.parent();
    assert_eq!(parent.len(), 2);
    assert!(parent.is_prefix_of(&p));
    assert!(!p.is_prefix_of(&parent));
    assert!(p.equals(&p.duplicate()));
    match p.segment(1) {
        Segment::Field(f) => assert_eq!(f, b"a"),
        _ => panic!("expected a field segment"),
    }
}
