use vstd::prelude::*;

use crate::acl::{acl_allows, acl_eval, eset, EntryV, PolicyEntry};
use crate::causal::{Causal, CausalContext};
use crate::codec::{
    decode_entry, encode_key, encode_value, key_bytes, lemma_byte_prefix_iff,
    lemma_parse_exact, lemma_path_roundtrip, lemma_seg_prefix_bytes, parse_path, path_valid,
    value_bytes,
};
use crate::dots::{Dot, DotSet, DotV, PeerId};
use crate::error::CrdtError;
use crate::kv::KvTree;
use crate::path::{
    path_dot, seg_is_leaf, store_path_wf, DocId, PathBuf, PathV, Permission, Policy,
    Primitive, SegV, Segment,
};
use crate::store::{store_dots, store_wf, DotStore};

verus! {

/// The leaf paths a byte-keyed tree holds: every entry that parses.
pub open spec fn stored_paths(m: Map<Seq<u8>, Seq<u8>>) -> Set<PathV> {
    Set::new(
        |p: PathV|
            exists|kb: Seq<u8>|
                #[trigger] m.contains_key(kb) && parse_path(kb, m[kb]) == Some(p),
    )
}

/// The stored leaf paths below a node path.
pub open spec fn subtree_paths(m: Map<Seq<u8>, Seq<u8>>, pp: PathV) -> Set<PathV> {
    Set::new(|p: PathV| stored_paths(m).contains(p) && pp.is_prefix_of(p))
}

/// The node path of a whole document.
pub open spec fn doc_root(doc: Seq<u8>) -> PathV {
    seq![SegV::Root(doc)]
}

/// The dots of the stored leaves below a node path.
pub open spec fn subtree_dots(m: Map<Seq<u8>, Seq<u8>>, pp: PathV) -> Set<DotV> {
    store_dots(subtree_paths(m, pp))
}

/// The dots of the stored set and register leaves below a node path;
/// policy statements are not data and are not swept by a removal.
pub open spec fn subtree_data_dots(m: Map<Seq<u8>, Seq<u8>>, pp: PathV) -> Set<DotV> {
    Set::new(
        |d: DotV|
            exists|p: PathV|
                #[trigger] subtree_paths(m, pp).contains(p) && path_dot(p) == d && (p.last()
                    is SetLeaf || p.last() is FunLeaf),
    )
}

/// Whether the tree grants `peer` at least `perm` at `path`: the peer
/// whose identity the document carries owns it; anyone else needs an
/// applicable unrevoked policy statement.
pub open spec fn can_spec(
    m: Map<Seq<u8>, Seq<u8>>,
    doc: Seq<u8>,
    peer: Seq<u8>,
    perm: Permission,
    path: PathV,
) -> bool {
    peer == doc || acl_allows(doc_policies(m, doc), peer, perm, path)
}

/// The policy statements stored in a document.
pub open spec fn doc_policies(m: Map<Seq<u8>, Seq<u8>>, doc: Seq<u8>) -> Set<EntryV> {
    Set::new(
        |e: EntryV|
            subtree_paths(m, doc_root(doc)).contains(
                e.at.push(SegV::PolicyLeaf(e.dot, e.policy)),
            ),
    )
}

/// A path that names a node of the tree: rooted, leaf-free, and
/// framable.
pub open spec fn node_path_wf(p: PathV) -> bool {
    &&& p.len() >= 1
    &&& p[0] is Root
    &&& forall|i: int| 0 <= i < p.len() ==> !seg_is_leaf(#[trigger] p[i])
    &&& forall|i: int| 0 < i < p.len() ==> !(#[trigger] p[i] is Root)
    &&& path_valid(p)
}

/// The flat path-keyed store of one replica: live leaves in `state`,
/// removed dots in `expired`, both kept in the embedded byte-keyed
/// trees.
pub struct Crdt {
    state: KvTree,
    expired: KvTree,
}

impl Crdt {
    /// The entries of the live tree.
    pub closed spec fn state_map(&self) -> Map<Seq<u8>, Seq<u8>> {
        self.state.contents()
    }

    /// The entries of the expired tree.
    pub closed spec fn expired_map(&self) -> Map<Seq<u8>, Seq<u8>> {
        self.expired.contents()
    }

    /// Open a replica over its two persisted trees.
    pub fn new(state: sled::Tree, expired: sled::Tree) -> (r: Crdt)
        ensures
            r.state_map() == crate::kv::kv_contents(state),
            r.expired_map() == crate::kv::kv_contents(expired),
    {
        Crdt { state: KvTree::new(state), expired: KvTree::new(expired) }
    }
}

/// What a scan returns: exactly the stored paths below the prefix,
/// each well formed and framable.
pub open spec fn scan_post(m: Map<Seq<u8>, Seq<u8>>, pp: PathV, out: Seq<PathBuf>) -> bool {
    &&& forall|j: int| 0 <= j < out.len() ==> {
        &&& subtree_paths(m, pp).contains(#[trigger] out[j]@)
        &&& store_path_wf(out[j]@)
        &&& path_valid(out[j]@)
    }
    &&& forall|p: PathV|
        subtree_paths(m, pp).contains(p) ==> exists|j: int|
            0 <= j < out.len() && #[trigger] out[j]@ == p
}

/// Every stored path below `prefix`, each well formed and framable.
fn scan_paths(tree: &KvTree, prefix: &PathBuf) -> (r: Result<Vec<PathBuf>, CrdtError>)
    requires
        node_path_wf(prefix@),
    ensures
        r matches Ok(out) ==> scan_post(tree.contents(), prefix@, out@),
        r is Err ==> r->Err_0 == CrdtError::StorageFailure,
{
    let key = match encode_key(prefix) {
        Ok(k) => k,
        Err(_) => {
            proof {
                assert(false);
            }
            return Err(CrdtError::StorageFailure);
        },
    };
    let scanned = match tree.scan_prefix(&key) {
        Ok(s) => s,
        Err(_) => {
            return Err(CrdtError::StorageFailure);
        },
    };
    let ghost m = tree.contents();
    let mut out: Vec<PathBuf> = Vec::new();
    let mut i: usize = 0;
    while i < scanned.len()
        invariant
            node_path_wf(prefix@),
            key@ == key_bytes(prefix@),
            i <= scanned@.len(),
            forall|j: int| 0 <= j < scanned@.len() ==> {
                &&& key@.is_prefix_of(#[trigger] scanned@[j].0@)
                &&& m.contains_key(scanned@[j].0@)
                &&& m[scanned@[j].0@] == scanned@[j].1@
            },
            forall|j: int| 0 <= j < out@.len() ==> {
                &&& subtree_paths(m, prefix@).contains(#[trigger] out@[j]@)
                &&& store_path_wf(out@[j]@)
                &&& path_valid(out@[j]@)
            },
            forall|j: int| 0 <= j < i ==> (match parse_path(
                (#[trigger] scanned@[j]).0@,
                scanned@[j].1@,
            ) {
                Some(q) => exists|l: int| 0 <= l < out@.len() && #[trigger] out@[l]@ == q,
                None => true,
            }),
        decreases scanned@.len() - i,
    {
        let (k, v) = (&scanned[i].0, &scanned[i].1);
        let ghost old_out = out@;
        match decode_entry(k, v) {
            Some(p) => {
                proof {
                    lemma_parse_exact(k@, v@);
                    lemma_byte_prefix_iff(prefix@, k@, v@, true);
                    assert(stored_paths(m).contains(p@)) by {
                        assert(m.contains_key(k@) && parse_path(k@, m[k@]) == Some(p@));
                    }
                    assert(subtree_paths(m, prefix@).contains(p@));
                }
                out.push(p);
            },
            None => {},
        }
        i += 1;
        proof {
            assert forall|j: int| 0 <= j < i implies (match parse_path(
                (#[trigger] scanned@[j]).0@,
                scanned@[j].1@,
            ) {
                Some(q) => exists|l: int| 0 <= l < out@.len() && #[trigger] out@[l]@ == q,
                None => true,
            }) by {
                match parse_path(scanned@[j].0@, scanned@[j].1@) {
                    Some(q) => {
                        if j < i - 1 {
                            let l = choose|l: int|
                                0 <= l < old_out.len() && #[trigger] old_out[l]@ == q;
                            assert(out@[l]@ == q);
                        } else {
                            assert(out@[out@.len() - 1]@ == q);
                        }
                    },
                    None => {},
                }
            }
        }
    }
    proof {
        assert forall|p: PathV| subtree_paths(m, prefix@).contains(p) implies exists|j: int|
            0 <= j < out@.len() && #[trigger] out@[j]@ == p by {
            let kb = choose|kb: Seq<u8>|
                #[trigger] m.contains_key(kb) && parse_path(kb, m[kb]) == Some(p);
            lemma_parse_exact(kb, m[kb]);
            assert(kb == key_bytes(p));
            lemma_seg_prefix_bytes(prefix@, p);
            assert(key@.is_prefix_of(kb));
            let j = choose|j: int| 0 <= j < scanned@.len() && #[trigger] scanned@[j].0@ == kb;
            assert(scanned@[j].1@ == m[kb]);
            assert(parse_path(scanned@[j].0@, scanned@[j].1@) == Some(p));
        }
        assert(scan_post(tree.contents(), prefix@, out@));
    }
    Ok(out)
}

/// The dots of the listed leaf paths.
fn dots_of_paths(paths: &Vec<PathBuf>) -> (r: DotSet)
    requires
        forall|j: int| 0 <= j < paths@.len() ==> store_path_wf(#[trigger] paths@[j]@),
    ensures
        forall|d: DotV| r@.contains(d)
            <==> exists|j: int| 0 <= j < paths@.len() && path_dot(#[trigger] paths@[j]@) == d,
{
    let mut r = DotSet::new();
    let mut i: usize = 0;
    while i < paths.len()
        invariant
            forall|j: int| 0 <= j < paths@.len() ==> store_path_wf(#[trigger] paths@[j]@),
            i <= paths@.len(),
            forall|d: DotV| r@.contains(d)
                <==> exists|j: int| 0 <= j < i && path_dot(#[trigger] paths@[j]@) == d,
        decreases paths@.len() - i,
    {
        let d = paths[i].dot();
        r.insert(d);
        i += 1;
    }
    r
}

/// The policy statements among the listed paths of one document.
fn gather_policies(paths: &Vec<PathBuf>) -> (r: Vec<PolicyEntry>)
    requires
        forall|j: int| 0 <= j < paths@.len() ==> store_path_wf(#[trigger] paths@[j]@),
    ensures
        forall|e: EntryV| eset(r@).contains(e)
            <==> exists|j: int| 0 <= j < paths@.len() && #[trigger] paths@[j]@ == e.at.push(
                SegV::PolicyLeaf(e.dot, e.policy),
            ),
{
    let mut r: Vec<PolicyEntry> = Vec::new();
    let mut i: usize = 0;
    while i < paths.len()
        invariant
            forall|j: int| 0 <= j < paths@.len() ==> store_path_wf(#[trigger] paths@[j]@),
            i <= paths@.len(),
            forall|e: EntryV| eset(r@).contains(e)
                <==> exists|j: int| 0 <= j < i && #[trigger] paths@[j]@ == e.at.push(
                    SegV::PolicyLeaf(e.dot, e.policy),
                ),
        decreases paths@.len() - i,
    {
        let p = &paths[i];
        let n = p.len();
        let ghost prev = r@;
        match p.segment(n - 1) {
            Segment::PolicyLeaf(d, pol) => {
                let at = p.parent();
                let entry = PolicyEntry { at, dot: *d, policy: *pol };
                proof {
                    assert(p@.last() == SegV::PolicyLeaf(entry@.dot, entry@.policy));
                    assert(entry@.at.push(SegV::PolicyLeaf(entry@.dot, entry@.policy))
                        =~= p@);
                    crate::acl::lemma_eset_push(prev, entry);
                }
                r.push(entry);
                proof {
                    assert forall|e: EntryV| eset(r@).contains(e) implies (exists|j: int|
                        0 <= j < i + 1 && #[trigger] paths@[j]@ == e.at.push(
                            SegV::PolicyLeaf(e.dot, e.policy),
                        )) by {
                        if e == entry@ {
                            assert(paths@[i as int]@ == e.at.push(
                                SegV::PolicyLeaf(e.dot, e.policy),
                            ));
                        }
                    }
                    assert forall|e: EntryV|
                        (exists|j: int|
                            0 <= j < i + 1 && #[trigger] paths@[j]@ == e.at.push(
                                SegV::PolicyLeaf(e.dot, e.policy),
                            )) implies eset(r@).contains(e) by {
                        let j = choose|j: int|
                            0 <= j < i + 1 && #[trigger] paths@[j]@ == e.at.push(
                                SegV::PolicyLeaf(e.dot, e.policy),
                            );
                        if j == i {
                            let a = e.at.push(SegV::PolicyLeaf(e.dot, e.policy));
                            let b = entry@.at.push(
                                SegV::PolicyLeaf(entry@.dot, entry@.policy),
                            );
                            assert(a == b);
                            assert(a.last() == b.last());
                            assert(e.at =~= a.drop_last());
                            assert(entry@.at =~= b.drop_last());
                            assert(e =~= entry@);
                            assert(eset(r@).contains(entry@));
                        }
                    }
                }
            },
            _ => {
                proof {
                    assert forall|e: EntryV| eset(r@).contains(e) implies (exists|j: int|
                        0 <= j < i + 1 && #[trigger] paths@[j]@ == e.at.push(
                            SegV::PolicyLeaf(e.dot, e.policy),
                        )) by {}
                    assert forall|e: EntryV|
                        (exists|j: int|
                            0 <= j < i + 1 && #[trigger] paths@[j]@ == e.at.push(
                                SegV::PolicyLeaf(e.dot, e.policy),
                            )) implies eset(r@).contains(e) by {
                        let j = choose|j: int|
                            0 <= j < i + 1 && #[trigger] paths@[j]@ == e.at.push(
                                SegV::PolicyLeaf(e.dot, e.policy),
                            );
                        if j == i {
                            assert(paths@[j]@.last() == SegV::PolicyLeaf(e.dot, e.policy));
                            assert(seg_is_leaf(p@[n - 1]));
                            assert(false);
                        }
                    }
                }
            },
        }
        i += 1;
    }
    r
}

impl Crdt {
    /// The causal context of a document: the dots of its live leaves
    /// and its expired dots.
    pub fn ctx(&self, doc: &DocId) -> (r: Result<CausalContext, CrdtError>)
        ensures
            r matches Ok(c) ==> {
                &&& c@.dots =~= subtree_dots(self.state_map(), doc_root(doc@))
                &&& c@.expired =~= subtree_dots(self.expired_map(), doc_root(doc@))
            },
            r is Err ==> r->Err_0 == CrdtError::StorageFailure,
    {
        let mut rp = PathBuf::new();
        rp.doc(doc);
        proof {
            assert(rp@ =~= doc_root(doc@));
        }
        let live = scan_paths(&self.state, &rp)?;
        let gone = scan_paths(&self.expired, &rp)?;
        let dots = dots_of_paths(&live);
        let expired = dots_of_paths(&gone);
        proof {
            assert forall|d: DotV| dots@.contains(d) implies subtree_dots(
                self.state_map(),
                doc_root(doc@),
            ).contains(d) by {
                let j = choose|j: int| 0 <= j < live@.len() && path_dot(#[trigger] live@[j]@)
                    == d;
            }
            assert forall|d: DotV| subtree_dots(self.state_map(), doc_root(doc@)).contains(
                d,
            ) implies dots@.contains(d) by {
                let p = choose|p: PathV|
                    subtree_paths(self.state_map(), doc_root(doc@)).contains(p) && path_dot(p)
                        == d;
                let j = choose|j: int| 0 <= j < live@.len() && #[trigger] live@[j]@ == p;
            }
            assert forall|d: DotV| expired@.contains(d) implies subtree_dots(
                self.expired_map(),
                doc_root(doc@),
            ).contains(d) by {
                let j = choose|j: int| 0 <= j < gone@.len() && path_dot(#[trigger] gone@[j]@)
                    == d;
            }
            assert forall|d: DotV| subtree_dots(self.expired_map(), doc_root(doc@)).contains(
                d,
            ) implies expired@.contains(d) by {
                let p = choose|p: PathV|
                    subtree_paths(self.expired_map(), doc_root(doc@)).contains(p) && path_dot(
                        p,
                    ) == d;
                let j = choose|j: int| 0 <= j < gone@.len() && #[trigger] gone@[j]@ == p;
            }
        }
        Ok(CausalContext::from_parts(dots, expired))
    }

    /// Whether `peer` holds at least `perm` at `path` in the document
    /// the path is rooted at.
    pub fn can(&self, peer: &PeerId, perm: Permission, path: &PathBuf) -> (r: Result<
        bool,
        CrdtError,
    >)
        requires
            path@.len() > 0,
            path@[0] is Root,
        ensures
            r matches Ok(b) ==> b == can_spec(
                self.state_map(),
                path@[0]->Root_0,
                peer@,
                perm,
                path@,
            ),
            r is Err ==> r->Err_0 == CrdtError::StorageFailure,
    {
        let n = path.len();
        let doc: DocId = match path.segment(0) {
            Segment::Root(d) => *d,
            _ => {
                proof {
                    assert(false);
                }
                return Err(CrdtError::InvalidPath);
            },
        };
        if ids_equal(&peer.bytes, &doc.bytes) {
            return Ok(true);
        }
        let mut rp = PathBuf::new();
        rp.doc(&doc);
        proof {
            assert(rp@ =~= doc_root(doc@));
        }
        let live = scan_paths(&self.state, &rp)?;
        let entries = gather_policies(&live);
        proof {
            assert(eset(entries@) =~= doc_policies(self.state_map(), doc@)) by {
                assert forall|e: EntryV| eset(entries@).contains(e) implies doc_policies(
                    self.state_map(),
                    doc@,
                ).contains(e) by {
                    let j = choose|j: int|
                        0 <= j < live@.len() && #[trigger] live@[j]@ == e.at.push(
                            SegV::PolicyLeaf(e.dot, e.policy),
                        );
                }
                assert forall|e: EntryV| doc_policies(self.state_map(), doc@).contains(
                    e,
                ) implies eset(entries@).contains(e) by {
                    let p = e.at.push(SegV::PolicyLeaf(e.dot, e.policy));
                    let j = choose|j: int| 0 <= j < live@.len() && #[trigger] live@[j]@ == p;
                }
            }
        }
        Ok(acl_eval(&entries, peer, &perm, path))
    }
}

/// Every dot a document has observed: the dots of its live leaves and
/// its expired dots.
pub open spec fn observed_dots(
    state: Map<Seq<u8>, Seq<u8>>,
    expired: Map<Seq<u8>, Seq<u8>>,
    doc: Seq<u8>,
) -> Set<DotV> {
    subtree_dots(state, doc_root(doc)).union(subtree_dots(expired, doc_root(doc)))
}

/// A dot the document has never observed from this peer, one past the
/// highest counter it has seen from it.
pub open spec fn fresh_for(
    state: Map<Seq<u8>, Seq<u8>>,
    expired: Map<Seq<u8>, Seq<u8>>,
    doc: Seq<u8>,
    peer: Seq<u8>,
    d: DotV,
) -> bool {
    &&& d.peer == peer
    &&& d.counter >= 1
    &&& forall|x: DotV|
        observed_dots(state, expired, doc).contains(x) && x.peer == peer ==> x.counter
            < d.counter
    &&& d.counter == 1 || observed_dots(state, expired, doc).contains(
        DotV { peer, counter: (d.counter - 1) as u64 },
    )
}

/// The permission it takes to issue a policy statement: revocations and
/// grants of delegable permissions take Control; granting Control or
/// Own takes Own.
pub open spec fn say_gate(p: crate::path::PolicyV) -> Permission {
    match p {
        crate::path::PolicyV::Revokes(_) => Permission::Control,
        crate::path::PolicyV::Can(_, q) => if crate::path::perm_rank(q) <= 1 {
            Permission::Control
        } else {
            Permission::Own
        },
        crate::path::PolicyV::CanIf(_, q, _) => if crate::path::perm_rank(q) <= 1 {
            Permission::Control
        } else {
            Permission::Own
        },
    }
}

impl Crdt {
    /// A dot this document has never seen from `peer`.
    fn next_dot(&self, doc: &DocId, peer: &PeerId) -> (r: Result<Dot, CrdtError>)
        ensures
            r matches Ok(d) ==> fresh_for(
                self.state_map(),
                self.expired_map(),
                doc@,
                peer@,
                d@,
            ),
            r == Err::<Dot, CrdtError>(CrdtError::ExhaustedCounter) ==> observed_dots(
                self.state_map(),
                self.expired_map(),
                doc@,
            ).contains(DotV { peer: peer@, counter: u64::MAX }),
            r is Err ==> r->Err_0 == CrdtError::StorageFailure || r->Err_0
                == CrdtError::ExhaustedCounter,
    {
        let ctx = self.ctx(doc)?;
        let m1 = ctx.dots().max_counter(peer);
        let m2 = ctx.expired().max_counter(peer);
        let m = if m1 > m2 {
            m1
        } else {
            m2
        };
        if m == u64::MAX {
            proof {
                if m1 == u64::MAX {
                    assert(ctx@.dots.contains(DotV { peer: peer@, counter: u64::MAX }));
                } else {
                    assert(ctx@.expired.contains(DotV { peer: peer@, counter: u64::MAX }));
                }
            }
            return Err(CrdtError::ExhaustedCounter);
        }
        let d = Dot::new(*peer, m + 1);
        proof {
            if m != 0 {
                if m1 > m2 {
                    assert(ctx@.dots.contains(DotV { peer: peer@, counter: m }));
                } else {
                    assert(ctx@.expired.contains(DotV { peer: peer@, counter: m }));
                }
            }
        }
        Ok(d)
    }

    /// A delta that turns the EW-flag at `path` on: one fresh
    /// membership dot, nothing expired.
    pub fn enable(&self, path: &PathBuf, peer: &PeerId) -> (r: Result<Causal, CrdtError>)
        requires
            node_path_wf(path@),
        ensures
            r matches Ok(c) ==> {
                &&& can_spec(
                    self.state_map(),
                    path@[0]->Root_0,
                    peer@,
                    Permission::Write,
                    path@,
                )
                &&& c@.expired =~= Set::<DotV>::empty()
                &&& exists|d: DotV|
                    fresh_for(self.state_map(), self.expired_map(), path@[0]->Root_0, peer@, d)
                        && c@.store =~= Set::<PathV>::empty().insert(
                        path@.push(SegV::SetLeaf(d)),
                    )
            },
            r == Err::<Causal, CrdtError>(CrdtError::Unauthorized) ==> !can_spec(
                self.state_map(),
                path@[0]->Root_0,
                peer@,
                Permission::Write,
                path@,
            ),
    {
        let doc = doc_of(path);
        if !(self.can(peer, Permission::Write, path)?) {
            return Err(CrdtError::Unauthorized);
        }
        let d = self.next_dot(&doc, peer)?;
        let mut leaf = path.duplicate();
        leaf.set_leaf(d);
        let mut store = DotStore::new();
        store.insert(leaf);
        proof {
            assert(fresh_for(self.state_map(), self.expired_map(), path@[0]->Root_0, peer@, d@)
                && store@ =~= Set::<PathV>::empty().insert(path@.push(SegV::SetLeaf(d@))));
        }
        Ok(Causal::from_parts(store, DotSet::new()))
    }

    /// A delta that turns the EW-flag at `path` off: every live dot
    /// below the path expires, and a fresh dot records the removal.
    pub fn disable(&self, path: &PathBuf, peer: &PeerId) -> (r: Result<Causal, CrdtError>)
        requires
            node_path_wf(path@),
        ensures
            r matches Ok(c) ==> {
                &&& can_spec(
                    self.state_map(),
                    path@[0]->Root_0,
                    peer@,
                    Permission::Write,
                    path@,
                )
                &&& c@.store =~= Set::<PathV>::empty()
                &&& exists|d: DotV|
                    fresh_for(self.state_map(), self.expired_map(), path@[0]->Root_0, peer@, d)
                        && c@.expired =~= subtree_dots(self.state_map(), path@).insert(d)
            },
            r == Err::<Causal, CrdtError>(CrdtError::Unauthorized) ==> !can_spec(
                self.state_map(),
                path@[0]->Root_0,
                peer@,
                Permission::Write,
                path@,
            ),
    {
        let doc = doc_of(path);
        if !(self.can(peer, Permission::Write, path)?) {
            return Err(CrdtError::Unauthorized);
        }
        let d = self.next_dot(&doc, peer)?;
        let live = scan_paths(&self.state, path)?;
        let mut expired = dots_of_paths(&live);
        expired.insert(d);
        proof {
            assert forall|x: DotV| expired@.contains(x) implies subtree_dots(
                self.state_map(),
                path@,
            ).insert(d@).contains(x) by {
                if x != d@ {
                    let j = choose|j: int| 0 <= j < live@.len() && path_dot(
                        #[trigger] live@[j]@,
                    ) == x;
                }
            }
            assert forall|x: DotV| subtree_dots(self.state_map(), path@).insert(d@).contains(
                x,
            ) implies expired@.contains(x) by {
                if x != d@ {
                    let p = choose|p: PathV|
                        subtree_paths(self.state_map(), path@).contains(p) && path_dot(p) == x;
                    let j = choose|j: int| 0 <= j < live@.len() && #[trigger] live@[j]@ == p;
                }
            }
            assert(fresh_for(self.state_map(), self.expired_map(), path@[0]->Root_0, peer@, d@)
                && expired@ =~= subtree_dots(self.state_map(), path@).insert(d@));
        }
        Ok(Causal::from_parts(DotStore::new(), expired))
    }

    /// A delta that assigns a value to the register at `path`: one
    /// fresh assignment dot; every assignment this replica has observed
    /// below the path expires.
    pub fn assign(&self, path: &PathBuf, peer: &PeerId, value: Primitive) -> (r: Result<
        Causal,
        CrdtError,
    >)
        requires
            node_path_wf(path@),
        ensures
            r matches Ok(c) ==> {
                &&& can_spec(
                    self.state_map(),
                    path@[0]->Root_0,
                    peer@,
                    Permission::Write,
                    path@,
                )
                &&& exists|d: DotV|
                    fresh_for(self.state_map(), self.expired_map(), path@[0]->Root_0, peer@, d)
                        && c@.store =~= Set::<PathV>::empty().insert(
                        path@.push(SegV::FunLeaf(d, value@)),
                    ) && c@.expired =~= subtree_dots(self.state_map(), path@)
            },
            r == Err::<Causal, CrdtError>(CrdtError::Unauthorized) ==> !can_spec(
                self.state_map(),
                path@[0]->Root_0,
                peer@,
                Permission::Write,
                path@,
            ),
    {
        let doc = doc_of(path);
        if !(self.can(peer, Permission::Write, path)?) {
            return Err(CrdtError::Unauthorized);
        }
        let d = self.next_dot(&doc, peer)?;
        let live = scan_paths(&self.state, path)?;
        let expired = dots_of_paths(&live);
        let mut leaf = path.duplicate();
        leaf.fun_leaf(d, value);
        let mut store = DotStore::new();
        store.insert(leaf);
        proof {
            assert forall|x: DotV| expired@.contains(x) implies subtree_dots(
                self.state_map(),
                path@,
            ).contains(x) by {
                let j = choose|j: int| 0 <= j < live@.len() && path_dot(#[trigger] live@[j]@)
                    == x;
            }
            assert forall|x: DotV| subtree_dots(self.state_map(), path@).contains(x) implies
                expired@.contains(x) by {
                let p = choose|p: PathV|
                    subtree_paths(self.state_map(), path@).contains(p) && path_dot(p) == x;
                let j = choose|j: int| 0 <= j < live@.len() && #[trigger] live@[j]@ == p;
            }
            assert(fresh_for(self.state_map(), self.expired_map(), path@[0]->Root_0, peer@, d@)
                && store@ =~= Set::<PathV>::empty().insert(path@.push(SegV::FunLeaf(d@, value@)))
                && expired@ =~= subtree_dots(self.state_map(), path@));
        }
        Ok(Causal::from_parts(store, expired))
    }

    /// A delta that removes the map entry or record subtree at `path`:
    /// every set and register dot this replica has observed below the
    /// path expires, and a fresh dot records the removal.
    pub fn remove(&self, path: &PathBuf, peer: &PeerId) -> (r: Result<Causal, CrdtError>)
        requires
            node_path_wf(path@),
        ensures
            r matches Ok(c) ==> {
                &&& can_spec(
                    self.state_map(),
                    path@[0]->Root_0,
                    peer@,
                    Permission::Write,
                    path@,
                )
                &&& c@.store =~= Set::<PathV>::empty()
                &&& exists|d: DotV|
                    fresh_for(self.state_map(), self.expired_map(), path@[0]->Root_0, peer@, d)
                        && c@.expired =~= subtree_data_dots(self.state_map(), path@).insert(d)
            },
            r == Err::<Causal, CrdtError>(CrdtError::Unauthorized) ==> !can_spec(
                self.state_map(),
                path@[0]->Root_0,
                peer@,
                Permission::Write,
                path@,
            ),
    {
        let doc = doc_of(path);
        if !(self.can(peer, Permission::Write, path)?) {
            return Err(CrdtError::Unauthorized);
        }
        let d = self.next_dot(&doc, peer)?;
        let live = scan_paths(&self.state, path)?;
        let mut expired = DotSet::new();
        let mut i: usize = 0;
        while i < live.len()
            invariant
                scan_post(self.state_map(), path@, live@),
                i <= live@.len(),
                forall|x: DotV| expired@.contains(x)
                    <==> exists|j: int| 0 <= j < i && path_dot(#[trigger] live@[j]@) == x && (
                    live@[j]@.last() is SetLeaf || live@[j]@.last() is FunLeaf),
            decreases live@.len() - i,
        {
            let p = &live[i];
            let n = p.len();
            match p.segment(n - 1) {
                Segment::SetLeaf(_) => {
                    let pd = p.dot();
                    expired.insert(pd);
                },
                Segment::FunLeaf(_, _) => {
                    let pd = p.dot();
                    expired.insert(pd);
                },
                _ => {
                    proof {
                        assert(!(live@[i as int]@.last() is SetLeaf) && !(live@[i as int]@.last()
                            is FunLeaf));
                    }
                },
            }
            i += 1;
        }
        let ghost without = expired@;
        expired.insert(d);
        proof {
            assert forall|x: DotV| expired@.contains(x) implies subtree_data_dots(
                self.state_map(),
                path@,
            ).insert(d@).contains(x) by {
                if x != d@ {
                    let j = choose|j: int| 0 <= j < live@.len() && path_dot(
                        #[trigger] live@[j]@,
                    ) == x && (live@[j]@.last() is SetLeaf || live@[j]@.last() is FunLeaf);
                }
            }
            assert forall|x: DotV| subtree_data_dots(self.state_map(), path@).insert(
                d@,
            ).contains(x) implies expired@.contains(x) by {
                if x != d@ {
                    let p = choose|p: PathV|
                        #[trigger] subtree_paths(self.state_map(), path@).contains(p)
                            && path_dot(p) == x && (p.last() is SetLeaf || p.last() is FunLeaf);
                    let j = choose|j: int| 0 <= j < live@.len() && #[trigger] live@[j]@ == p;
                }
            }
            assert(fresh_for(self.state_map(), self.expired_map(), path@[0]->Root_0, peer@, d@)
                && expired@ =~= subtree_data_dots(self.state_map(), path@).insert(d@));
        }
        Ok(Causal::from_parts(DotStore::new(), expired))
    }

    /// A delta that attaches a policy statement at `path`, stamped by a
    /// fresh dot. Revocations and grants of delegable permissions take
    /// Control; granting Control or Own takes Own.
    pub fn say(&self, path: &PathBuf, peer: &PeerId, policy: Policy) -> (r: Result<
        Causal,
        CrdtError,
    >)
        requires
            node_path_wf(path@),
        ensures
            r matches Ok(c) ==> {
                &&& can_spec(
                    self.state_map(),
                    path@[0]->Root_0,
                    peer@,
                    say_gate(policy@),
                    path@,
                )
                &&& c@.expired =~= Set::<DotV>::empty()
                &&& exists|d: DotV|
                    fresh_for(self.state_map(), self.expired_map(), path@[0]->Root_0, peer@, d)
                        && c@.store =~= Set::<PathV>::empty().insert(
                        path@.push(SegV::PolicyLeaf(d, policy@)),
                    )
            },
            r == Err::<Causal, CrdtError>(CrdtError::Unauthorized) ==> !can_spec(
                self.state_map(),
                path@[0]->Root_0,
                peer@,
                say_gate(policy@),
                path@,
            ),
    {
        let doc = doc_of(path);
        let needed: Permission = match &policy {
            Policy::Revokes(_) => Permission::Control,
            Policy::Can(_, q) => if q.controllable() {
                Permission::Control
            } else {
                Permission::Own
            },
            Policy::CanIf(_, q, _) => if q.controllable() {
                Permission::Control
            } else {
                Permission::Own
            },
        };
        proof {
            assert(needed == say_gate(policy@));
        }
        if !(self.can(peer, needed, path)?) {
            return Err(CrdtError::Unauthorized);
        }
        let d = self.next_dot(&doc, peer)?;
        let mut leaf = path.duplicate();
        leaf.policy_leaf(d, policy);
        let mut store = DotStore::new();
        store.insert(leaf);
        proof {
            assert(fresh_for(self.state_map(), self.expired_map(), path@[0]->Root_0, peer@, d@)
                && store@ =~= Set::<PathV>::empty().insert(
                path@.push(SegV::PolicyLeaf(d@, policy@)),
            ));
        }
        Ok(Causal::from_parts(store, DotSet::new()))
    }
}

impl Crdt {
    /// The policy statements of a document, read from the live tree.
    fn doc_policy_entries(&self, doc: &DocId) -> (r: Result<Vec<PolicyEntry>, CrdtError>)
        ensures
            r matches Ok(es) ==> eset(es@) =~= doc_policies(self.state_map(), doc@),
            r is Err ==> r->Err_0 == CrdtError::StorageFailure,
    {
        let mut rp = PathBuf::new();
        rp.doc(doc);
        proof {
            assert(rp@ =~= doc_root(doc@));
        }
        let live = scan_paths(&self.state, &rp)?;
        let entries = gather_policies(&live);
        proof {
            assert forall|e: EntryV| eset(entries@).contains(e) implies doc_policies(
                self.state_map(),
                doc@,
            ).contains(e) by {
                let j = choose|j: int|
                    0 <= j < live@.len() && #[trigger] live@[j]@ == e.at.push(
                        SegV::PolicyLeaf(e.dot, e.policy),
                    );
            }
            assert forall|e: EntryV| doc_policies(self.state_map(), doc@).contains(e) implies
                eset(entries@).contains(e) by {
                let p = e.at.push(SegV::PolicyLeaf(e.dot, e.policy));
                let j = choose|j: int| 0 <= j < live@.len() && #[trigger] live@[j]@ == p;
            }
        }
        Ok(entries)
    }

    /// The delta this replica owes a peer whose context is `rctx`:
    /// every live leaf of the document whose dot the peer has not seen
    /// and that it may read, and every expired dot it has not seen.
    pub fn unjoin(&self, peer: &PeerId, doc: &DocId, rctx: &CausalContext) -> (r: Result<
        Causal,
        CrdtError,
    >)
        ensures
            r matches Ok(c) ==> {
                &&& c@.expired =~= subtree_dots(self.expired_map(), doc_root(doc@)).difference(
                    rctx@.expired,
                )
                &&& forall|p: PathV| c@.store.contains(p) <==> {
                    &&& subtree_paths(self.state_map(), doc_root(doc@)).contains(p)
                    &&& !rctx@.dots.contains(path_dot(p))
                    &&& can_spec(self.state_map(), doc@, peer@, Permission::Read, p)
                }
                &&& store_wf(c@.store)
                &&& forall|p: PathV| #[trigger] c@.store.contains(p) ==> path_valid(p)
            },
            r is Err ==> r->Err_0 == CrdtError::StorageFailure,
    {
        let mut rp = PathBuf::new();
        rp.doc(doc);
        proof {
            assert(rp@ =~= doc_root(doc@));
        }
        let live = scan_paths(&self.state, &rp)?;
        let gone = scan_paths(&self.expired, &rp)?;
        let all_expired = dots_of_paths(&gone);
        let expired = all_expired.difference(rctx.expired());
        let entries = self.doc_policy_entries(doc)?;
        let owner = ids_equal(&peer.bytes, &doc.bytes);
        let mut store = DotStore::new();
        let mut i: usize = 0;
        while i < live.len()
            invariant
                scan_post(self.state_map(), doc_root(doc@), live@),
                eset(entries@) =~= doc_policies(self.state_map(), doc@),
                owner == (peer@ == doc@),
                i <= live@.len(),
                forall|p: PathV| store@.contains(p) <==> exists|j: int|
                    0 <= j < i && #[trigger] live@[j]@ == p && !rctx@.dots.contains(path_dot(p))
                        && can_spec(self.state_map(), doc@, peer@, Permission::Read, p),
            decreases live@.len() - i,
        {
            let p = &live[i];
            let d = p.dot();
            if !rctx.dots().contains(&d) && (owner || acl_eval(
                &entries,
                peer,
                &Permission::Read,
                p,
            )) {
                let ghost before = store@;
                store.insert(p.duplicate());
                proof {
                    assert forall|q: PathV| store@.contains(q) implies (exists|j: int|
                        0 <= j < i + 1 && #[trigger] live@[j]@ == q && !rctx@.dots.contains(
                            path_dot(q),
                        ) && can_spec(
                        self.state_map(),
                        doc@,
                        peer@,
                        Permission::Read,
                        q,
                    )) by {
                        if q == p@ {
                            assert(live@[i as int]@ == q);
                        } else {
                            assert(before.contains(q));
                        }
                    }
                }
            }
            i += 1;
        }
        proof {
            assert forall|q: PathV|
                (subtree_paths(self.state_map(), doc_root(doc@)).contains(q)
                    && !rctx@.dots.contains(path_dot(q)) && can_spec(
                    self.state_map(),
                    doc@,
                    peer@,
                    Permission::Read,
                    q,
                )) implies store@.contains(q) by {
                let j = choose|j: int| 0 <= j < live@.len() && #[trigger] live@[j]@ == q;
            }
            assert forall|q: PathV| store@.contains(q) implies store_path_wf(q) && path_valid(
                q,
            ) by {
                let j = choose|j: int|
                    0 <= j < live@.len() && #[trigger] live@[j]@ == q && !rctx@.dots.contains(
                        path_dot(q),
                    ) && can_spec(self.state_map(), doc@, peer@, Permission::Read, q);
            }
            assert forall|d: DotV| expired@.contains(d) implies subtree_dots(
                self.expired_map(),
                doc_root(doc@),
            ).difference(rctx@.expired).contains(d) by {
                let j = choose|j: int| 0 <= j < gone@.len() && path_dot(#[trigger] gone@[j]@)
                    == d;
            }
            assert forall|d: DotV| subtree_dots(self.expired_map(), doc_root(doc@)).difference(
                rctx@.expired,
            ).contains(d) implies expired@.contains(d) by {
                let p = choose|p: PathV|
                    subtree_paths(self.expired_map(), doc_root(doc@)).contains(p) && path_dot(
                        p,
                    ) == d;
                let j = choose|j: int| 0 <= j < gone@.len() && #[trigger] gone@[j]@ == p;
            }
        }
        Ok(Causal::from_parts(store, expired))
    }
}

/// Whether an incoming delta sweeps a stored leaf: its dot has expired
/// and the sender may write there.
pub open spec fn join_removes(
    m: Map<Seq<u8>, Seq<u8>>,
    doc: Seq<u8>,
    peer: Seq<u8>,
    c: crate::causal::CausalV,
    p: PathV,
) -> bool {
    c.expired.contains(path_dot(p)) && can_spec(m, doc, peer, Permission::Write, p)
}

/// Whether an incoming delta lands a leaf: it is live in the delta and
/// the sender may write there.
pub open spec fn join_inserts(
    m: Map<Seq<u8>, Seq<u8>>,
    doc: Seq<u8>,
    peer: Seq<u8>,
    c: crate::causal::CausalV,
    p: PathV,
) -> bool {
    c.store.contains(p) && !c.expired.contains(path_dot(p)) && can_spec(
        m,
        doc,
        peer,
        Permission::Write,
        p,
    )
}

impl Crdt {
    /// Apply a delta from `peer` to the document: land every live leaf
    /// the peer may write, sweep every stored leaf whose dot the delta
    /// expires and the peer may write, and record the expired dots.
    /// Leaves the peer may not write are skipped, never an error.
    /// Permissions are those of the state before the call, read once.
    #[verifier::rlimit(100)]
    #[verifier::spinoff_prover]
    pub fn join(&mut self, peer: &PeerId, doc: &DocId, causal: &Causal) -> (r: Result<
        (),
        CrdtError,
    >)
        requires
            store_wf(causal@.store),
            forall|p: PathV| #[trigger] causal@.store.contains(p) ==> path_valid(p) && p[0]
                == SegV::Root(doc@),
            forall|p: PathV, q: PathV|
                causal@.store.contains(p) && causal@.store.contains(q) && path_dot(p)
                    == path_dot(q) ==> p == q,
            forall|p: PathV, q: PathV|
                causal@.store.contains(p) && subtree_paths(
                    old(self).state_map(),
                    doc_root(doc@),
                ).contains(q) && path_dot(p) == path_dot(q) ==> p == q,
            forall|d: DotV| #[trigger] causal@.expired.contains(d) ==> d.peer.len() == 32,
        ensures
            r is Ok ==> {
                &&& forall|p: PathV|
                    subtree_paths(final(self).state_map(), doc_root(doc@)).contains(p)
                        <==> ((subtree_paths(old(self).state_map(), doc_root(doc@)).contains(p)
                        && !join_removes(old(self).state_map(), doc@, peer@, causal@, p))
                        || join_inserts(old(self).state_map(), doc@, peer@, causal@, p))
                &&& forall|p: PathV|
                    subtree_paths(final(self).expired_map(), doc_root(doc@)).contains(p)
                        <==> (subtree_paths(old(self).expired_map(), doc_root(doc@)).contains(
                        p,
                    ) || (exists|d: DotV|
                        #[trigger] causal@.expired.contains(d) && p == seq![
                            SegV::Root(doc@),
                            SegV::SetLeaf(d),
                        ]))
                &&& forall|kb: Seq<u8>|
                    !(#[trigger] key_bytes(doc_root(doc@)).is_prefix_of(kb)) ==> {
                        &&& (final(self).state_map().contains_key(kb) <==> old(self).state_map().contains_key(kb))
                        &&& (final(self).state_map().contains_key(kb) ==> final(self).state_map()[kb] == old(self).state_map()[kb])
                    }
                &&& forall|kb: Seq<u8>|
                    !(#[trigger] key_bytes(doc_root(doc@)).is_prefix_of(kb)) ==> {
                        &&& (final(self).expired_map().contains_key(kb) <==> old(self).expired_map().contains_key(kb))
                        &&& (final(self).expired_map().contains_key(kb) ==> final(self).expired_map()[kb] == old(self).expired_map()[kb])
                    }
            },
            r is Err ==> r->Err_0 == CrdtError::StorageFailure,
    {
        let ghost m0 = self.state_map();
        let ghost m0e = self.expired_map();
        let ghost root = doc_root(doc@);
        let mut rp = PathBuf::new();
        rp.doc(doc);
        proof {
            assert(rp@ =~= root);
        }
        let entries = self.doc_policy_entries(doc)?;
        let live = scan_paths(&self.state, &rp)?;
        let owner = ids_equal(&peer.bytes, &doc.bytes);
        let ghost rootkey = key_bytes(root);
        // sweep stored leaves whose dots the delta expires
        let mut i: usize = 0;
        while i < live.len()
            invariant
                scan_post(m0, root, live@),
                eset(entries@) =~= doc_policies(m0, doc@),
                owner == (peer@ == doc@),
                rootkey == key_bytes(root),
                root == doc_root(doc@),
                i <= live@.len(),
                self.expired_map() == m0e,
                forall|kb: Seq<u8>| #[trigger] self.state_map().contains_key(kb)
                    ==> m0.contains_key(kb) && self.state_map()[kb] == m0[kb],
                forall|kb: Seq<u8>|
                    m0.contains_key(kb) && !(#[trigger] self.state_map().contains_key(kb))
                        ==> rootkey.is_prefix_of(kb),
                forall|p: PathV| #[trigger] subtree_paths(m0, root).contains(p) ==> (
                subtree_paths(self.state_map(), root).contains(p) <==> !(join_removes(
                    m0,
                    doc@,
                    peer@,
                    causal@,
                    p,
                ) && exists|j: int| 0 <= j < i && #[trigger] live@[j]@ == p)),
                forall|p: PathV| #[trigger] subtree_paths(self.state_map(), root).contains(p)
                    ==> subtree_paths(m0, root).contains(p),
            decreases live@.len() - i,
        {
            let p = &live[i];
            let d = p.dot();
            if causal.expired().contains(&d) && (owner || acl_eval(
                &entries,
                peer,
                &Permission::Write,
                p,
            )) {
                let k = match encode_key(p) {
                    Ok(k) => k,
                    Err(_) => {
                        proof {
                            assert(false);
                        }
                        return Err(CrdtError::StorageFailure);
                    },
                };
                let ghost before = self.state_map();
                match self.state.remove(&k) {
                    Ok(_) => {},
                    Err(_) => {
                        return Err(CrdtError::StorageFailure);
                    },
                }
                proof {
                    lemma_path_roundtrip(p@);
                    lemma_seg_prefix_bytes(root, p@);
                    assert(root.is_prefix_of(p@)) by {
                        assert(root =~= p@.take(1));
                    }
                    assert(rootkey.is_prefix_of(k@));
                    assert forall|q: PathV| #[trigger] subtree_paths(m0, root).contains(q)
                        implies (subtree_paths(self.state_map(), root).contains(q)
                        <==> !(join_removes(m0, doc@, peer@, causal@, q) && exists|j: int|
                        0 <= j < i + 1 && #[trigger] live@[j]@ == q)) by {
                        let kq = choose|kb: Seq<u8>|
                            #[trigger] m0.contains_key(kb) && parse_path(kb, m0[kb]) == Some(
                                q,
                            );
                        lemma_parse_exact(kq, m0[kq]);
                        if kq == k@ {
                            // the removed key: its path is exactly p
                            assert(subtree_paths(m0, root).contains(p@));
                            let kp = choose|kb: Seq<u8>|
                                #[trigger] m0.contains_key(kb) && parse_path(kb, m0[kb])
                                    == Some(p@);
                            lemma_parse_exact(kp, m0[kp]);
                            assert(kp == key_bytes(p@));
                            assert(kp == k@);
                            assert(parse_path(k@, m0[k@]) == Some(p@));
                            assert(q == p@);
                            assert(!subtree_paths(self.state_map(), root).contains(q)) by {
                                if subtree_paths(self.state_map(), root).contains(q) {
                                    let kb2 = choose|kb: Seq<u8>|
                                        #[trigger] self.state_map().contains_key(kb)
                                            && parse_path(kb, self.state_map()[kb]) == Some(q);
                                    lemma_parse_exact(kb2, self.state_map()[kb2]);
                                    assert(kb2 == key_bytes(q));
                                }
                            }
                            assert(live@[i as int]@ == q);
                            assert(join_removes(m0, doc@, peer@, causal@, q));
                        } else {
                            assert(subtree_paths(self.state_map(), root).contains(q)
                                <==> subtree_paths(before, root).contains(q)) by {
                                if subtree_paths(before, root).contains(q) {
                                    let kb2 = choose|kb: Seq<u8>|
                                        #[trigger] before.contains_key(kb) && parse_path(
                                            kb,
                                            before[kb],
                                        ) == Some(q);
                                    lemma_parse_exact(kb2, before[kb2]);
                                    assert(kb2 == kq);
                                    assert(self.state_map().contains_key(kb2));
                                }
                                if subtree_paths(self.state_map(), root).contains(q) {
                                    let kb2 = choose|kb: Seq<u8>|
                                        #[trigger] self.state_map().contains_key(kb)
                                            && parse_path(kb, self.state_map()[kb]) == Some(q);
                                    assert(before.contains_key(kb2) && before[kb2]
                                        == self.state_map()[kb2]);
                                }
                            }
                            if exists|j: int| 0 <= j < i + 1 && #[trigger] live@[j]@ == q {
                                let j = choose|j: int| 0 <= j < i + 1 && #[trigger] live@[j]@
                                    == q;
                                if j == i {
                                    // same path would mean the same key
                                    assert(q == p@);
                                    assert(key_bytes(q) == k@);
                                    assert(false);
                                }
                            }
                        }
                    }
                }
            } else {
                proof {
                    assert forall|q: PathV| #[trigger] subtree_paths(m0, root).contains(q)
                        implies (subtree_paths(self.state_map(), root).contains(q)
                        <==> !(join_removes(m0, doc@, peer@, causal@, q) && exists|j: int|
                        0 <= j < i + 1 && #[trigger] live@[j]@ == q)) by {
                        if exists|j: int| 0 <= j < i + 1 && #[trigger] live@[j]@ == q {
                            let j = choose|j: int| 0 <= j < i + 1 && #[trigger] live@[j]@ == q;
                            if j == i && join_removes(m0, doc@, peer@, causal@, q) {
                                assert(false);
                            }
                        }
                    }
                }
            }
            i += 1;
        }
        proof {
            assert forall|p: PathV| #[trigger] subtree_paths(m0, root).contains(p) implies (
            subtree_paths(self.state_map(), root).contains(p) <==> !join_removes(
                m0,
                doc@,
                peer@,
                causal@,
                p,
            )) by {
                let j = choose|j: int| 0 <= j < live@.len() && #[trigger] live@[j]@ == p;
            }
        }
        let ghost m1 = self.state_map();
        // land the live leaves of the delta
        let cvec = causal.store().iter();
        let mut i: usize = 0;
        while i < cvec.len()
            invariant
                store_wf(causal@.store),
                forall|p: PathV| #[trigger] causal@.store.contains(p) ==> path_valid(p) && p[0]
                    == SegV::Root(doc@),
                forall|p: PathV, q: PathV|
                    causal@.store.contains(p) && causal@.store.contains(q) && path_dot(p)
                        == path_dot(q) ==> p == q,
                forall|p: PathV, q: PathV|
                    causal@.store.contains(p) && subtree_paths(m0, root).contains(q)
                        && path_dot(p) == path_dot(q) ==> p == q,
                eset(entries@) =~= doc_policies(m0, doc@),
                owner == (peer@ == doc@),
                rootkey == key_bytes(root),
                root == doc_root(doc@),
                forall|j: int| 0 <= j < cvec@.len() ==> causal@.store.contains(
                    #[trigger] cvec@[j]@,
                ),
                forall|x: PathV| causal@.store.contains(x)
                    ==> exists|j: int| 0 <= j < cvec@.len() && #[trigger] cvec@[j]@ == x,
                i <= cvec@.len(),
                self.expired_map() == m0e,
                forall|kb: Seq<u8>|
                    !rootkey.is_prefix_of(kb) ==> ((#[trigger] self.state_map().contains_key(
                        kb,
                    ) <==> m0.contains_key(kb)) && (self.state_map().contains_key(kb)
                        ==> self.state_map()[kb] == m0[kb])),
                forall|p: PathV| #[trigger] subtree_paths(self.state_map(), root).contains(p)
                    <==> (subtree_paths(m1, root).contains(p) || (join_inserts(
                    m0,
                    doc@,
                    peer@,
                    causal@,
                    p,
                ) && exists|j: int| 0 <= j < i && #[trigger] cvec@[j]@ == p)),
                forall|p: PathV| #[trigger] subtree_paths(m1, root).contains(p)
                    ==> subtree_paths(m0, root).contains(p) && !join_removes(
                    m0,
                    doc@,
                    peer@,
                    causal@,
                    p,
                ),
                forall|p: PathV| subtree_paths(m0, root).contains(p) && !join_removes(
                    m0,
                    doc@,
                    peer@,
                    causal@,
                    p,
                ) ==> #[trigger] subtree_paths(m1, root).contains(p),
            decreases cvec@.len() - i,
        {
            let p = &cvec[i];
            proof {
                assert(causal@.store.contains(p@));
            }
            let d = p.dot();
            let landed = !causal.expired().contains(&d) && (owner || acl_eval(
                &entries,
                peer,
                &Permission::Write,
                p,
            ));
            proof {
                assert(landed == join_inserts(m0, doc@, peer@, causal@, p@));
            }
            let ghost old_ms = self.state_map();
            if landed {
                let k = match encode_key(p) {
                    Ok(k) => k,
                    Err(_) => {
                        proof {
                            assert(false);
                        }
                        return Err(CrdtError::StorageFailure);
                    },
                };
                let v = encode_value(p);
                let ghost before = self.state_map();
                match self.state.insert(&k, &v) {
                    Ok(_) => {},
                    Err(_) => {
                        return Err(CrdtError::StorageFailure);
                    },
                }
                proof {
                    lemma_path_roundtrip(p@);
                    lemma_seg_prefix_bytes(root, p@);
                    assert(root.is_prefix_of(p@)) by {
                        assert(root =~= p@.take(1));
                    }
                    assert(rootkey.is_prefix_of(k@));
                    assert(subtree_paths(self.state_map(), root).contains(p@)) by {
                        assert(self.state_map().contains_key(k@) && parse_path(
                            k@,
                            self.state_map()[k@],
                        ) == Some(p@));
                    }
                    assert forall|q: PathV|
                        #[trigger] subtree_paths(self.state_map(), root).contains(q) && q != p@
                            implies subtree_paths(before, root).contains(q) by {
                        let kb2 = choose|kb: Seq<u8>|
                            #[trigger] self.state_map().contains_key(kb) && parse_path(
                                kb,
                                self.state_map()[kb],
                            ) == Some(q);
                        lemma_parse_exact(kb2, self.state_map()[kb2]);
                        assert(kb2 != k@);
                        assert(before.contains_key(kb2) && before[kb2] == self.state_map()[
                            kb2]);
                    }
                    assert forall|q: PathV|
                        #[trigger] subtree_paths(before, root).contains(q) implies
                        subtree_paths(self.state_map(), root).contains(q) by {
                        let kb2 = choose|kb: Seq<u8>|
                            #[trigger] before.contains_key(kb) && parse_path(kb, before[kb])
                                == Some(q);
                        lemma_parse_exact(kb2, before[kb2]);
                        if kb2 == k@ {
                            // an entry under the same key holds the same dot,
                            // so by dot uniqueness it is the same path
                            crate::codec::lemma_key_determines_dot(k@, before[kb2], v@);
                            assert(path_dot(q) == path_dot(p@));
                            assert(q == p@);
                            assert(subtree_paths(self.state_map(), root).contains(p@));
                        } else {
                            assert(self.state_map().contains_key(kb2)
                                && self.state_map()[kb2] == before[kb2]);
                        }
                    }
                }
            }
            let ghost entry_ms = if landed {
                old_ms
            } else {
                self.state_map()
            };
            i += 1;
            proof {
                assert forall|p2: PathV|
                    #[trigger] subtree_paths(self.state_map(), root).contains(p2) implies (
                subtree_paths(m1, root).contains(p2) || (join_inserts(
                    m0,
                    doc@,
                    peer@,
                    causal@,
                    p2,
                ) && exists|j: int| 0 <= j < i && #[trigger] cvec@[j]@ == p2)) by {
                    if landed && p2 == p@ {
                        assert(cvec@[i - 1]@ == p2);
                    } else {
                        assert(subtree_paths(entry_ms, root).contains(p2));
                    }
                }
                assert forall|p2: PathV|
                    (subtree_paths(m1, root).contains(p2) || (join_inserts(
                        m0,
                        doc@,
                        peer@,
                        causal@,
                        p2,
                    ) && exists|j: int| 0 <= j < i && #[trigger] cvec@[j]@ == p2)) implies
                    #[trigger] subtree_paths(self.state_map(), root).contains(p2) by {
                    if subtree_paths(m1, root).contains(p2) {
                        assert(subtree_paths(entry_ms, root).contains(p2));
                    } else {
                        let j = choose|j: int| 0 <= j < i && #[trigger] cvec@[j]@ == p2;
                        if j < i - 1 {
                            assert(subtree_paths(entry_ms, root).contains(p2));
                        } else {
                            assert(p2 == p@);
                            assert(landed);
                        }
                    }
                }
            }
        }
        proof {
            assert forall|p: PathV|
                #[trigger] subtree_paths(self.state_map(), root).contains(p) <==> ((
            subtree_paths(m0, root).contains(p) && !join_removes(m0, doc@, peer@, causal@, p))
                || join_inserts(m0, doc@, peer@, causal@, p)) by {
                if join_inserts(m0, doc@, peer@, causal@, p) {
                    let j = choose|j: int| 0 <= j < cvec@.len() && #[trigger] cvec@[j]@ == p;
                }
            }
        }
        let ghost m2 = self.state_map();
        // record the expired dots of the delta
        let evec = causal.expired().iter();
        let mut i: usize = 0;
        while i < evec.len()
            invariant
                rootkey == key_bytes(root),
                root == doc_root(doc@),
                forall|j: int| 0 <= j < evec@.len() ==> causal@.expired.contains(
                    #[trigger] evec@[j]@,
                ),
                forall|x: DotV| causal@.expired.contains(x)
                    ==> exists|j: int| 0 <= j < evec@.len() && #[trigger] evec@[j]@ == x,
                i <= evec@.len(),
                self.state_map() == m2,
                forall|kb: Seq<u8>|
                    !rootkey.is_prefix_of(kb) ==> ((#[trigger] self.expired_map().contains_key(
                        kb,
                    ) <==> m0e.contains_key(kb)) && (self.expired_map().contains_key(kb)
                        ==> self.expired_map()[kb] == m0e[kb])),
                forall|p: PathV| #[trigger] subtree_paths(self.expired_map(), root).contains(p)
                    <==> (subtree_paths(m0e, root).contains(p) || (exists|j: int|
                    0 <= j < i && p == seq![
                        SegV::Root(doc@),
                        SegV::SetLeaf((#[trigger] evec@[j])@),
                    ])),
            decreases evec@.len() - i,
        {
            let d = evec[i];
            let mut pb = PathBuf::new();
            pb.doc(doc);
            pb.set_leaf(d);
            let ghost qd = seq![SegV::Root(doc@), SegV::SetLeaf(d@)];
            proof {
                assert(pb@ =~= qd);
                assert(store_path_wf(qd));
                assert(path_valid(qd));
            }
            let k = match encode_key(&pb) {
                Ok(k) => k,
                Err(_) => {
                    proof {
                        assert(false);
                    }
                    return Err(CrdtError::StorageFailure);
                },
            };
            let v: Vec<u8> = Vec::new();
            let ghost before = self.expired_map();
            match self.expired.insert(&k, &v) {
                Ok(_) => {},
                Err(_) => {
                    return Err(CrdtError::StorageFailure);
                },
            }
            i += 1;
            proof {
                lemma_path_roundtrip(qd);
                assert(v@ =~= value_bytes(qd));
                lemma_seg_prefix_bytes(root, qd);
                assert(root.is_prefix_of(qd)) by {
                    assert(root =~= qd.take(1));
                }
                assert(rootkey.is_prefix_of(k@));
                assert(subtree_paths(self.expired_map(), root).contains(qd)) by {
                    assert(self.expired_map().contains_key(k@) && parse_path(
                        k@,
                        self.expired_map()[k@],
                    ) == Some(qd));
                }
                assert forall|p: PathV|
                    #[trigger] subtree_paths(self.expired_map(), root).contains(p) implies (
                subtree_paths(m0e, root).contains(p) || (exists|j: int|
                    0 <= j < i && p == seq![
                        SegV::Root(doc@),
                        SegV::SetLeaf((#[trigger] evec@[j])@),
                    ])) by {
                    if p == qd {
                        assert(p == seq![
                            SegV::Root(doc@),
                            SegV::SetLeaf((evec@[i - 1])@),
                        ]);
                    } else {
                        let kb2 = choose|kb: Seq<u8>|
                            #[trigger] self.expired_map().contains_key(kb) && parse_path(
                                kb,
                                self.expired_map()[kb],
                            ) == Some(p);
                        lemma_parse_exact(kb2, self.expired_map()[kb2]);
                        if kb2 == k@ {
                            crate::codec::lemma_key_determines_shape(
                                k@,
                                self.expired_map()[kb2],
                                v@,
                            );
                            assert(qd.last() is SetLeaf);
                            assert(false);
                        } else {
                            assert(before.contains_key(kb2) && before[kb2]
                                == self.expired_map()[kb2]);
                            assert(subtree_paths(before, root).contains(p));
                        }
                    }
                }
                assert forall|p: PathV|
                    (subtree_paths(m0e, root).contains(p) || (exists|j: int|
                        0 <= j < i && p == seq![
                            SegV::Root(doc@),
                            SegV::SetLeaf((#[trigger] evec@[j])@),
                        ])) implies #[trigger] subtree_paths(
                    self.expired_map(),
                    root,
                ).contains(p) by {
                    if !subtree_paths(before, root).contains(p) && !(exists|j: int|
                        0 <= j < i - 1 && p == seq![
                            SegV::Root(doc@),
                            SegV::SetLeaf((#[trigger] evec@[j])@),
                        ]) {
                        assert(p == qd);
                    } else {
                        if subtree_paths(before, root).contains(p) {
                            let kb2 = choose|kb: Seq<u8>|
                                #[trigger] before.contains_key(kb) && parse_path(
                                    kb,
                                    before[kb],
                                ) == Some(p);
                            lemma_parse_exact(kb2, before[kb2]);
                            if kb2 == k@ {
                                crate::codec::lemma_key_determines_shape(k@, before[kb2], v@);
                                assert(p == qd);
                                assert(subtree_paths(self.expired_map(), root).contains(qd));
                            } else {
                                assert(self.expired_map().contains_key(kb2)
                                    && self.expired_map()[kb2] == before[kb2]);
                            }
                        }
                    }
                }
            }
        }
        proof {
            assert forall|p: PathV|
                #[trigger] subtree_paths(self.expired_map(), root).contains(p) <==> (
            subtree_paths(m0e, root).contains(p) || (exists|d: DotV|
                #[trigger] causal@.expired.contains(d) && p == seq![
                    SegV::Root(doc@),
                    SegV::SetLeaf(d),
                ])) by {
                if exists|d: DotV|
                    #[trigger] causal@.expired.contains(d) && p == seq![
                        SegV::Root(doc@),
                        SegV::SetLeaf(d),
                    ] {
                    let d = choose|d: DotV|
                        #[trigger] causal@.expired.contains(d) && p == seq![
                            SegV::Root(doc@),
                            SegV::SetLeaf(d),
                        ];
                    let j = choose|j: int| 0 <= j < evec@.len() && #[trigger] evec@[j]@ == d;
                }
                if subtree_paths(self.expired_map(), root).contains(p) && !subtree_paths(
                    m0e,
                    root,
                ).contains(p) {
                    let j = choose|j: int|
                        0 <= j < evec@.len() && p == seq![
                            SegV::Root(doc@),
                            SegV::SetLeaf((#[trigger] evec@[j])@),
                        ];
                    assert(causal@.expired.contains(evec@[j]@));
                }
            }
        }
        Ok(())
    }
}

/// A peer without Write below a path cannot change the store there: a
/// delta it sends neither lands nor sweeps a leaf at any such path.
pub proof fn lemma_join_authorization(
    m: Map<Seq<u8>, Seq<u8>>,
    doc: Seq<u8>,
    peer: Seq<u8>,
    c: crate::causal::CausalV,
    p: PathV,
)
    requires
        !can_spec(m, doc, peer, Permission::Write, p),
    ensures
        !join_removes(m, doc, peer, c, p),
        !join_inserts(m, doc, peer, c, p),
{
}

impl Crdt {
    /// Whether the EW-flag at `path` reads true: some live membership
    /// dot stands below it.
    pub fn enabled(&self, path: &PathBuf) -> (r: Result<bool, CrdtError>)
        requires
            node_path_wf(path@),
        ensures
            r matches Ok(b) ==> b == exists|p: PathV|
                #[trigger] subtree_paths(self.state_map(), path@).contains(p) && p.last()
                    is SetLeaf,
            r is Err ==> r->Err_0 == CrdtError::StorageFailure,
    {
        let live = scan_paths(&self.state, path)?;
        let mut i: usize = 0;
        while i < live.len()
            invariant
                scan_post(self.state_map(), path@, live@),
                i <= live@.len(),
                forall|j: int| 0 <= j < i ==> !((#[trigger] live@[j]@).last() is SetLeaf),
            decreases live@.len() - i,
        {
            let p = &live[i];
            let n = p.len();
            match p.segment(n - 1) {
                Segment::SetLeaf(_) => {
                    proof {
                        assert(subtree_paths(self.state_map(), path@).contains(
                            live@[i as int]@,
                        ) && live@[i as int]@.last() is SetLeaf);
                    }
                    return Ok(true);
                },
                _ => {
                    proof {
                        assert(!(live@[i as int]@.last() is SetLeaf));
                    }
                },
            }
            i += 1;
        }
        proof {
            if exists|p: PathV|
                #[trigger] subtree_paths(self.state_map(), path@).contains(p) && p.last()
                    is SetLeaf {
                let p = choose|p: PathV|
                    #[trigger] subtree_paths(self.state_map(), path@).contains(p) && p.last()
                        is SetLeaf;
                let j = choose|j: int| 0 <= j < live@.len() && #[trigger] live@[j]@ == p;
            }
        }
        Ok(false)
    }

    /// Every listed primitive is the value of some live register
    /// assignment below the path.
    pub open spec fn values_found(
        m: Map<Seq<u8>, Seq<u8>>,
        pp: PathV,
        vs: Seq<Primitive>,
    ) -> bool {
        forall|j: int| 0 <= j < vs.len() ==> exists|p: PathV|
            subtree_paths(m, pp).contains(p) && (p.last() matches SegV::FunLeaf(_, v) && v == (
            #[trigger] vs[j])@)
    }

    /// The values of the live assignments of the register at `path`:
    /// every listed value is assigned below the path, and every
    /// assignment below the path is listed.
    pub fn values(&self, path: &PathBuf) -> (r: Result<Vec<Primitive>, CrdtError>)
        requires
            node_path_wf(path@),
        ensures
            r matches Ok(vs) ==> {
                &&& Self::values_found(self.state_map(), path@, vs@)
                &&& forall|p: PathV|
                    #[trigger] subtree_paths(self.state_map(), path@).contains(p) ==> (
                    p.last() matches SegV::FunLeaf(_, v) ==> exists|j: int|
                        0 <= j < vs@.len() && (#[trigger] vs@[j])@ == v)
            },
            r is Err ==> r->Err_0 == CrdtError::StorageFailure,
    {
        let live = scan_paths(&self.state, path)?;
        let mut vs: Vec<Primitive> = Vec::new();
        let mut i: usize = 0;
        while i < live.len()
            invariant
                scan_post(self.state_map(), path@, live@),
                i <= live@.len(),
                Self::values_found(self.state_map(), path@, vs@),
                forall|j: int| 0 <= j < i ==> ((#[trigger] live@[j]@).last() matches
                    SegV::FunLeaf(_, v) ==> exists|l: int|
                    0 <= l < vs@.len() && (#[trigger] vs@[l])@ == v),
            decreases live@.len() - i,
        {
            let p = &live[i];
            let n = p.len();
            let ghost prev = vs@;
            match p.segment(n - 1) {
                Segment::FunLeaf(_, v) => {
                    let dup = v.duplicate();
                    vs.push(dup);
                    proof {
                        assert(subtree_paths(self.state_map(), path@).contains(
                            live@[i as int]@,
                        ) && (live@[i as int]@.last() matches SegV::FunLeaf(_, vv) && vv == vs@[
                            vs@.len() - 1]@));
                        assert(Self::values_found(self.state_map(), path@, vs@)) by {
                            assert forall|j: int| 0 <= j < vs@.len() implies exists|p2: PathV|
                                subtree_paths(self.state_map(), path@).contains(p2) && (
                            p2.last() matches SegV::FunLeaf(_, v2) && v2 == (
                            #[trigger] vs@[j])@) by {
                                if j < prev.len() {
                                    assert(vs@[j] == prev[j]);
                                    let p2 = choose|p2: PathV|
                                        subtree_paths(self.state_map(), path@).contains(p2)
                                            && (p2.last() matches SegV::FunLeaf(_, v2) && v2
                                            == prev[j]@);
                                    assert(subtree_paths(self.state_map(), path@).contains(p2)
                                        && (p2.last() matches SegV::FunLeaf(_, v2) && v2
                                        == vs@[j]@));
                                } else {
                                    assert(subtree_paths(self.state_map(), path@).contains(
                                        live@[i as int]@,
                                    ) && (live@[i as int]@.last() matches SegV::FunLeaf(
                                        _,
                                        v2,
                                    ) && v2 == vs@[j]@));
                                }
                            }
                        }
                        assert forall|j: int| 0 <= j < i + 1 implies ((
                        #[trigger] live@[j]@).last() matches SegV::FunLeaf(_, vv2)
                            ==> exists|l: int| 0 <= l < vs@.len() && (#[trigger] vs@[l])@
                            == vv2) by {
                            if j < i {
                                if live@[j]@.last() is FunLeaf {
                                    let l = choose|l: int|
                                        0 <= l < prev.len() && (#[trigger] prev[l])@
                                            == live@[j]@.last()->FunLeaf_1;
                                    assert(vs@[l]@ == live@[j]@.last()->FunLeaf_1);
                                }
                            } else {
                                assert(vs@[vs@.len() - 1]@ == live@[j]@.last()->FunLeaf_1);
                            }
                        }
                    }
                },
                _ => {
                    proof {
                        assert(!(live@[i as int]@.last() is FunLeaf));
                    }
                },
            }
            i += 1;
        }
        proof {
            assert forall|p: PathV|
                #[trigger] subtree_paths(self.state_map(), path@).contains(p) implies (p.last()
                matches SegV::FunLeaf(_, v) ==> exists|j: int|
                0 <= j < vs@.len() && (#[trigger] vs@[j])@ == v) by {
                let j = choose|j: int| 0 <= j < live@.len() && #[trigger] live@[j]@ == p;
            }
        }
        Ok(vs)
    }
}

/// The document a rooted path belongs to.
fn doc_of(path: &PathBuf) -> (r: DocId)
    requires
        path@.len() > 0,
        path@[0] is Root,
    ensures
        r@ == path@[0]->Root_0,
{
    match path.segment(0) {
        Segment::Root(d) => *d,
        _ => {
            proof {
                assert(false);
            }
            DocId::new([0; 32])
        },
    }
}

/// Byte-wise equality of two 32-byte identities.
fn ids_equal(a: &[u8; 32], b: &[u8; 32]) -> (r: bool)
    ensures
        r == (a@ == b@),
{
    let mut i: usize = 0;
    while i < 32
        invariant
            i <= 32,
            forall|j: int| 0 <= j < i ==> a@[j] == b@[j],
        decreases 32 - i,
    {
        if a[i] != b[i] {
            return false;
        }
        i += 1;
    }
    proof {
        assert(a@ =~= b@);
    }
    true
}

} // verus!
