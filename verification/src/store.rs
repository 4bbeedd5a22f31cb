use vstd::prelude::*;

use crate::dots::{dset, Dot, DotSet, DotV};
use crate::path::{
    path_dot, store_path_wf, PathBuf, PathV, Policy, Primitive, SegV, Segment,
};

verus! {

/// The set of path values that a sequence of paths denotes.
pub open spec fn pset(s: Seq<PathBuf>) -> Set<PathV> {
    Set::new(|p: PathV| exists|i: int| 0 <= i < s.len() && s[i]@ == p)
}

proof fn lemma_pset_push(s: Seq<PathBuf>, p: PathBuf)
    ensures
        pset(s.push(p)) =~= pset(s).insert(p@),
{
    assert forall|x: PathV| pset(s.push(p)).contains(x) implies pset(s).insert(p@).contains(
        x,
    ) by {
        let i = choose|i: int| 0 <= i < s.push(p).len() && s.push(p)[i]@ == x;
        if i < s.len() {
            assert(s[i]@ == x);
        }
    }
    assert forall|x: PathV| pset(s).insert(p@).contains(x) implies pset(s.push(p)).contains(
        x,
    ) by {
        if x == p@ {
            assert(s.push(p)[s.len() as int]@ == x);
        } else {
            let i = choose|i: int| 0 <= i < s.len() && s[i]@ == x;
            assert(s.push(p)[i]@ == x);
        }
    }
}

/// Every path of the store is a well-formed leaf path.
pub open spec fn store_wf(s: Set<PathV>) -> bool {
    forall|p: PathV| s.contains(p) ==> store_path_wf(p)
}

/// The dots that stamp the leaves of a store.
pub open spec fn store_dots(s: Set<PathV>) -> Set<DotV> {
    Set::new(|d: DotV| exists|p: PathV| s.contains(p) && path_dot(p) == d)
}

/// The join of two stores under a set of expired dots: every leaf of
/// either side survives unless its dot has expired.
pub open spec fn join_stores(a: Set<PathV>, b: Set<PathV>, e: Set<DotV>) -> Set<PathV> {
    Set::new(|p: PathV| (a.contains(p) || b.contains(p)) && !e.contains(path_dot(p)))
}

/// The part of a store whose leaf dots lie in `diff`.
pub open spec fn unjoin_store(a: Set<PathV>, diff: Set<DotV>) -> Set<PathV> {
    Set::new(|p: PathV| a.contains(p) && diff.contains(path_dot(p)))
}

/// A value fragment of the delta lattice: a set of leaf paths, each
/// stamped by the dot of the mutation that produced it.
#[derive(Clone, Debug)]
pub struct DotStore {
    paths: Vec<PathBuf>,
}

impl View for DotStore {
    type V = Set<PathV>;

    closed spec fn view(&self) -> Set<PathV> {
        pset(self.paths@)
    }
}

impl DotStore {
    pub fn new() -> (r: Self)
        ensures
            r@ =~= Set::<PathV>::empty(),
    {
        DotStore { paths: Vec::new() }
    }

    pub fn is_empty(&self) -> (r: bool)
        ensures
            r <==> (self@ =~= Set::<PathV>::empty()),
    {
        let r = self.paths.len() == 0;
        proof {
            if self.paths@.len() > 0 {
                assert(self@.contains(self.paths@[0]@));
            }
        }
        r
    }

    /// The store of an EW-flag / add-wins set fragment: one leaf for
    /// each membership dot.
    pub fn dotset(args: Vec<Dot>) -> (r: Self)
        ensures
            forall|x: PathV| r@.contains(x)
                <==> exists|i: int| 0 <= i < args@.len()
                    && x == seq![SegV::SetLeaf(args@[i]@)],
            store_wf(r@),
    {
        let mut paths: Vec<PathBuf> = Vec::new();
        let mut i: usize = 0;
        while i < args.len()
            invariant
                i <= args@.len(),
                forall|x: PathV| pset(paths@).contains(x)
                    <==> exists|j: int| 0 <= j < i && x == seq![SegV::SetLeaf(args@[j]@)],
            decreases args@.len() - i,
        {
            let mut p = PathBuf::new();
            p.set_leaf(args[i]);
            proof {
                lemma_pset_push(paths@, p);
                assert(p@ =~= seq![SegV::SetLeaf(args@[i as int]@)]);
            }
            paths.push(p);
            i += 1;
        }
        let r = DotStore { paths };
        proof {
            assert forall|x: PathV| r@.contains(x) implies store_path_wf(x) by {}
        }
        r
    }

    /// The store of a multi-value register fragment: one leaf for each
    /// concurrent assignment, carrying its value.
    pub fn dotfun(args: Vec<(Dot, Primitive)>) -> (r: Self)
        ensures
            forall|x: PathV| r@.contains(x)
                <==> exists|i: int| 0 <= i < args@.len()
                    && x == seq![SegV::FunLeaf(args@[i].0@, args@[i].1@)],
            store_wf(r@),
    {
        let mut paths: Vec<PathBuf> = Vec::new();
        let mut i: usize = 0;
        while i < args.len()
            invariant
                i <= args@.len(),
                forall|x: PathV| pset(paths@).contains(x)
                    <==> exists|j: int| 0 <= j < i
                        && x == seq![SegV::FunLeaf(args@[j].0@, args@[j].1@)],
            decreases args@.len() - i,
        {
            let (d, v) = (args[i].0, args[i].1.duplicate());
            let mut p = PathBuf::new();
            p.fun_leaf(d, v);
            proof {
                lemma_pset_push(paths@, p);
                assert(p@ =~= seq![SegV::FunLeaf(args@[i as int].0@, args@[i as int].1@)]);
            }
            paths.push(p);
            i += 1;
        }
        let r = DotStore { paths };
        proof {
            assert forall|x: PathV| r@.contains(x) implies store_path_wf(x) by {}
        }
        r
    }

    /// The store of a policy fragment: one leaf for each authorization
    /// statement, stamped by its issuing dot.
    pub fn policy(args: Vec<(Dot, Policy)>) -> (r: Self)
        ensures
            forall|x: PathV| r@.contains(x)
                <==> exists|i: int| 0 <= i < args@.len()
                    && x == seq![SegV::PolicyLeaf(args@[i].0@, args@[i].1@)],
            store_wf(r@),
    {
        let mut paths: Vec<PathBuf> = Vec::new();
        let mut i: usize = 0;
        while i < args.len()
            invariant
                i <= args@.len(),
                forall|x: PathV| pset(paths@).contains(x)
                    <==> exists|j: int| 0 <= j < i
                        && x == seq![SegV::PolicyLeaf(args@[j].0@, args@[j].1@)],
            decreases args@.len() - i,
        {
            let (d, pol) = (args[i].0, args[i].1);
            let mut p = PathBuf::new();
            p.policy_leaf(d, pol);
            proof {
                lemma_pset_push(paths@, p);
                assert(p@ =~= seq![SegV::PolicyLeaf(args@[i as int].0@, args@[i as int].1@)]);
            }
            paths.push(p);
            i += 1;
        }
        let r = DotStore { paths };
        proof {
            assert forall|x: PathV| r@.contains(x) implies store_path_wf(x) by {}
        }
        r
    }

    /// Add every path of `other` to this store.
    fn merge_from(&mut self, other: &DotStore)
        ensures
            final(self)@ =~= old(self)@.union(other@),
    {
        let mut i: usize = 0;
        while i < other.paths.len()
            invariant
                i <= other.paths@.len(),
                forall|x: PathV| self@.contains(x)
                    <==> (old(self)@.contains(x)
                        || exists|k: int| 0 <= k < i && other.paths@[k]@ == x),
            decreases other.paths@.len() - i,
        {
            let dup = other.paths[i].duplicate();
            self.insert(dup);
            i += 1;
        }
        proof {
            assert forall|x: PathV| self@.contains(x) implies old(self)@.union(other@).contains(
                x,
            ) by {
                if !old(self)@.contains(x) {
                    let k = choose|k: int| 0 <= k < other.paths@.len() && other.paths@[k]@ == x;
                    assert(other@.contains(other.paths@[k]@));
                }
            }
            assert forall|x: PathV| old(self)@.union(other@).contains(x) implies self@.contains(
                x,
            ) by {
                if other@.contains(x) {
                    let k = choose|k: int| 0 <= k < other.paths@.len() && other.paths@[k]@ == x;
                }
            }
            assert(self@ =~= old(self)@.union(other@));
        }
    }

    /// Prefix the entire store with a path.
    pub fn prefix(&self, path: &PathBuf) -> (r: Self)
        ensures
            forall|x: PathV| r@.contains(x)
                <==> exists|p: PathV| self@.contains(p) && x == path@ + p,
    {
        let mut paths: Vec<PathBuf> = Vec::new();
        let mut i: usize = 0;
        while i < self.paths.len()
            invariant
                i <= self.paths@.len(),
                forall|x: PathV| pset(paths@).contains(x)
                    <==> exists|j: int| 0 <= j < i && x == path@ + self.paths@[j]@,
            decreases self.paths@.len() - i,
        {
            let mut p = path.duplicate();
            p.extend(&self.paths[i]);
            proof {
                lemma_pset_push(paths@, p);
            }
            paths.push(p);
            i += 1;
        }
        let r = DotStore { paths };
        proof {
            assert forall|x: PathV| r@.contains(x) implies (exists|p: PathV|
                self@.contains(p) && x == path@ + p) by {
                let j = choose|j: int| 0 <= j < self.paths@.len() && x == path@ + self.paths@[j]@;
                assert(self@.contains(self.paths@[j]@));
            }
            assert forall|x: PathV| (exists|p: PathV| self@.contains(p) && x == path@ + p)
                implies r@.contains(x) by {
                let p = choose|p: PathV| self@.contains(p) && x == path@ + p;
                let j = choose|j: int| 0 <= j < self.paths@.len() && self.paths@[j]@ == p;
            }
        }
        r
    }

    /// The store of an observed-remove map fragment: each listed value
    /// fragment, behind its key.
    pub fn dotmap(args: Vec<(Primitive, DotStore)>) -> (r: Self)
        ensures
            forall|x: PathV| r@.contains(x)
                <==> exists|i: int, p: PathV| 0 <= i < args@.len()
                    && args@[i].1@.contains(p) && x == seq![SegV::MapKey(args@[i].0@)] + p,
    {
        let mut r = DotStore::new();
        let mut i: usize = 0;
        while i < args.len()
            invariant
                i <= args@.len(),
                forall|x: PathV| r@.contains(x)
                    <==> exists|j: int, p: PathV| 0 <= j < i
                        && args@[j].1@.contains(p) && x == seq![SegV::MapKey(args@[j].0@)] + p,
            decreases args@.len() - i,
        {
            let mut key_path = PathBuf::new();
            key_path.key(args[i].0.duplicate());
            proof {
                assert(key_path@ =~= seq![SegV::MapKey(args@[i as int].0@)]);
            }
            let sub = args[i].1.prefix(&key_path);
            let ghost before = r@;
            r.merge_from(&sub);
            proof {
                assert forall|x: PathV| r@.contains(x) implies (exists|j: int, p: PathV|
                    0 <= j < i + 1 && args@[j].1@.contains(p)
                        && x == seq![SegV::MapKey(args@[j].0@)] + p) by {
                    if before.contains(x) {
                    } else {
                        assert(sub@.contains(x));
                        let p = choose|p: PathV| args@[i as int].1@.contains(p)
                            && x == key_path@ + p;
                        assert(args@[i as int].1@.contains(p)
                            && x == seq![SegV::MapKey(args@[i as int].0@)] + p);
                    }
                }
                assert forall|x: PathV| (exists|j: int, p: PathV| 0 <= j < i + 1
                    && args@[j].1@.contains(p)
                    && x == seq![SegV::MapKey(args@[j].0@)] + p) implies r@.contains(x) by {
                    let (j, p) = choose|j: int, p: PathV| 0 <= j < i + 1
                        && args@[j].1@.contains(p) && x == seq![SegV::MapKey(args@[j].0@)] + p;
                    if j < i {
                        assert(before.contains(x));
                    } else {
                        assert(x == key_path@ + p);
                        assert(sub@.contains(x));
                    }
                }
            }
            i += 1;
        }
        r
    }

    /// The store of a record fragment: each listed value fragment,
    /// behind its field name.
    pub fn record(args: Vec<(Vec<u8>, DotStore)>) -> (r: Self)
        ensures
            forall|x: PathV| r@.contains(x)
                <==> exists|i: int, p: PathV| 0 <= i < args@.len()
                    && args@[i].1@.contains(p) && x == seq![SegV::Field(args@[i].0@)] + p,
    {
        let mut r = DotStore::new();
        let mut i: usize = 0;
        while i < args.len()
            invariant
                i <= args@.len(),
                forall|x: PathV| r@.contains(x)
                    <==> exists|j: int, p: PathV| 0 <= j < i
                        && args@[j].1@.contains(p) && x == seq![SegV::Field(args@[j].0@)] + p,
            decreases args@.len() - i,
        {
            let mut key_path = PathBuf::new();
            key_path.field(crate::path::copy_bytes(&args[i].0));
            proof {
                assert(key_path@ =~= seq![SegV::Field(args@[i as int].0@)]);
            }
            let sub = args[i].1.prefix(&key_path);
            let ghost before = r@;
            r.merge_from(&sub);
            proof {
                assert forall|x: PathV| r@.contains(x) implies (exists|j: int, p: PathV|
                    0 <= j < i + 1 && args@[j].1@.contains(p)
                        && x == seq![SegV::Field(args@[j].0@)] + p) by {
                    if before.contains(x) {
                    } else {
                        assert(sub@.contains(x));
                        let p = choose|p: PathV| args@[i as int].1@.contains(p)
                            && x == key_path@ + p;
                        assert(args@[i as int].1@.contains(p)
                            && x == seq![SegV::Field(args@[i as int].0@)] + p);
                    }
                }
                assert forall|x: PathV| (exists|j: int, p: PathV| 0 <= j < i + 1
                    && args@[j].1@.contains(p)
                    && x == seq![SegV::Field(args@[j].0@)] + p) implies r@.contains(x) by {
                    let (j, p) = choose|j: int, p: PathV| 0 <= j < i + 1
                        && args@[j].1@.contains(p) && x == seq![SegV::Field(args@[j].0@)] + p;
                    if j < i {
                        assert(before.contains(x));
                    } else {
                        assert(x == key_path@ + p);
                        assert(sub@.contains(x));
                    }
                }
            }
            i += 1;
        }
        r
    }


    /// Whether every path of this store is in `other`.
    pub fn is_subset(&self, other: &DotStore) -> (r: bool)
        ensures
            r == self@.subset_of(other@),
    {
        let mut i: usize = 0;
        while i < self.paths.len()
            invariant
                i <= self.paths@.len(),
                forall|j: int| 0 <= j < i ==> other@.contains(#[trigger] self.paths@[j]@),
            decreases self.paths@.len() - i,
        {
            if !other.contains(&self.paths[i]) {
                proof {
                    assert(self@.contains(self.paths@[i as int]@));
                }
                return false;
            }
            i += 1;
        }
        proof {
            assert forall|x: PathV| self@.contains(x) implies other@.contains(x) by {
                let j = choose|j: int| 0 <= j < self.paths@.len() && self.paths@[j]@ == x;
            }
        }
        true
    }

    /// Set-level equality.
    pub fn set_equals(&self, other: &DotStore) -> (r: bool)
        ensures
            r <==> (self@ =~= other@),
    {
        self.is_subset(other) && other.is_subset(self)
    }

    pub fn contains(&self, path: &PathBuf) -> (r: bool)
        ensures
            r == self@.contains(path@),
    {
        let mut i: usize = 0;
        while i < self.paths.len()
            invariant
                i <= self.paths@.len(),
                forall|j: int| 0 <= j < i ==> self.paths@[j]@ != path@,
            decreases self.paths@.len() - i,
        {
            if self.paths[i].equals(path) {
                return true;
            }
            i += 1;
        }
        false
    }

    pub fn insert(&mut self, path: PathBuf)
        ensures
            final(self)@ =~= old(self)@.insert(path@),
    {
        proof {
            lemma_pset_push(self.paths@, path);
        }
        self.paths.push(path);
    }

    /// The paths of the store, one after another. A path may appear more
    /// than once; every listed path is in the store and every path of
    /// the store is listed.
    pub fn iter(&self) -> (r: &Vec<PathBuf>)
        ensures
            forall|j: int| 0 <= j < r@.len() ==> self@.contains(#[trigger] r@[j]@),
            forall|x: PathV| self@.contains(x)
                ==> exists|j: int| 0 <= j < r@.len() && r@[j]@ == x,
    {
        &self.paths
    }

    /// The dots that stamp the leaves of this store.
    pub fn dots(&self) -> (r: Vec<Dot>)
        requires
            store_wf(self@),
        ensures
            dset(r@) =~= store_dots(self@),
    {
        let mut acc: Vec<Dot> = Vec::new();
        let mut i: usize = 0;
        while i < self.paths.len()
            invariant
                store_wf(self@),
                i <= self.paths@.len(),
                forall|j: int| 0 <= j < acc@.len()
                    ==> store_dots(self@).contains(#[trigger] acc@[j]@),
                forall|j: int| 0 <= j < i
                    ==> dset(acc@).contains(path_dot(#[trigger] self.paths@[j]@)),
            decreases self.paths@.len() - i,
        {
            let p = &self.paths[i];
            proof {
                assert(self@.contains(p@));
            }
            let d = p.dot();
            proof {
                crate::dots::lemma_dset_push(acc@, d);
            }
            acc.push(d);
            i += 1;
        }
        proof {
            assert forall|x: DotV| store_dots(self@).contains(x) implies dset(acc@).contains(
                x,
            ) by {
                let p = choose|p: PathV| self@.contains(p) && path_dot(p) == x;
                let j = choose|j: int| 0 <= j < self.paths@.len() && self.paths@[j]@ == p;
            }
        }
        acc
    }

    /// Merge `other` into this store, then drop every leaf whose dot has
    /// expired: the observed-remove step of the lattice.
    pub fn join(&mut self, other: &DotStore, expired: &DotSet)
        requires
            store_wf(old(self)@),
            store_wf(other@),
        ensures
            final(self)@ =~= join_stores(old(self)@, other@, expired@),
            store_wf(final(self)@),
    {
        let mut acc: Vec<PathBuf> = Vec::new();
        let mut i: usize = 0;
        while i < self.paths.len()
            invariant
                store_wf(self@),
                store_wf(other@),
                i <= self.paths@.len(),
                forall|j: int| 0 <= j < acc@.len()
                    ==> join_stores(self@, other@, expired@).contains(#[trigger] acc@[j]@),
                forall|j: int| 0 <= j < i
                    && !expired@.contains(path_dot(#[trigger] self.paths@[j]@))
                    ==> pset(acc@).contains(self.paths@[j]@),
            decreases self.paths@.len() - i,
        {
            let p = &self.paths[i];
            proof {
                assert(self@.contains(p@));
            }
            let d = p.dot();
            if !expired.contains(&d) {
                let dup = p.duplicate();
                proof {
                    lemma_pset_push(acc@, dup);
                }
                acc.push(dup);
            }
            i += 1;
        }
        let mut i: usize = 0;
        let ghost half = acc@;
        while i < other.paths.len()
            invariant
                store_wf(self@),
                store_wf(other@),
                i <= other.paths@.len(),
                forall|j: int| 0 <= j < acc@.len()
                    ==> join_stores(self@, other@, expired@).contains(#[trigger] acc@[j]@),
                forall|x: PathV| pset(half).contains(x) ==> pset(acc@).contains(x),
                forall|j: int| 0 <= j < i
                    && !expired@.contains(path_dot(#[trigger] other.paths@[j]@))
                    ==> pset(acc@).contains(other.paths@[j]@),
            decreases other.paths@.len() - i,
        {
            let p = &other.paths[i];
            proof {
                assert(other@.contains(p@));
            }
            let d = p.dot();
            if !expired.contains(&d) {
                let dup = p.duplicate();
                proof {
                    lemma_pset_push(acc@, dup);
                }
                acc.push(dup);
            }
            i += 1;
        }
        let ghost orig = self@;
        self.paths = acc;
        proof {
            assert forall|x: PathV| join_stores(orig, other@, expired@).contains(x) implies
                self@.contains(x) by {
                if orig.contains(x) {
                    let j = choose|j: int| 0 <= j < old(self).paths@.len()
                        && old(self).paths@[j]@ == x;
                    assert(pset(half).contains(x));
                } else {
                    let j = choose|j: int| 0 <= j < other.paths@.len() && other.paths@[j]@ == x;
                }
            }
            assert(self@ =~= join_stores(orig, other@, expired@));
        }
    }

    /// The part of this store whose leaf dots lie in `diff`: the delta a
    /// remote context has not yet observed.
    pub fn unjoin(&self, diff: &DotSet) -> (r: Self)
        requires
            store_wf(self@),
        ensures
            r@ =~= unjoin_store(self@, diff@),
            store_wf(r@),
    {
        let mut acc: Vec<PathBuf> = Vec::new();
        let mut i: usize = 0;
        while i < self.paths.len()
            invariant
                store_wf(self@),
                i <= self.paths@.len(),
                forall|j: int| 0 <= j < acc@.len()
                    ==> unjoin_store(self@, diff@).contains(#[trigger] acc@[j]@),
                forall|j: int| 0 <= j < i
                    && diff@.contains(path_dot(#[trigger] self.paths@[j]@))
                    ==> pset(acc@).contains(self.paths@[j]@),
            decreases self.paths@.len() - i,
        {
            let p = &self.paths[i];
            proof {
                assert(self@.contains(p@));
            }
            let d = p.dot();
            if diff.contains(&d) {
                let dup = p.duplicate();
                proof {
                    lemma_pset_push(acc@, dup);
                }
                acc.push(dup);
            }
            i += 1;
        }
        let r = DotStore { paths: acc };
        proof {
            assert forall|x: PathV| unjoin_store(self@, diff@).contains(x) implies r@.contains(
                x,
            ) by {
                let j = choose|j: int| 0 <= j < self.paths@.len() && self.paths@[j]@ == x;
            }
            assert(r@ =~= unjoin_store(self@, diff@));
        }
        r
    }
}

} // verus!
