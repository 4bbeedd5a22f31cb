use vstd::prelude::*;

verus! {

/// A replica identity: 32 raw bytes of a public key hash.
#[derive(Clone, Copy, Debug, PartialEq, Eq)]
pub struct PeerId {
    pub bytes: [u8; 32],
}

/// Mathematical value of a `PeerId`: its byte sequence.
impl View for PeerId {
    type V = Seq<u8>;

    open spec fn view(&self) -> Seq<u8> {
        self.bytes@
    }
}

impl PeerId {
    pub fn new(bytes: [u8; 32]) -> (r: Self)
        ensures
            r@ == bytes@,
    {
        PeerId { bytes }
    }

    /// Byte-wise equality, decided at the level of the views.
    pub fn equals(&self, other: &PeerId) -> (r: bool)
        ensures
            r == (self@ == other@),
    {
        let mut i: usize = 0;
        while i < 32
            invariant
                i <= 32,
                forall|j: int| 0 <= j < i ==> self.bytes@[j] == other.bytes@[j],
            decreases 32 - i,
        {
            if self.bytes[i] != other.bytes[i] {
                return false;
            }
            i += 1;
        }
        proof {
            assert(self@ =~= other@);
        }
        true
    }
}

/// A dot: one mutation, identified by the peer that issued it and a
/// per-peer counter.
#[derive(Clone, Copy, Debug, PartialEq, Eq)]
pub struct Dot {
    pub peer: PeerId,
    pub counter: u64,
}

/// Mathematical value of a `Dot`.
#[verifier::ext_equal]
pub ghost struct DotV {
    pub peer: Seq<u8>,
    pub counter: u64,
}

impl View for Dot {
    type V = DotV;

    open spec fn view(&self) -> DotV {
        DotV { peer: self.peer@, counter: self.counter }
    }
}

impl Dot {
    pub fn new(peer: PeerId, counter: u64) -> (r: Self)
        ensures
            r@ == (DotV { peer: peer@, counter }),
    {
        Dot { peer, counter }
    }

    pub fn equals(&self, other: &Dot) -> (r: bool)
        ensures
            r == (self@ == other@),
    {
        self.counter == other.counter && self.peer.equals(&other.peer)
    }
}


/// The set of dot values that a sequence of dots denotes.
pub open spec fn dset(s: Seq<Dot>) -> Set<DotV> {
    Set::new(|d: DotV| exists|i: int| 0 <= i < s.len() && s[i]@ == d)
}

pub proof fn lemma_dset_push(s: Seq<Dot>, d: Dot)
    ensures
        dset(s.push(d)) =~= dset(s).insert(d@),
{
    assert forall|x: DotV| dset(s.push(d)).contains(x) implies dset(s).insert(d@).contains(x) by {
        let i = choose|i: int| 0 <= i < s.push(d).len() && s.push(d)[i]@ == x;
        if i < s.len() {
            assert(s[i]@ == x);
        }
    }
    assert forall|x: DotV| dset(s).insert(d@).contains(x) implies dset(s.push(d)).contains(x) by {
        if x == d@ {
            assert(s.push(d)[s.len() as int]@ == x);
        } else {
            let i = choose|i: int| 0 <= i < s.len() && s[i]@ == x;
            assert(s.push(d)[i]@ == x);
        }
    }
}

/// A set of dots: which mutations have been observed. The abstract value
/// is a mathematical set; the representation is a plain vector that may
/// hold a dot more than once.
#[derive(Clone, Debug)]
pub struct DotSet {
    elems: Vec<Dot>,
}

impl View for DotSet {
    type V = Set<DotV>;

    closed spec fn view(&self) -> Set<DotV> {
        dset(self.elems@)
    }
}

impl DotSet {
    pub fn new() -> (r: Self)
        ensures
            r@ =~= Set::<DotV>::empty(),
    {
        DotSet { elems: Vec::new() }
    }

    pub fn from_pairs(pairs: Vec<(PeerId, u64)>) -> (r: Self)
        ensures
            forall|x: DotV| r@.contains(x)
                <==> exists|i: int| 0 <= i < pairs@.len()
                    && x == (DotV { peer: pairs@[i].0@, counter: pairs@[i].1 }),
    {
        let mut r = DotSet::new();
        let mut i: usize = 0;
        while i < pairs.len()
            invariant
                i <= pairs@.len(),
                forall|x: DotV| r@.contains(x)
                    <==> exists|j: int| 0 <= j < i
                        && x == (DotV { peer: pairs@[j].0@, counter: pairs@[j].1 }),
            decreases pairs@.len() - i,
        {
            let (p, c) = pairs[i];
            r.insert(Dot::new(p, c));
            i += 1;
        }
        r
    }

    pub fn contains(&self, d: &Dot) -> (r: bool)
        ensures
            r == self@.contains(d@),
    {
        let mut i: usize = 0;
        while i < self.elems.len()
            invariant
                i <= self.elems@.len(),
                forall|j: int| 0 <= j < i ==> self.elems@[j]@ != d@,
            decreases self.elems@.len() - i,
        {
            if self.elems[i].equals(d) {
                return true;
            }
            i += 1;
        }
        false
    }

    pub fn insert(&mut self, d: Dot)
        ensures
            final(self)@ =~= old(self)@.insert(d@),
    {
        if !self.contains(&d) {
            proof {
                lemma_dset_push(self.elems@, d);
            }
            self.elems.push(d);
        } else {
            proof {
                assert(old(self)@.insert(d@) =~= old(self)@);
            }
        }
    }

    /// Add every dot of `other` to this set.
    pub fn union(&mut self, other: &DotSet)
        ensures
            final(self)@ =~= old(self)@.union(other@),
    {
        let mut i: usize = 0;
        while i < other.elems.len()
            invariant
                i <= other.elems@.len(),
                forall|x: DotV| self@.contains(x)
                    <==> (old(self)@.contains(x)
                        || exists|j: int| 0 <= j < i && other.elems@[j]@ == x),
            decreases other.elems@.len() - i,
        {
            let d = other.elems[i];
            self.insert(d);
            i += 1;
        }
        proof {
            assert forall|x: DotV| self@.contains(x) implies old(self)@.union(other@).contains(x) by {
                if !old(self)@.contains(x) {
                    let j = choose|j: int| 0 <= j < other.elems@.len() && other.elems@[j]@ == x;
                    assert(dset(other.elems@).contains(x));
                }
            }
            assert forall|x: DotV| old(self)@.union(other@).contains(x) implies self@.contains(x) by {
                if other@.contains(x) {
                    let j = choose|j: int| 0 <= j < other.elems@.len() && other.elems@[j]@ == x;
                }
            }
            assert(self@ =~= old(self)@.union(other@));
        }
    }

    /// The dots of this set that are not in `other`.
    pub fn difference(&self, other: &DotSet) -> (r: Self)
        ensures
            r@ =~= self@.difference(other@),
    {
        let mut acc: Vec<Dot> = Vec::new();
        let mut i: usize = 0;
        while i < self.elems.len()
            invariant
                i <= self.elems@.len(),
                forall|j: int| 0 <= j < acc@.len()
                    ==> self@.contains(#[trigger] acc@[j]@) && !other@.contains(acc@[j]@),
                forall|j: int| 0 <= j < i && !other@.contains(#[trigger] self.elems@[j]@)
                    ==> dset(acc@).contains(self.elems@[j]@),
            decreases self.elems@.len() - i,
        {
            let d = self.elems[i];
            if !other.contains(&d) {
                proof {
                    lemma_dset_push(acc@, d);
                    assert(dset(self.elems@).contains(d@));
                }
                acc.push(d);
            }
            i += 1;
        }
        let r = DotSet { elems: acc };
        proof {
            assert forall|x: DotV| r@.contains(x) implies self@.difference(other@).contains(x) by {
                let j = choose|j: int| 0 <= j < r.elems@.len() && r.elems@[j]@ == x;
                assert(self@.contains(r.elems@[j]@) && !other@.contains(r.elems@[j]@));
            }
            assert forall|x: DotV| self@.difference(other@).contains(x) implies r@.contains(x) by {
                let j = choose|j: int| 0 <= j < self.elems@.len() && self.elems@[j]@ == x;
            }
            assert(r@ =~= self@.difference(other@));
        }
        r
    }

    /// The dots present in both sets.
    pub fn intersection(&self, other: &DotSet) -> (r: Self)
        ensures
            r@ =~= self@.intersect(other@),
    {
        let mut acc: Vec<Dot> = Vec::new();
        let mut i: usize = 0;
        while i < self.elems.len()
            invariant
                i <= self.elems@.len(),
                forall|j: int| 0 <= j < acc@.len()
                    ==> self@.contains(#[trigger] acc@[j]@) && other@.contains(acc@[j]@),
                forall|j: int| 0 <= j < i && other@.contains(#[trigger] self.elems@[j]@)
                    ==> dset(acc@).contains(self.elems@[j]@),
            decreases self.elems@.len() - i,
        {
            let d = self.elems[i];
            if other.contains(&d) {
                proof {
                    lemma_dset_push(acc@, d);
                    assert(dset(self.elems@).contains(d@));
                }
                acc.push(d);
            }
            i += 1;
        }
        let r = DotSet { elems: acc };
        proof {
            assert forall|x: DotV| r@.contains(x) implies self@.intersect(other@).contains(x) by {
                let j = choose|j: int| 0 <= j < r.elems@.len() && r.elems@[j]@ == x;
                assert(self@.contains(r.elems@[j]@) && other@.contains(r.elems@[j]@));
            }
            assert forall|x: DotV| self@.intersect(other@).contains(x) implies r@.contains(x) by {
                let j = choose|j: int| 0 <= j < self.elems@.len() && self.elems@[j]@ == x;
            }
            assert(r@ =~= self@.intersect(other@));
        }
        r
    }

    /// The dots of this set, one after another. A dot may appear more
    /// than once; every listed dot is in the set and every dot of the
    /// set is listed.
    pub fn iter(&self) -> (r: &Vec<Dot>)
        ensures
            forall|j: int| 0 <= j < r@.len() ==> self@.contains(#[trigger] r@[j]@),
            forall|x: DotV| self@.contains(x)
                ==> exists|j: int| 0 <= j < r@.len() && r@[j]@ == x,
    {
        proof {
            assert forall|x: DotV| self@.contains(x) implies
                exists|j: int| 0 <= j < self.elems@.len() && self.elems@[j]@ == x by {}
        }
        &self.elems
    }


    /// A copy with the same mathematical value.
    pub fn duplicate(&self) -> (r: Self)
        ensures
            r@ =~= self@,
    {
        DotSet::from_dots_ref(&self.elems)
    }

    /// The set of the listed dots.
    pub fn from_dots(v: Vec<Dot>) -> (r: Self)
        ensures
            r@ =~= dset(v@),
    {
        DotSet { elems: v }
    }

    fn from_dots_ref(v: &Vec<Dot>) -> (r: Self)
        ensures
            r@ =~= dset(v@),
    {
        let mut elems: Vec<Dot> = Vec::new();
        let mut i: usize = 0;
        while i < v.len()
            invariant
                i <= v@.len(),
                elems@ =~= v@.take(i as int),
            decreases v@.len() - i,
        {
            elems.push(v[i]);
            i += 1;
            proof {
                assert(elems@ =~= v@.take(i as int));
            }
        }
        proof {
            assert(v@.take(v@.len() as int) =~= v@);
        }
        DotSet { elems }
    }

    /// Whether every dot of this set is in `other`.
    pub fn is_subset(&self, other: &DotSet) -> (r: bool)
        ensures
            r == self@.subset_of(other@),
    {
        let mut i: usize = 0;
        while i < self.elems.len()
            invariant
                i <= self.elems@.len(),
                forall|j: int| 0 <= j < i ==> other@.contains(#[trigger] self.elems@[j]@),
            decreases self.elems@.len() - i,
        {
            if !other.contains(&self.elems[i]) {
                proof {
                    assert(self@.contains(self.elems@[i as int]@));
                }
                return false;
            }
            i += 1;
        }
        proof {
            assert forall|x: DotV| self@.contains(x) implies other@.contains(x) by {
                let j = choose|j: int| 0 <= j < self.elems@.len() && self.elems@[j]@ == x;
            }
        }
        true
    }

    /// Set-level equality.
    pub fn set_equals(&self, other: &DotSet) -> (r: bool)
        ensures
            r <==> (self@ =~= other@),
    {
        self.is_subset(other) && other.is_subset(self)
    }

    /// The largest counter this set holds for `peer`, or 0 if it holds none.
    pub fn max_counter(&self, peer: &PeerId) -> (r: u64)
        ensures
            forall|x: DotV| self@.contains(x) && x.peer == peer@ ==> x.counter <= r,
            r != 0 ==> self@.contains(DotV { peer: peer@, counter: r }),
    {
        let mut m: u64 = 0;
        let mut i: usize = 0;
        while i < self.elems.len()
            invariant
                i <= self.elems@.len(),
                forall|j: int| 0 <= j < i && self.elems@[j]@.peer == peer@
                    ==> #[trigger] self.elems@[j]@.counter <= m,
                m != 0 ==> dset(self.elems@).contains(DotV { peer: peer@, counter: m }),
            decreases self.elems@.len() - i,
        {
            let d = self.elems[i];
            if d.peer.equals(peer) && d.counter > m {
                m = d.counter;
                proof {
                    assert(self.elems@[i as int]@ == (DotV { peer: peer@, counter: m }));
                }
            }
            i += 1;
        }
        proof {
            assert forall|x: DotV| self@.contains(x) && x.peer == peer@ implies x.counter <= m by {
                let j = choose|j: int| 0 <= j < self.elems@.len() && self.elems@[j]@ == x;
            }
        }
        m
    }
}

} // verus!
