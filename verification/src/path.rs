use vstd::prelude::*;

use crate::dots::{Dot, DotV, PeerId};

verus! {

/// Byte-wise equality of two byte vectors.
pub fn bytes_eq(a: &Vec<u8>, b: &Vec<u8>) -> (r: bool)
    ensures
        r == (a@ == b@),
{
    if a.len() != b.len() {
        return false;
    }
    let mut i: usize = 0;
    while i < a.len()
        invariant
            a@.len() == b@.len(),
            i <= a@.len(),
            forall|j: int| 0 <= j < i ==> a@[j] == b@[j],
        decreases a@.len() - i,
    {
        if a[i] != b[i] {
            return false;
        }
        i += 1;
    }
    proof {
        assert(a@ =~= b@);
    }
    true
}

/// An element-wise copy of a byte vector.
pub fn copy_bytes(v: &Vec<u8>) -> (r: Vec<u8>)
    ensures
        r@ == v@,
{
    let mut r: Vec<u8> = Vec::new();
    let mut i: usize = 0;
    while i < v.len()
        invariant
            i <= v@.len(),
            r@ =~= v@.take(i as int),
        decreases v@.len() - i,
    {
        r.push(v[i]);
        i += 1;
        proof {
            assert(r@ =~= v@.take(i as int));
        }
    }
    proof {
        assert(v@.take(v@.len() as int) =~= v@);
    }
    r
}

/// A document identity: 32 raw bytes.
#[derive(Clone, Copy, Debug, PartialEq, Eq)]
pub struct DocId {
    pub bytes: [u8; 32],
}

impl View for DocId {
    type V = Seq<u8>;

    open spec fn view(&self) -> Seq<u8> {
        self.bytes@
    }
}

impl DocId {
    pub fn new(bytes: [u8; 32]) -> (r: Self)
        ensures
            r@ == bytes@,
    {
        DocId { bytes }
    }

    pub fn equals(&self, other: &DocId) -> (r: bool)
        ensures
            r == (self@ == other@),
    {
        let mut i: usize = 0;
        while i < 32
            invariant
                i <= 32,
                forall|j: int| 0 <= j < i ==> self.bytes@[j] == other.bytes@[j],
            decreases 32 - i,
        {
            if self.bytes[i] != other.bytes[i] {
                return false;
            }
            i += 1;
        }
        proof {
            assert(self@ =~= other@);
        }
        true
    }
}

/// A primitive value: register contents and map keys.
#[derive(Clone, Debug, PartialEq, Eq)]
pub enum Primitive {
    Bool(bool),
    U64(u64),
    I64(i64),
    Str(Vec<u8>),
}

/// Mathematical value of a `Primitive`.
#[verifier::ext_equal]
pub ghost enum PrimV {
    Bool(bool),
    U64(u64),
    I64(i64),
    Str(Seq<u8>),
}

impl View for Primitive {
    type V = PrimV;

    open spec fn view(&self) -> PrimV {
        match self {
            Primitive::Bool(b) => PrimV::Bool(*b),
            Primitive::U64(n) => PrimV::U64(*n),
            Primitive::I64(n) => PrimV::I64(*n),
            Primitive::Str(s) => PrimV::Str(s@),
        }
    }
}

impl Primitive {
    /// A copy with the same mathematical value.
    pub fn duplicate(&self) -> (r: Primitive)
        ensures
            r@ == self@,
    {
        match self {
            Primitive::Bool(b) => Primitive::Bool(*b),
            Primitive::U64(n) => Primitive::U64(*n),
            Primitive::I64(n) => Primitive::I64(*n),
            Primitive::Str(s) => Primitive::Str(copy_bytes(s)),
        }
    }

    pub fn equals(&self, other: &Primitive) -> (r: bool)
        ensures
            r == (self@ == other@),
    {
        match (self, other) {
            (Primitive::Bool(a), Primitive::Bool(b)) => a == b,
            (Primitive::U64(a), Primitive::U64(b)) => a == b,
            (Primitive::I64(a), Primitive::I64(b)) => a == b,
            (Primitive::Str(a), Primitive::Str(b)) => bytes_eq(a, b),
            _ => false,
        }
    }
}

/// The permission lattice: `Read <= Write <= Control <= Own`.
#[derive(Clone, Copy, Debug, PartialEq, Eq, Structural)]
pub enum Permission {
    Read,
    Write,
    Control,
    Own,
}

/// Rank of a permission in the lattice.
pub open spec fn perm_rank(p: Permission) -> int {
    match p {
        Permission::Read => 0,
        Permission::Write => 1,
        Permission::Control => 2,
        Permission::Own => 3,
    }
}

impl Permission {
    /// Whether `self` is implied by a grant of `other`.
    pub fn implied_by(&self, other: &Permission) -> (r: bool)
        ensures
            r == (perm_rank(*self) <= perm_rank(*other)),
    {
        self.rank() <= other.rank()
    }

    fn rank(&self) -> (r: u8)
        ensures
            r as int == perm_rank(*self),
    {
        match self {
            Permission::Read => 0,
            Permission::Write => 1,
            Permission::Control => 2,
            Permission::Own => 3,
        }
    }

    /// Read and Write may be delegated by a peer holding Control;
    /// granting Control or Own takes Own.
    pub fn controllable(&self) -> (r: bool)
        ensures
            r == (perm_rank(*self) <= 1),
    {
        matches!(self, Permission::Read | Permission::Write)
    }
}

/// Who a policy speaks about.
#[derive(Clone, Copy, Debug, PartialEq, Eq)]
pub enum Actor {
    Peer(PeerId),
    Anonymous,
}

#[verifier::ext_equal]
pub ghost enum ActorV {
    Peer(Seq<u8>),
    Anonymous,
}

impl View for Actor {
    type V = ActorV;

    open spec fn view(&self) -> ActorV {
        match self {
            Actor::Peer(p) => ActorV::Peer(p@),
            Actor::Anonymous => ActorV::Anonymous,
        }
    }
}

impl Actor {
    pub fn equals(&self, other: &Actor) -> (r: bool)
        ensures
            r == (self@ == other@),
    {
        match (self, other) {
            (Actor::Peer(a), Actor::Peer(b)) => a.equals(b),
            (Actor::Anonymous, Actor::Anonymous) => true,
            _ => false,
        }
    }
}

/// One authorization statement.
#[derive(Clone, Copy, Debug, PartialEq, Eq)]
pub enum Policy {
    /// The actor holds the permission at the path the policy is stored at.
    Can(Actor, Permission),
    /// The actor holds the first permission at the path the policy is
    /// stored at, provided an unconditional grant already gives the actor
    /// the second permission there.
    CanIf(Actor, Permission, Permission),
    /// The grant stamped with the given dot is withdrawn.
    Revokes(Dot),
}

#[verifier::ext_equal]
pub ghost enum PolicyV {
    Can(ActorV, Permission),
    CanIf(ActorV, Permission, Permission),
    Revokes(DotV),
}

impl View for Policy {
    type V = PolicyV;

    open spec fn view(&self) -> PolicyV {
        match self {
            Policy::Can(a, p) => PolicyV::Can(a@, *p),
            Policy::CanIf(a, p, c) => PolicyV::CanIf(a@, *p, *c),
            Policy::Revokes(d) => PolicyV::Revokes(d@),
        }
    }
}

impl Policy {
    pub fn equals(&self, other: &Policy) -> (r: bool)
        ensures
            r == (self@ == other@),
    {
        match (self, other) {
            (Policy::Can(a, p), Policy::Can(b, q)) => a.equals(b) && p == q,
            (Policy::CanIf(a, p, c), Policy::CanIf(b, q, d)) => {
                a.equals(b) && p == q && c == d
            },
            (Policy::Revokes(a), Policy::Revokes(b)) => a.equals(b),
            _ => false,
        }
    }
}

/// One step of a typed path from a document root to a CRDT node.
#[derive(Clone, Debug, PartialEq, Eq)]
pub enum Segment {
    /// The document the path belongs to; only ever the first segment.
    Root(DocId),
    /// A key of an observed-remove map.
    MapKey(Primitive),
    /// A field of a record.
    Field(Vec<u8>),
    /// A live membership dot of an EW-flag / add-wins set; terminal.
    SetLeaf(Dot),
    /// One concurrent assignment of a multi-value register; terminal.
    FunLeaf(Dot, Primitive),
    /// One authorization statement, stamped by its issuing dot; terminal.
    PolicyLeaf(Dot, Policy),
}

#[verifier::ext_equal]
pub ghost enum SegV {
    Root(Seq<u8>),
    MapKey(PrimV),
    Field(Seq<u8>),
    SetLeaf(DotV),
    FunLeaf(DotV, PrimV),
    PolicyLeaf(DotV, PolicyV),
}

impl View for Segment {
    type V = SegV;

    open spec fn view(&self) -> SegV {
        match self {
            Segment::Root(d) => SegV::Root(d@),
            Segment::MapKey(p) => SegV::MapKey(p@),
            Segment::Field(f) => SegV::Field(f@),
            Segment::SetLeaf(d) => SegV::SetLeaf(d@),
            Segment::FunLeaf(d, p) => SegV::FunLeaf(d@, p@),
            Segment::PolicyLeaf(d, p) => SegV::PolicyLeaf(d@, p@),
        }
    }
}

impl Segment {
    /// A copy with the same mathematical value.
    pub fn duplicate(&self) -> (r: Segment)
        ensures
            r@ == self@,
    {
        match self {
            Segment::Root(d) => Segment::Root(*d),
            Segment::MapKey(p) => Segment::MapKey(p.duplicate()),
            Segment::Field(f) => Segment::Field(copy_bytes(f)),
            Segment::SetLeaf(d) => Segment::SetLeaf(*d),
            Segment::FunLeaf(d, p) => Segment::FunLeaf(*d, p.duplicate()),
            Segment::PolicyLeaf(d, p) => Segment::PolicyLeaf(*d, *p),
        }
    }

    pub fn equals(&self, other: &Segment) -> (r: bool)
        ensures
            r == (self@ == other@),
    {
        match (self, other) {
            (Segment::Root(a), Segment::Root(b)) => a.equals(b),
            (Segment::MapKey(a), Segment::MapKey(b)) => a.equals(b),
            (Segment::Field(a), Segment::Field(b)) => bytes_eq(a, b),
            (Segment::SetLeaf(a), Segment::SetLeaf(b)) => a.equals(b),
            (Segment::FunLeaf(a, p), Segment::FunLeaf(b, q)) => {
                a.equals(b) && p.equals(q)
            },
            (Segment::PolicyLeaf(a, p), Segment::PolicyLeaf(b, q)) => {
                a.equals(b) && p.equals(q)
            },
            _ => false,
        }
    }
}

/// Whether a segment terminates a path.
pub open spec fn seg_is_leaf(s: SegV) -> bool {
    match s {
        SegV::SetLeaf(_) => true,
        SegV::FunLeaf(_, _) => true,
        SegV::PolicyLeaf(_, _) => true,
        _ => false,
    }
}

/// The mathematical value of a path: the sequence of its segment values.
pub type PathV = Seq<SegV>;

/// A store path fragment: ends in exactly one leaf segment, which stamps
/// it with a dot; no leaf and no root stands anywhere else in it.
pub open spec fn store_path_wf(p: PathV) -> bool {
    &&& p.len() > 0
    &&& seg_is_leaf(p.last())
    &&& forall|i: int| 0 <= i < p.len() - 1 ==> !seg_is_leaf(#[trigger] p[i])
    &&& forall|i: int| 0 < i < p.len() ==> !(#[trigger] p[i] is Root)
}

/// A full path from a document root down to a leaf.
pub open spec fn full_path_wf(p: PathV) -> bool {
    &&& store_path_wf(p)
    &&& p.len() >= 2
    &&& p[0] is Root
}

/// The dot that stamps a leaf path.
pub open spec fn path_dot(p: PathV) -> DotV {
    match p.last() {
        SegV::SetLeaf(d) => d,
        SegV::FunLeaf(d, _) => d,
        SegV::PolicyLeaf(d, _) => d,
        _ => DotV { peer: Seq::empty(), counter: 0 },
    }
}

/// The segment values of a segment sequence.
pub open spec fn segs_view(s: Seq<Segment>) -> PathV {
    s.map_values(|x: Segment| x@)
}

/// A typed path, owned.
#[derive(Clone, Debug, PartialEq, Eq)]
pub struct PathBuf {
    segs: Vec<Segment>,
}

impl View for PathBuf {
    type V = PathV;

    closed spec fn view(&self) -> PathV {
        segs_view(self.segs@)
    }
}

impl PathBuf {
    pub fn new() -> (r: Self)
        ensures
            r@ =~= Seq::<SegV>::empty(),
    {
        PathBuf { segs: Vec::new() }
    }

    pub fn len(&self) -> (r: usize)
        ensures
            r == self@.len(),
    {
        self.segs.len()
    }

    pub fn segment(&self, i: usize) -> (r: &Segment)
        requires
            i < self@.len(),
        ensures
            r@ == self@[i as int],
    {
        &self.segs[i]
    }

    pub fn push(&mut self, s: Segment)
        ensures
            final(self)@ =~= old(self)@.push(s@),
    {
        proof {
            assert(segs_view(self.segs@.push(s)) =~= segs_view(self.segs@).push(s@));
        }
        self.segs.push(s);
    }

    pub fn doc(&mut self, d: &DocId)
        ensures
            final(self)@ =~= old(self)@.push(SegV::Root(d@)),
    {
        self.push(Segment::Root(*d));
    }

    pub fn key(&mut self, k: Primitive)
        ensures
            final(self)@ =~= old(self)@.push(SegV::MapKey(k@)),
    {
        self.push(Segment::MapKey(k));
    }

    pub fn field(&mut self, f: Vec<u8>)
        ensures
            final(self)@ =~= old(self)@.push(SegV::Field(f@)),
    {
        self.push(Segment::Field(f));
    }

    pub fn set_leaf(&mut self, d: Dot)
        ensures
            final(self)@ =~= old(self)@.push(SegV::SetLeaf(d@)),
    {
        self.push(Segment::SetLeaf(d));
    }

    pub fn fun_leaf(&mut self, d: Dot, v: Primitive)
        ensures
            final(self)@ =~= old(self)@.push(SegV::FunLeaf(d@, v@)),
    {
        self.push(Segment::FunLeaf(d, v));
    }

    pub fn policy_leaf(&mut self, d: Dot, p: Policy)
        ensures
            final(self)@ =~= old(self)@.push(SegV::PolicyLeaf(d@, p@)),
    {
        self.push(Segment::PolicyLeaf(d, p));
    }

    /// Append every segment of `other`.
    pub fn extend(&mut self, other: &PathBuf)
        ensures
            final(self)@ =~= old(self)@ + other@,
    {
        let mut i: usize = 0;
        while i < other.segs.len()
            invariant
                i <= other.segs@.len(),
                self@ =~= old(self)@ + other@.take(i as int),
            decreases other.segs@.len() - i,
        {
            let s = other.segs[i].duplicate();
            proof {
                assert(other.segs@[i as int]@ == other@[i as int]);
            }
            self.push(s);
            i += 1;
            proof {
                assert(old(self)@ + other@.take(i - 1) + seq![other@[i - 1]]
                    =~= old(self)@ + other@.take(i as int));
            }
        }
        proof {
            assert(other@.take(other@.len() as int) =~= other@);
        }
    }

    /// A copy with the same mathematical value.
    pub fn duplicate(&self) -> (r: PathBuf)
        ensures
            r@ == self@,
    {
        let mut r = PathBuf::new();
        r.extend(self);
        proof {
            assert(Seq::<SegV>::empty() + self@ =~= self@);
        }
        r
    }

    /// The path without its last segment.
    pub fn parent(&self) -> (r: PathBuf)
        requires
            self@.len() > 0,
        ensures
            r@ =~= self@.drop_last(),
    {
        let mut segs: Vec<Segment> = Vec::new();
        let mut i: usize = 0;
        while i < self.segs.len() - 1
            invariant
                self.segs@.len() > 0,
                i <= self.segs@.len() - 1,
                segs_view(segs@) =~= self@.take(i as int),
            decreases self.segs@.len() - 1 - i,
        {
            let s = self.segs[i].duplicate();
            proof {
                assert(self.segs@[i as int]@ == self@[i as int]);
            }
            let ghost prev = segs@;
            segs.push(s);
            i += 1;
            proof {
                assert(segs@ =~= prev.push(s));
                assert(segs_view(segs@) =~= segs_view(prev).push(s@));
                assert(segs_view(segs@) =~= self@.take(i as int));
            }
        }
        PathBuf { segs }
    }

    /// The dot that stamps this leaf path.
    pub fn dot(&self) -> (r: Dot)
        requires
            store_path_wf(self@),
        ensures
            r@ == path_dot(self@),
    {
        match &self.segs[self.segs.len() - 1] {
            Segment::SetLeaf(d) => *d,
            Segment::FunLeaf(d, _) => *d,
            Segment::PolicyLeaf(d, _) => *d,
            _ => {
                proof {
                    assert(false);
                }
                Dot::new(PeerId::new([0; 32]), 0)
            },
        }
    }

    pub fn equals(&self, other: &PathBuf) -> (r: bool)
        ensures
            r == (self@ == other@),
    {
        if self.segs.len() != other.segs.len() {
            return false;
        }
        let mut i: usize = 0;
        while i < self.segs.len()
            invariant
                self@.len() == other@.len(),
                i <= self@.len(),
                forall|j: int| 0 <= j < i ==> self@[j] == other@[j],
            decreases self@.len() - i,
        {
            if !self.segs[i].equals(&other.segs[i]) {
                proof {
                    assert(self@[i as int] == self.segs@[i as int]@);
                    assert(other@[i as int] == other.segs@[i as int]@);
                }
                return false;
            }
            proof {
                assert(self@[i as int] == self.segs@[i as int]@);
                assert(other@[i as int] == other.segs@[i as int]@);
            }
            i += 1;
        }
        proof {
            assert(self@ =~= other@);
        }
        true
    }

    /// Whether this path is an ancestor-or-self prefix of `other`.
    pub fn is_prefix_of(&self, other: &PathBuf) -> (r: bool)
        ensures
            r == self@.is_prefix_of(other@),
    {
        if self.segs.len() > other.segs.len() {
            proof {
                assert(!self@.is_prefix_of(other@));
            }
            return false;
        }
        let mut i: usize = 0;
        while i < self.segs.len()
            invariant
                self@.len() <= other@.len(),
                i <= self@.len(),
                forall|j: int| 0 <= j < i ==> self@[j] == other@[j],
            decreases self@.len() - i,
        {
            if !self.segs[i].equals(&other.segs[i]) {
                proof {
                    assert(self@[i as int] == self.segs@[i as int]@);
                    assert(other@[i as int] == other.segs@[i as int]@);
                    assert(other@.subrange(0, self@.len() as int)[i as int] == other@[i as int]);
                }
                return false;
            }
            proof {
                assert(self@[i as int] == self.segs@[i as int]@);
                assert(other@[i as int] == other.segs@[i as int]@);
            }
            i += 1;
        }
        proof {
            assert(self@ =~= other@.subrange(0, self@.len() as int));
        }
        true
    }
}

} // verus!
