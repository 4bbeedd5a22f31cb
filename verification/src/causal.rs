use vstd::prelude::*;

use crate::dots::{dset, Dot, DotSet, DotV};
use crate::path::{path_dot, PathV};
use crate::store::{join_stores, store_dots, store_wf, unjoin_store, DotStore};

verus! {

/// Mathematical value of a `CausalContext`.
#[verifier::ext_equal]
pub ghost struct CtxV {
    pub dots: Set<DotV>,
    pub expired: Set<DotV>,
}

/// Mathematical value of a `Causal`.
#[verifier::ext_equal]
pub ghost struct CausalV {
    pub store: Set<PathV>,
    pub expired: Set<DotV>,
}

/// A causal is well formed when its store holds well-formed leaf paths
/// only and no live leaf is stamped by an expired dot.
pub open spec fn causal_wf(c: CausalV) -> bool {
    &&& store_wf(c.store)
    &&& forall|p: PathV| c.store.contains(p) ==> !c.expired.contains(path_dot(p))
}

/// The context a causal covers: the dots of its live leaves and its
/// expired dots.
pub open spec fn ctx_of(c: CausalV) -> CtxV {
    CtxV { dots: store_dots(c.store), expired: c.expired }
}

/// The lattice merge: expired dots union; a leaf of either side
/// survives unless its dot has expired on either side.
pub open spec fn causal_join(a: CausalV, b: CausalV) -> CausalV {
    CausalV {
        store: join_stores(a.store, b.store, a.expired.union(b.expired)),
        expired: a.expired.union(b.expired),
    }
}

/// The delta that a replica whose context is `k` has not seen: the
/// leaves whose dots `k` lacks and the expired dots `k` lacks.
pub open spec fn causal_unjoin(a: CausalV, k: CtxV) -> CausalV {
    CausalV {
        store: unjoin_store(a.store, store_dots(a.store).difference(k.dots)),
        expired: a.expired.difference(k.expired),
    }
}

/// The set of dots a replica has observed: the dots of the live leaves
/// in its store, and the expired dots.
#[derive(Clone, Debug)]
pub struct CausalContext {
    dots: DotSet,
    expired: DotSet,
}

impl View for CausalContext {
    type V = CtxV;

    closed spec fn view(&self) -> CtxV {
        CtxV { dots: self.dots@, expired: self.expired@ }
    }
}

impl CausalContext {
    pub fn new() -> (r: Self)
        ensures
            r@.dots =~= Set::<DotV>::empty(),
            r@.expired =~= Set::<DotV>::empty(),
    {
        CausalContext { dots: DotSet::new(), expired: DotSet::new() }
    }

    pub fn from_parts(dots: DotSet, expired: DotSet) -> (r: Self)
        ensures
            r@ == (CtxV { dots: dots@, expired: expired@ }),
    {
        CausalContext { dots, expired }
    }

    /// The dots of the live leaves.
    pub fn dots(&self) -> (r: &DotSet)
        ensures
            r@ == self@.dots,
    {
        &self.dots
    }

    /// The dots whose leaves have been removed.
    pub fn expired(&self) -> (r: &DotSet)
        ensures
            r@ == self@.expired,
    {
        &self.expired
    }
}

/// The protocol unit: a value fragment together with the expired dots
/// it carries. The context it covers is `ctx()`.
#[derive(Clone, Debug)]
pub struct Causal {
    expired: DotSet,
    store: DotStore,
}

impl View for Causal {
    type V = CausalV;

    closed spec fn view(&self) -> CausalV {
        CausalV { store: self.store@, expired: self.expired@ }
    }
}

impl Causal {
    pub fn from_parts(store: DotStore, expired: DotSet) -> (r: Self)
        ensures
            r@ == (CausalV { store: store@, expired: expired@ }),
    {
        Causal { store, expired }
    }

    pub fn store(&self) -> (r: &DotStore)
        ensures
            r@ == self@.store,
    {
        &self.store
    }

    pub fn expired(&self) -> (r: &DotSet)
        ensures
            r@ == self@.expired,
    {
        &self.expired
    }

    /// The dots of the live leaves of this causal.
    pub fn dots(&self) -> (r: DotSet)
        requires
            store_wf(self@.store),
        ensures
            r@ =~= store_dots(self@.store),
    {
        let v: Vec<Dot> = self.store.dots();
        DotSet::from_dots(v)
    }

    /// The context this causal covers.
    pub fn ctx(&self) -> (r: CausalContext)
        requires
            store_wf(self@.store),
        ensures
            r@ =~= ctx_of(self@),
    {
        let dots = self.dots();
        let expired = self.expired.duplicate();
        CausalContext { dots, expired }
    }

    /// Merge `that` into this causal.
    pub fn join(&mut self, that: &Causal)
        requires
            store_wf(old(self)@.store),
            store_wf(that@.store),
        ensures
            final(self)@ =~= causal_join(old(self)@, that@),
    {
        self.expired.union(&that.expired);
        self.store.join(&that.store, &self.expired);
    }

    /// The delta that a replica with context `ctx` has not seen.
    pub fn unjoin(&self, ctx: &CausalContext) -> (r: Causal)
        requires
            store_wf(self@.store),
        ensures
            r@ =~= causal_unjoin(self@, ctx@),
    {
        let diff = self.dots().difference(&ctx.dots);
        let expired = self.expired.difference(&ctx.expired);
        let store = self.store.unjoin(&diff);
        Causal { expired, store }
    }

    /// Set-level equality of two causals.
    pub fn equals(&self, other: &Causal) -> (r: bool)
        ensures
            r <==> (self@ =~= other@),
    {
        self.expired.set_equals(&other.expired) && self.store.set_equals(&other.store)
    }
}

/// Joining a causal with itself changes nothing.
pub proof fn lemma_join_idempotent(a: CausalV)
    requires
        causal_wf(a),
    ensures
        causal_join(a, a) == a,
{
    assert(causal_join(a, a).expired =~= a.expired);
    assert(causal_join(a, a).store =~= a.store);
    assert(causal_join(a, a) =~= a);
}

/// Joining is the same in either order.
pub proof fn lemma_join_commutative(a: CausalV, b: CausalV)
    ensures
        causal_join(a, b) == causal_join(b, a),
{
    assert(causal_join(a, b).expired =~= causal_join(b, a).expired);
    assert(causal_join(a, b).store =~= causal_join(b, a).store);
    assert(causal_join(a, b) =~= causal_join(b, a));
}

/// Joining associates: the result of merging three causals does not
/// depend on the grouping.
pub proof fn lemma_join_associative(a: CausalV, b: CausalV, c: CausalV)
    ensures
        causal_join(causal_join(a, b), c) == causal_join(a, causal_join(b, c)),
{
    let l = causal_join(causal_join(a, b), c);
    let r = causal_join(a, causal_join(b, c));
    assert(l.expired =~= r.expired);
    assert(l.store =~= r.store);
    assert(l =~= r);
}

/// For every context `k`, joining a causal with its own unjoin against
/// `k` gives the causal back.
pub proof fn lemma_unjoin_roundtrip(a: CausalV, k: CtxV)
    requires
        causal_wf(a),
    ensures
        causal_join(a, causal_unjoin(a, k)) == a,
{
    let d = causal_unjoin(a, k);
    assert(causal_join(a, d).expired =~= a.expired);
    assert(causal_join(a, d).store =~= a.store);
    assert(causal_join(a, d) =~= a);
}

/// When `b` has seen a subset of `a`'s dots, the delta `a` owes `b`
/// restores exactly `a`'s store on `a`.
pub proof fn lemma_unjoin_covers(a: CausalV, b: CausalV)
    requires
        causal_wf(a),
        ctx_of(b).dots.subset_of(ctx_of(a).dots),
    ensures
        causal_join(a, causal_unjoin(a, ctx_of(b))).store == a.store,
{
    lemma_unjoin_roundtrip(a, ctx_of(b));
}

} // verus!
