use vstd::prelude::*;

use crate::dots::{Dot, DotV};
use crate::path::{perm_rank, ActorV, Actor, PathBuf, PathV, Permission, Policy, PolicyV};

verus! {

/// One policy statement found in a document: where it attaches, the dot
/// that stamped it, and what it says.
pub struct PolicyEntry {
    pub at: PathBuf,
    pub dot: Dot,
    pub policy: Policy,
}

/// Mathematical value of a policy entry.
#[verifier::ext_equal]
pub ghost struct EntryV {
    pub at: PathV,
    pub dot: DotV,
    pub policy: PolicyV,
}

impl View for PolicyEntry {
    type V = EntryV;

    open spec fn view(&self) -> EntryV {
        EntryV { at: self.at@, dot: self.dot@, policy: self.policy@ }
    }
}

/// The set of entry values a sequence of entries denotes.
pub open spec fn eset(s: Seq<PolicyEntry>) -> Set<EntryV> {
    Set::new(|e: EntryV| exists|i: int| 0 <= i < s.len() && s[i]@ == e)
}


pub proof fn lemma_eset_push(s: Seq<PolicyEntry>, e: PolicyEntry)
    ensures
        eset(s.push(e)) =~= eset(s).insert(e@),
{
    assert forall|x: EntryV| eset(s.push(e)).contains(x) implies eset(s).insert(e@).contains(
        x,
    ) by {
        let i = choose|i: int| 0 <= i < s.push(e).len() && s.push(e)[i]@ == x;
        if i < s.len() {
            assert(s[i]@ == x);
        }
    }
    assert forall|x: EntryV| eset(s).insert(e@).contains(x) implies eset(s.push(e)).contains(
        x,
    ) by {
        if x == e@ {
            assert(s.push(e)[s.len() as int]@ == x);
        } else {
            let i = choose|i: int| 0 <= i < s.len() && s[i]@ == x;
            assert(s.push(e)[i]@ == x);
        }
    }
}

/// Whether a grant to this actor reaches the peer.
pub open spec fn actor_matches(a: ActorV, peer: Seq<u8>) -> bool {
    a == ActorV::Anonymous || a == ActorV::Peer(peer)
}

/// Whether some statement withdraws the grant stamped by `d`.
pub open spec fn revoked(es: Set<EntryV>, d: DotV) -> bool {
    exists|e: EntryV| es.contains(e) && e.policy == PolicyV::Revokes(d)
}

/// Whether an unrevoked unconditional grant at an ancestor of `path`
/// gives `peer` at least `perm`.
pub open spec fn has_grant(
    es: Set<EntryV>,
    peer: Seq<u8>,
    perm: Permission,
    path: PathV,
) -> bool {
    exists|e: EntryV|
        es.contains(e) && e.at.is_prefix_of(path) && !revoked(es, e.dot) && (e.policy matches
            PolicyV::Can(a, p2) && actor_matches(a, peer) && perm_rank(perm) <= perm_rank(
            p2,
        ))
}

/// Whether an unrevoked conditional grant at an ancestor of `path`
/// gives `peer` at least `perm`, its condition met by an unconditional
/// grant at the statement's own node.
pub open spec fn cond_grant(
    es: Set<EntryV>,
    peer: Seq<u8>,
    perm: Permission,
    path: PathV,
) -> bool {
    exists|e: EntryV|
        es.contains(e) && e.at.is_prefix_of(path) && !revoked(es, e.dot) && (e.policy matches
            PolicyV::CanIf(a, p2, cond) && actor_matches(a, peer) && perm_rank(perm)
            <= perm_rank(p2) && has_grant(es, peer, cond, e.at))
}

/// Whether the statements grant `peer` at least `perm` at `path`.
pub open spec fn acl_allows(
    es: Set<EntryV>,
    peer: Seq<u8>,
    perm: Permission,
    path: PathV,
) -> bool {
    has_grant(es, peer, perm, path) || cond_grant(es, peer, perm, path)
}

fn actor_matches_exec(a: &Actor, peer: &crate::dots::PeerId) -> (r: bool)
    ensures
        r == actor_matches(a@, peer@),
{
    match a {
        Actor::Anonymous => true,
        Actor::Peer(p) => p.equals(peer),
    }
}

fn is_revoked(entries: &Vec<PolicyEntry>, d: &Dot) -> (r: bool)
    ensures
        r == revoked(eset(entries@), d@),
{
    let mut i: usize = 0;
    while i < entries.len()
        invariant
            i <= entries@.len(),
            forall|j: int| 0 <= j < i
                ==> !((#[trigger] entries@[j]@).policy == PolicyV::Revokes(d@)),
        decreases entries@.len() - i,
    {
        match &entries[i].policy {
            Policy::Revokes(rd) => {
                if rd.equals(d) {
                    proof {
                        assert(eset(entries@).contains(entries@[i as int]@));
                    }
                    return true;
                }
            },
            _ => {},
        }
        i += 1;
    }
    proof {
        if revoked(eset(entries@), d@) {
            let e = choose|e: EntryV|
                eset(entries@).contains(e) && e.policy == PolicyV::Revokes(d@);
            let j = choose|j: int| 0 <= j < entries@.len() && entries@[j]@ == e;
        }
    }
    false
}

fn has_grant_exec(
    entries: &Vec<PolicyEntry>,
    peer: &crate::dots::PeerId,
    perm: &Permission,
    path: &PathBuf,
) -> (r: bool)
    ensures
        r == has_grant(eset(entries@), peer@, *perm, path@),
{
    let mut i: usize = 0;
    while i < entries.len()
        invariant
            i <= entries@.len(),
            forall|j: int| 0 <= j < i
                ==> !({
                    let e = (#[trigger] entries@[j])@;
                    e.at.is_prefix_of(path@) && !revoked(eset(entries@), e.dot) && (e.policy
                        matches PolicyV::Can(a, p2) && actor_matches(a, peer@) && perm_rank(
                        *perm,
                    ) <= perm_rank(p2))
                }),
        decreases entries@.len() - i,
    {
        let entry = &entries[i];
        match &entry.policy {
            Policy::Can(a, p2) => {
                if actor_matches_exec(a, peer) && perm.implied_by(p2)
                    && entry.at.is_prefix_of(path) && !is_revoked(entries, &entry.dot) {
                    proof {
                        assert(eset(entries@).contains(entries@[i as int]@));
                    }
                    return true;
                }
            },
            _ => {},
        }
        i += 1;
    }
    proof {
        if has_grant(eset(entries@), peer@, *perm, path@) {
            let e = choose|e: EntryV|
                eset(entries@).contains(e) && e.at.is_prefix_of(path@) && !revoked(
                    eset(entries@),
                    e.dot,
                ) && (e.policy matches PolicyV::Can(a, p2) && actor_matches(a, peer@)
                    && perm_rank(*perm) <= perm_rank(p2));
            let j = choose|j: int| 0 <= j < entries@.len() && entries@[j]@ == e;
        }
    }
    false
}

/// Whether the listed statements grant `peer` at least `perm` at
/// `path`. Deterministic: a function of the entries alone.
pub fn acl_eval(
    entries: &Vec<PolicyEntry>,
    peer: &crate::dots::PeerId,
    perm: &Permission,
    path: &PathBuf,
) -> (r: bool)
    ensures
        r == acl_allows(eset(entries@), peer@, *perm, path@),
{
    if has_grant_exec(entries, peer, perm, path) {
        return true;
    }
    let mut i: usize = 0;
    while i < entries.len()
        invariant
            i <= entries@.len(),
            !has_grant(eset(entries@), peer@, *perm, path@),
            forall|j: int| 0 <= j < i
                ==> !({
                    let e = (#[trigger] entries@[j])@;
                    e.at.is_prefix_of(path@) && !revoked(eset(entries@), e.dot) && (e.policy
                        matches PolicyV::CanIf(a, p2, cond) && actor_matches(a, peer@)
                        && perm_rank(*perm) <= perm_rank(p2) && has_grant(
                        eset(entries@),
                        peer@,
                        cond,
                        e.at,
                    ))
                }),
        decreases entries@.len() - i,
    {
        let entry = &entries[i];
        match &entry.policy {
            Policy::CanIf(a, p2, cond) => {
                if actor_matches_exec(a, peer) && perm.implied_by(p2)
                    && entry.at.is_prefix_of(path) && !is_revoked(entries, &entry.dot)
                    && has_grant_exec(entries, peer, cond, &entry.at) {
                    proof {
                        assert(eset(entries@).contains(entries@[i as int]@));
                    }
                    return true;
                }
            },
            _ => {},
        }
        i += 1;
    }
    proof {
        if cond_grant(eset(entries@), peer@, *perm, path@) {
            let e = choose|e: EntryV|
                eset(entries@).contains(e) && e.at.is_prefix_of(path@) && !revoked(
                    eset(entries@),
                    e.dot,
                ) && (e.policy matches PolicyV::CanIf(a, p2, cond) && actor_matches(a, peer@)
                    && perm_rank(*perm) <= perm_rank(p2) && has_grant(
                    eset(entries@),
                    peer@,
                    cond,
                    e.at,
                ));
            let j = choose|j: int| 0 <= j < entries@.len() && entries@[j]@ == e;
        }
    }
    false
}

} // verus!
