use vstd::prelude::*;

use crate::dots::{Dot, DotV, PeerId};
use crate::error::CrdtError;
use crate::path::{
    path_dot, store_path_wf, Actor, ActorV, DocId, PathBuf, PathV, Permission, PolicyV,
    Policy, PrimV, Primitive, SegV, Segment,
};

verus! {

/// Big-endian bytes of a 64-bit integer.
pub open spec fn u64_bytes(n: u64) -> Seq<u8> {
    seq![
        (n >> 56) as u8,
        (n >> 48) as u8,
        (n >> 40) as u8,
        (n >> 32) as u8,
        (n >> 24) as u8,
        (n >> 16) as u8,
        (n >> 8) as u8,
        n as u8,
    ]
}

/// The 64-bit integer read back from 8 big-endian bytes.
pub open spec fn u64_from(b: Seq<u8>) -> u64
    recommends
        b.len() == 8,
{
    (((b[0] as u64) << 56) | ((b[1] as u64) << 48) | ((b[2] as u64) << 40) | ((b[3] as u64)
        << 32) | ((b[4] as u64) << 24) | ((b[5] as u64) << 16) | ((b[6] as u64) << 8) | (
    b[7] as u64)) as u64
}

pub proof fn lemma_u64_roundtrip(n: u64)
    ensures
        u64_from(u64_bytes(n)) == n,
{
    assert(((((n >> 56) as u8) as u64) << 56) | ((((n >> 48) as u8) as u64) << 48) | ((((n
        >> 40) as u8) as u64) << 40) | ((((n >> 32) as u8) as u64) << 32) | ((((n >> 24) as u8)
        as u64) << 24) | ((((n >> 16) as u8) as u64) << 16) | ((((n >> 8) as u8) as u64) << 8)
        | ((n as u8) as u64) == n) by (bit_vector);
}

/// Big-endian bytes of a 16-bit integer.
pub open spec fn u16_bytes(n: u16) -> Seq<u8> {
    seq![(n >> 8) as u8, n as u8]
}

/// The 16-bit integer read back from 2 big-endian bytes.
pub open spec fn u16_from(b: Seq<u8>) -> u16
    recommends
        b.len() == 2,
{
    (((b[0] as u16) << 8) | (b[1] as u16)) as u16
}

pub proof fn lemma_u16_roundtrip(n: u16)
    ensures
        u16_from(u16_bytes(n)) == n,
{
    assert(((((n >> 8) as u8) as u16) << 8) | ((n as u8) as u16) == n) by (bit_vector);
}

fn u64_to_vec(n: u64) -> (r: Vec<u8>)
    ensures
        r@ =~= u64_bytes(n),
{
    let mut r: Vec<u8> = Vec::new();
    r.push(#[verifier::truncate] ((n >> 56) as u8));
    r.push(#[verifier::truncate] ((n >> 48) as u8));
    r.push(#[verifier::truncate] ((n >> 40) as u8));
    r.push(#[verifier::truncate] ((n >> 32) as u8));
    r.push(#[verifier::truncate] ((n >> 24) as u8));
    r.push(#[verifier::truncate] ((n >> 16) as u8));
    r.push(#[verifier::truncate] ((n >> 8) as u8));
    r.push(#[verifier::truncate] (n as u8));
    r
}

fn u64_from_slice(b: &Vec<u8>, start: usize) -> (r: u64)
    requires
        start + 8 <= b@.len(),
    ensures
        r == u64_from(b@.subrange(start as int, start as int + 8)),
{
    let ghost s = b@.subrange(start as int, start as int + 8);
    let n = b.len();
    let r = ((b[start] as u64) << 56) | ((b[start + 1] as u64) << 48) | ((b[start + 2] as u64)
        << 40) | ((b[start + 3] as u64) << 32) | ((b[start + 4] as u64) << 24) | ((b[start + 5]
        as u64) << 16) | ((b[start + 6] as u64) << 8) | (b[start + 7] as u64);
    proof {
        assert(s[0] == b@[start as int] && s[1] == b@[start as int + 1] && s[2] == b@[
            start as int + 2] && s[3] == b@[start as int + 3] && s[4] == b@[start as int + 4]
            && s[5] == b@[start as int + 5] && s[6] == b@[start as int + 6] && s[7] == b@[
            start as int + 7]);
    }
    r
}

/// Serialized form of a primitive: a type tag, then the value.
pub open spec fn prim_bytes(p: PrimV) -> Seq<u8> {
    match p {
        PrimV::Bool(b) => seq![0u8, if b { 1u8 } else { 0u8 }],
        PrimV::U64(n) => seq![1u8] + u64_bytes(n),
        PrimV::I64(n) => seq![2u8] + u64_bytes(n as u64),
        PrimV::Str(s) => seq![3u8] + s,
    }
}

/// The primitive read back from its serialized form.
pub open spec fn parse_prim(b: Seq<u8>) -> Option<PrimV> {
    if b.len() < 1 {
        None
    } else if b[0] == 0u8 {
        if b.len() == 2 && (b[1] == 0u8 || b[1] == 1u8) {
            Some(PrimV::Bool(b[1] == 1u8))
        } else {
            None
        }
    } else if b[0] == 1u8 {
        if b.len() == 9 {
            Some(PrimV::U64(u64_from(b.skip(1))))
        } else {
            None
        }
    } else if b[0] == 2u8 {
        if b.len() == 9 {
            Some(PrimV::I64(u64_from(b.skip(1)) as i64))
        } else {
            None
        }
    } else if b[0] == 3u8 {
        Some(PrimV::Str(b.skip(1)))
    } else {
        None
    }
}

pub proof fn lemma_prim_roundtrip(p: PrimV)
    ensures
        parse_prim(prim_bytes(p)) == Some(p),
{
    match p {
        PrimV::Bool(b) => {},
        PrimV::U64(n) => {
            assert(prim_bytes(p).skip(1) =~= u64_bytes(n));
            lemma_u64_roundtrip(n);
        },
        PrimV::I64(n) => {
            assert(prim_bytes(p).skip(1) =~= u64_bytes(n as u64));
            lemma_u64_roundtrip(n as u64);
            assert(((n as u64) as i64) == n) by (bit_vector);
        },
        PrimV::Str(s) => {
            assert(prim_bytes(p).skip(1) =~= s);
        },
    }
}

/// Serialized form of a dot: 32 peer bytes, then the counter.
pub open spec fn dot_bytes(d: DotV) -> Seq<u8> {
    d.peer + u64_bytes(d.counter)
}

/// The dot read back from 40 bytes.
pub open spec fn parse_dot(b: Seq<u8>) -> DotV
    recommends
        b.len() == 40,
{
    DotV { peer: b.take(32), counter: u64_from(b.skip(32)) }
}

pub proof fn lemma_dot_roundtrip(d: DotV)
    requires
        d.peer.len() == 32,
    ensures
        dot_bytes(d).len() == 40,
        parse_dot(dot_bytes(d)) == d,
{
    assert(dot_bytes(d).take(32) =~= d.peer);
    assert(dot_bytes(d).skip(32) =~= u64_bytes(d.counter));
    lemma_u64_roundtrip(d.counter);
    assert(parse_dot(dot_bytes(d)) =~= d);
}

/// Serialized form of an actor.
pub open spec fn actor_bytes(a: ActorV) -> Seq<u8> {
    match a {
        ActorV::Anonymous => seq![0u8],
        ActorV::Peer(p) => seq![1u8] + p,
    }
}

pub open spec fn parse_actor(b: Seq<u8>) -> Option<ActorV> {
    if b.len() == 1 && b[0] == 0u8 {
        Some(ActorV::Anonymous)
    } else if b.len() == 33 && b[0] == 1u8 {
        Some(ActorV::Peer(b.skip(1)))
    } else {
        None
    }
}

pub open spec fn perm_byte(p: Permission) -> u8 {
    match p {
        Permission::Read => 0u8,
        Permission::Write => 1u8,
        Permission::Control => 2u8,
        Permission::Own => 3u8,
    }
}

pub open spec fn parse_perm(b: u8) -> Option<Permission> {
    if b == 0u8 {
        Some(Permission::Read)
    } else if b == 1u8 {
        Some(Permission::Write)
    } else if b == 2u8 {
        Some(Permission::Control)
    } else if b == 3u8 {
        Some(Permission::Own)
    } else {
        None
    }
}

/// Serialized form of a policy statement.
pub open spec fn policy_bytes(p: PolicyV) -> Seq<u8> {
    match p {
        PolicyV::Can(a, perm) => seq![0u8, perm_byte(perm)] + actor_bytes(a),
        PolicyV::CanIf(a, perm, cond) => seq![1u8, perm_byte(perm), perm_byte(cond)]
            + actor_bytes(a),
        PolicyV::Revokes(d) => seq![2u8] + dot_bytes(d),
    }
}

pub open spec fn parse_policy(b: Seq<u8>) -> Option<PolicyV> {
    if b.len() < 1 {
        None
    } else if b[0] == 0u8 {
        if b.len() >= 2 {
            match (parse_perm(b[1]), parse_actor(b.skip(2))) {
                (Some(perm), Some(a)) => Some(PolicyV::Can(a, perm)),
                _ => None,
            }
        } else {
            None
        }
    } else if b[0] == 1u8 {
        if b.len() >= 3 {
            match (parse_perm(b[1]), parse_perm(b[2]), parse_actor(b.skip(3))) {
                (Some(perm), Some(cond), Some(a)) => Some(PolicyV::CanIf(a, perm, cond)),
                _ => None,
            }
        } else {
            None
        }
    } else if b[0] == 2u8 {
        if b.len() == 41 {
            Some(PolicyV::Revokes(parse_dot(b.skip(1))))
        } else {
            None
        }
    } else {
        None
    }
}

/// Whether the peers a policy names have 32 bytes.
pub open spec fn policy_valid(p: PolicyV) -> bool {
    match p {
        PolicyV::Can(a, _) => actor_valid(a),
        PolicyV::CanIf(a, _, _) => actor_valid(a),
        PolicyV::Revokes(d) => d.peer.len() == 32,
    }
}

pub open spec fn actor_valid(a: ActorV) -> bool {
    match a {
        ActorV::Peer(p) => p.len() == 32,
        ActorV::Anonymous => true,
    }
}

pub proof fn lemma_policy_roundtrip(p: PolicyV)
    requires
        policy_valid(p),
    ensures
        parse_policy(policy_bytes(p)) == Some(p),
{
    match p {
        PolicyV::Can(a, perm) => {
            assert(policy_bytes(p).skip(2) =~= actor_bytes(a));
            lemma_actor_roundtrip(a);
        },
        PolicyV::CanIf(a, perm, cond) => {
            assert(policy_bytes(p).skip(3) =~= actor_bytes(a));
            lemma_actor_roundtrip(a);
        },
        PolicyV::Revokes(d) => {
            assert(policy_bytes(p).skip(1) =~= dot_bytes(d));
            lemma_dot_roundtrip(d);
        },
    }
}

/// The tag byte of a segment kind.
pub open spec fn seg_type(s: SegV) -> u8 {
    match s {
        SegV::Root(_) => 0u8,
        SegV::SetLeaf(_) => 1u8,
        SegV::FunLeaf(_, _) => 2u8,
        SegV::MapKey(_) => 3u8,
        SegV::Field(_) => 4u8,
        SegV::PolicyLeaf(_, _) => 5u8,
    }
}

/// The key payload of a segment. A leaf contributes only its dot: the
/// value it carries goes into the stored value bytes instead.
pub open spec fn seg_payload(s: SegV) -> Seq<u8> {
    match s {
        SegV::Root(d) => d,
        SegV::SetLeaf(d) => dot_bytes(d),
        SegV::FunLeaf(d, _) => dot_bytes(d),
        SegV::MapKey(p) => prim_bytes(p),
        SegV::Field(f) => f,
        SegV::PolicyLeaf(d, _) => dot_bytes(d),
    }
}

/// What the codec can frame: identities of 32 bytes and payloads that
/// fit the 16-bit length field.
pub open spec fn seg_valid(s: SegV) -> bool {
    match s {
        SegV::Root(d) => d.len() == 32,
        SegV::SetLeaf(d) => d.peer.len() == 32,
        SegV::FunLeaf(d, _) => d.peer.len() == 32,
        SegV::MapKey(p) => prim_bytes(p).len() <= 65535,
        SegV::Field(f) => f.len() <= 65535,
        SegV::PolicyLeaf(d, p) => d.peer.len() == 32 && policy_valid(p),
    }
}

pub open spec fn path_valid(p: PathV) -> bool {
    forall|i: int| 0 <= i < p.len() ==> seg_valid(#[trigger] p[i])
}

/// One symmetric frame: the payload between a mirrored head and tail of
/// type byte and big-endian length, so a path parses forward or backward.
pub open spec fn frame(s: SegV) -> Seq<u8> {
    let pl = seg_payload(s);
    let l = pl.len() as u16;
    seq![seg_type(s)] + u16_bytes(l) + pl + u16_bytes(l) + seq![seg_type(s)]
}

/// The stored key of a path: its frames, one after another.
pub open spec fn key_bytes(p: PathV) -> Seq<u8>
    decreases p.len(),
{
    if p.len() == 0 {
        Seq::empty()
    } else {
        frame(p[0]) + key_bytes(p.drop_first())
    }
}

/// The stored value of a leaf path: nothing for a set member, the
/// serialized primitive for a register, the serialized policy for a
/// policy statement.
pub open spec fn value_bytes(p: PathV) -> Seq<u8> {
    if p.len() == 0 {
        Seq::empty()
    } else {
        match p.last() {
            SegV::FunLeaf(_, v) => prim_bytes(v),
            SegV::PolicyLeaf(_, pol) => policy_bytes(pol),
            _ => Seq::empty(),
        }
    }
}

/// The path read back from a stored key and value: the inverse of
/// `key_bytes` / `value_bytes` on well-formed leaf paths.
pub open spec fn parse_path_from(k: Seq<u8>, v: Seq<u8>, first: bool) -> Option<PathV>
    decreases k.len(),
{
    if k.len() < 6 {
        None
    } else {
        let t = k[0];
        let plen = u16_from(k.subrange(1, 3)) as int;
        if k.len() < 6 + plen {
            None
        } else {
            let payload = k.subrange(3, 3 + plen);
            if k.subrange(3 + plen, 5 + plen) != u16_bytes(plen as u16) || k[5 + plen] != t {
                None
            } else {
                let rest = k.skip(6 + plen);
                if t == 1u8 {
                    if rest.len() == 0 && plen == 40 && v.len() == 0 {
                        Some(seq![SegV::SetLeaf(parse_dot(payload))])
                    } else {
                        None
                    }
                } else if t == 2u8 {
                    if rest.len() == 0 && plen == 40 {
                        match parse_prim(v) {
                            Some(pv) => Some(seq![SegV::FunLeaf(parse_dot(payload), pv)]),
                            None => None,
                        }
                    } else {
                        None
                    }
                } else if t == 5u8 {
                    if rest.len() == 0 && plen == 40 {
                        match parse_policy(v) {
                            Some(pol) => Some(
                                seq![SegV::PolicyLeaf(parse_dot(payload), pol)],
                            ),
                            None => None,
                        }
                    } else {
                        None
                    }
                } else if rest.len() == 0 {
                    None
                } else {
                    let seg = if t == 0u8 {
                        if plen == 32 && first {
                            Some(SegV::Root(payload))
                        } else {
                            None
                        }
                    } else if t == 3u8 {
                        match parse_prim(payload) {
                            Some(pv) => Some(SegV::MapKey(pv)),
                            None => None,
                        }
                    } else if t == 4u8 {
                        Some(SegV::Field(payload))
                    } else {
                        None
                    };
                    match (seg, parse_path_from(rest, v, false)) {
                        (Some(s), Some(q)) => Some(seq![s] + q),
                        _ => None,
                    }
                }
            }
        }
    }
}

/// The path read back from a stored key and value: the inverse of
/// `key_bytes` / `value_bytes` on well-formed leaf paths. A root
/// segment is accepted only at the front.
pub open spec fn parse_path(k: Seq<u8>, v: Seq<u8>) -> Option<PathV> {
    parse_path_from(k, v, true)
}

/// A nonempty path never has an empty key.
pub proof fn lemma_key_bytes_len(p: PathV)
    requires
        p.len() > 0,
    ensures
        key_bytes(p).len() >= 6,
{
}

/// Parsing the stored key and value of a well-formed leaf path gives
/// the path back: the codec roundtrip.
pub proof fn lemma_path_roundtrip(p: PathV)
    requires
        store_path_wf(p),
        path_valid(p),
    ensures
        parse_path(key_bytes(p), value_bytes(p)) == Some(p),
{
    lemma_path_roundtrip_from(p, true);
}

proof fn lemma_path_roundtrip_from(p: PathV, first: bool)
    requires
        store_path_wf(p),
        path_valid(p),
        p[0] is Root ==> first,
    ensures
        parse_path_from(key_bytes(p), value_bytes(p), first) == Some(p),
    decreases p.len(),
{
    let s = p[0];
    let pl = seg_payload(s);
    let l = pl.len() as u16;
    let rest_path = p.drop_first();
    let k = key_bytes(p);
    let v = value_bytes(p);
    let plen = pl.len() as int;
    assert(seg_valid(s));
    match s {
        SegV::Root(_) => assert(plen == 32),
        SegV::SetLeaf(d) => {
            lemma_dot_roundtrip(d);
        },
        SegV::FunLeaf(d, _) => {
            lemma_dot_roundtrip(d);
        },
        SegV::PolicyLeaf(d, _) => {
            lemma_dot_roundtrip(d);
        },
        _ => {},
    }
    assert(plen <= 65535);
    assert(l as int == plen) by {
        lemma_u16_roundtrip(l);
    }
    let f = frame(s);
    assert(f.len() == 6 + plen);
    assert(k =~= f + key_bytes(rest_path));
    assert(k.len() >= 6 + plen);
    assert(k[0] == seg_type(s));
    assert(k.subrange(1, 3) =~= u16_bytes(l));
    lemma_u16_roundtrip(l);
    assert(u16_from(k.subrange(1, 3)) as int == plen);
    assert(k.subrange(3, 3 + plen) =~= pl);
    assert(k.subrange(3 + plen, 5 + plen) =~= u16_bytes(l));
    assert(u16_bytes(plen as u16) == u16_bytes(l));
    assert(k[5 + plen] == seg_type(s));
    let rest = k.skip(6 + plen);
    assert(rest =~= key_bytes(rest_path));
    if p.len() == 1 {
        assert(crate::path::seg_is_leaf(s));
        assert(rest_path.len() == 0);
        assert(rest.len() == 0);
        match s {
            SegV::SetLeaf(d) => {
                assert(v.len() == 0);
                assert(parse_dot(pl) == d);
                assert(parse_path_from(k, v, first) == Some(seq![SegV::SetLeaf(d)]));
                assert(seq![SegV::SetLeaf(d)] =~= p);
            },
            SegV::FunLeaf(d, pv) => {
                assert(v =~= prim_bytes(pv));
                lemma_prim_roundtrip(pv);
                assert(parse_path_from(k, v, first) == Some(seq![SegV::FunLeaf(d, pv)]));
                assert(seq![SegV::FunLeaf(d, pv)] =~= p);
            },
            SegV::PolicyLeaf(d, pol) => {
                assert(v =~= policy_bytes(pol));
                lemma_policy_roundtrip(pol);
                assert(parse_path_from(k, v, first) == Some(seq![SegV::PolicyLeaf(d, pol)]));
                assert(seq![SegV::PolicyLeaf(d, pol)] =~= p);
            },
            _ => {
                assert(crate::path::seg_is_leaf(p.last()));
                assert(false);
            },
        }
    } else {
        assert(!crate::path::seg_is_leaf(s));
        assert(rest_path.len() > 0);
        lemma_key_bytes_len(rest_path);
        assert(rest.len() > 0);
        assert(store_path_wf(rest_path)) by {
            assert(rest_path.last() == p.last());
            assert forall|i: int| 0 <= i < rest_path.len() - 1 implies !crate::path::seg_is_leaf(
                #[trigger] rest_path[i],
            ) by {
                assert(rest_path[i] == p[i + 1]);
            }
            assert forall|i: int| 0 < i < rest_path.len() implies !(#[trigger] rest_path[i]
                is Root) by {
                assert(rest_path[i] == p[i + 1]);
            }
        }
        assert(path_valid(rest_path)) by {
            assert forall|i: int| 0 <= i < rest_path.len() implies seg_valid(
                #[trigger] rest_path[i],
            ) by {
                assert(rest_path[i] == p[i + 1]);
            }
        }
        assert(value_bytes(rest_path) == v) by {
            assert(rest_path.last() == p.last());
        }
        assert(!(rest_path[0] is Root)) by {
            assert(rest_path[0] == p[1]);
        }
        lemma_path_roundtrip_from(rest_path, false);
        match s {
            SegV::Root(d) => {
                assert(parse_path_from(k, v, first) == Some(seq![SegV::Root(d)] + rest_path));
                assert(seq![SegV::Root(d)] + rest_path =~= p);
            },
            SegV::MapKey(pv) => {
                lemma_prim_roundtrip(pv);
                assert(parse_path_from(k, v, first) == Some(seq![SegV::MapKey(pv)] + rest_path));
                assert(seq![SegV::MapKey(pv)] + rest_path =~= p);
            },
            SegV::Field(fd) => {
                assert(parse_path_from(k, v, first) == Some(seq![SegV::Field(fd)] + rest_path));
                assert(seq![SegV::Field(fd)] + rest_path =~= p);
            },
            _ => {
                assert(false);
            },
        }
    }
}

/// Two well-formed leaf paths with the same stored key and value are
/// the same path: the encoding is injective.
pub proof fn lemma_encode_injective(p: PathV, q: PathV)
    requires
        store_path_wf(p),
        path_valid(p),
        store_path_wf(q),
        path_valid(q),
        key_bytes(p) == key_bytes(q),
        value_bytes(p) == value_bytes(q),
    ensures
        p == q,
{
    lemma_path_roundtrip(p);
    lemma_path_roundtrip(q);
}

pub proof fn lemma_actor_roundtrip(a: ActorV)
    requires
        actor_valid(a),
    ensures
        parse_actor(actor_bytes(a)) == Some(a),
{
    match a {
        ActorV::Peer(p) => {
            assert(actor_bytes(a).skip(1) =~= p);
        },
        ActorV::Anonymous => {},
    }
}

/// Pushing a segment adds one frame at the end of the key.
pub proof fn lemma_key_bytes_push(q: PathV, s: SegV)
    ensures
        key_bytes(q.push(s)) == key_bytes(q) + frame(s),
    decreases q.len(),
{
    if q.len() == 0 {
        assert(q.push(s)[0] == s);
        assert(q.push(s).drop_first() =~= Seq::<SegV>::empty());
        assert(key_bytes(Seq::<SegV>::empty()) =~= Seq::<u8>::empty());
        assert(key_bytes(q.push(s)) =~= frame(s) + key_bytes(Seq::<SegV>::empty()));
        assert(frame(s) + Seq::<u8>::empty() =~= frame(s));
        assert(key_bytes(q) + frame(s) =~= frame(s));
    } else {
        assert(q.push(s).drop_first() =~= q.drop_first().push(s));
        lemma_key_bytes_push(q.drop_first(), s);
        assert(key_bytes(q.push(s)) =~= key_bytes(q) + frame(s));
    }
}

fn append_bytes(dst: &mut Vec<u8>, src: &Vec<u8>)
    ensures
        final(dst)@ =~= old(dst)@ + src@,
{
    let mut i: usize = 0;
    while i < src.len()
        invariant
            i <= src@.len(),
            dst@ =~= old(dst)@ + src@.take(i as int),
        decreases src@.len() - i,
    {
        dst.push(src[i]);
        i += 1;
        proof {
            assert(dst@ =~= old(dst)@ + src@.take(i as int));
        }
    }
    proof {
        assert(src@.take(src@.len() as int) =~= src@);
    }
}

fn push_id(dst: &mut Vec<u8>, id: &[u8; 32])
    ensures
        final(dst)@ =~= old(dst)@ + id@,
{
    let mut i: usize = 0;
    while i < 32
        invariant
            i <= 32,
            dst@ =~= old(dst)@ + id@.take(i as int),
        decreases 32 - i,
    {
        dst.push(id[i]);
        i += 1;
        proof {
            assert(dst@ =~= old(dst)@ + id@.take(i as int));
        }
    }
    proof {
        assert(id@.take(32) =~= id@);
    }
}

fn dot_to_vec(d: &Dot) -> (r: Vec<u8>)
    ensures
        r@ =~= dot_bytes(d@),
{
    let mut r: Vec<u8> = Vec::new();
    push_id(&mut r, &d.peer.bytes);
    let tail = u64_to_vec(d.counter);
    append_bytes(&mut r, &tail);
    r
}

fn prim_to_vec(p: &Primitive) -> (r: Vec<u8>)
    ensures
        r@ =~= prim_bytes(p@),
{
    let mut r: Vec<u8> = Vec::new();
    match p {
        Primitive::Bool(b) => {
            r.push(0u8);
            r.push(if *b { 1u8 } else { 0u8 });
        },
        Primitive::U64(n) => {
            r.push(1u8);
            let tail = u64_to_vec(*n);
            append_bytes(&mut r, &tail);
        },
        Primitive::I64(n) => {
            r.push(2u8);
            let tail = u64_to_vec(#[verifier::truncate] (*n as u64));
            append_bytes(&mut r, &tail);
        },
        Primitive::Str(s) => {
            r.push(3u8);
            append_bytes(&mut r, s);
        },
    }
    proof {
        assert(r@ =~= prim_bytes(p@));
    }
    r
}

fn perm_to_byte(p: &Permission) -> (r: u8)
    ensures
        r == perm_byte(*p),
{
    match p {
        Permission::Read => 0u8,
        Permission::Write => 1u8,
        Permission::Control => 2u8,
        Permission::Own => 3u8,
    }
}

fn actor_to_vec(a: &Actor) -> (r: Vec<u8>)
    ensures
        r@ =~= actor_bytes(a@),
{
    let mut r: Vec<u8> = Vec::new();
    match a {
        Actor::Anonymous => {
            r.push(0u8);
        },
        Actor::Peer(p) => {
            r.push(1u8);
            push_id(&mut r, &p.bytes);
        },
    }
    proof {
        assert(r@ =~= actor_bytes(a@));
    }
    r
}

fn policy_to_vec(p: &Policy) -> (r: Vec<u8>)
    ensures
        r@ =~= policy_bytes(p@),
{
    let mut r: Vec<u8> = Vec::new();
    match p {
        Policy::Can(a, perm) => {
            r.push(0u8);
            r.push(perm_to_byte(perm));
            let tail = actor_to_vec(a);
            append_bytes(&mut r, &tail);
        },
        Policy::CanIf(a, perm, cond) => {
            r.push(1u8);
            r.push(perm_to_byte(perm));
            r.push(perm_to_byte(cond));
            let tail = actor_to_vec(a);
            append_bytes(&mut r, &tail);
        },
        Policy::Revokes(d) => {
            r.push(2u8);
            let tail = dot_to_vec(d);
            append_bytes(&mut r, &tail);
        },
    }
    proof {
        assert(r@ =~= policy_bytes(p@));
    }
    r
}

fn seg_type_byte(s: &Segment) -> (r: u8)
    ensures
        r == seg_type(s@),
{
    match s {
        Segment::Root(_) => 0u8,
        Segment::SetLeaf(_) => 1u8,
        Segment::FunLeaf(_, _) => 2u8,
        Segment::MapKey(_) => 3u8,
        Segment::Field(_) => 4u8,
        Segment::PolicyLeaf(_, _) => 5u8,
    }
}

fn seg_payload_vec(s: &Segment) -> (r: Vec<u8>)
    ensures
        r@ =~= seg_payload(s@),
{
    match s {
        Segment::Root(d) => {
            let mut r: Vec<u8> = Vec::new();
            push_id(&mut r, &d.bytes);
            proof {
                assert(r@ =~= seg_payload(s@));
            }
            r
        },
        Segment::SetLeaf(d) => dot_to_vec(d),
        Segment::FunLeaf(d, _) => dot_to_vec(d),
        Segment::MapKey(p) => prim_to_vec(p),
        Segment::Field(f) => crate::path::copy_bytes(f),
        Segment::PolicyLeaf(d, _) => dot_to_vec(d),
    }
}

/// A segment of an executable path can be framed exactly when its
/// payload fits the length field: its identities always have 32 bytes.
proof fn lemma_seg_valid(s: Segment)
    ensures
        seg_valid(s@) <==> seg_payload(s@).len() <= 65535,
{
    match s {
        Segment::Root(d) => {},
        Segment::SetLeaf(d) => {},
        Segment::FunLeaf(d, _) => {},
        Segment::MapKey(p) => {},
        Segment::Field(f) => {},
        Segment::PolicyLeaf(d, p) => {
            match p {
                Policy::Can(a, _) => {
                    match a {
                        Actor::Peer(q) => {},
                        Actor::Anonymous => {},
                    }
                },
                Policy::CanIf(a, _, _) => {
                    match a {
                        Actor::Peer(q) => {},
                        Actor::Anonymous => {},
                    }
                },
                Policy::Revokes(rd) => {},
            }
        },
    }
}

/// The stored key of a path: every segment framed in order. Fails with
/// `InvalidPath` exactly when some payload is over the length field.
pub fn encode_key(p: &PathBuf) -> (r: Result<Vec<u8>, CrdtError>)
    ensures
        r is Ok ==> path_valid(p@) && r->Ok_0@ == key_bytes(p@),
        r is Err ==> !path_valid(p@) && r->Err_0 == CrdtError::InvalidPath,
{
    let mut acc: Vec<u8> = Vec::new();
    let mut i: usize = 0;
    while i < p.len()
        invariant
            i <= p@.len(),
            acc@ =~= key_bytes(p@.take(i as int)),
            forall|j: int| 0 <= j < i ==> seg_valid(#[trigger] p@[j]),
        decreases p@.len() - i,
    {
        let seg = p.segment(i);
        let pv = seg_payload_vec(seg);
        proof {
            lemma_seg_valid(*seg);
        }
        if pv.len() > 65535 {
            return Err(CrdtError::InvalidPath);
        }
        let l: u16 = pv.len() as u16;
        let t = seg_type_byte(seg);
        let ghost before = acc@;
        acc.push(t);
        acc.push(#[verifier::truncate] ((l >> 8) as u8));
        acc.push(#[verifier::truncate] (l as u8));
        append_bytes(&mut acc, &pv);
        acc.push(#[verifier::truncate] ((l >> 8) as u8));
        acc.push(#[verifier::truncate] (l as u8));
        acc.push(t);
        i += 1;
        proof {
            assert(acc@ =~= before + frame(p@[i - 1]));
            lemma_key_bytes_push(p@.take(i - 1), p@[i - 1]);
            assert(p@.take(i as int) =~= p@.take(i - 1).push(p@[i - 1]));
            assert(acc@ =~= key_bytes(p@.take(i as int)));
        }
    }
    proof {
        assert(p@.take(p@.len() as int) =~= p@);
    }
    Ok(acc)
}

/// The stored value of a leaf path: empty for a set member, the
/// serialized primitive for a register, the serialized policy for a
/// policy statement.
pub fn encode_value(p: &PathBuf) -> (r: Vec<u8>)
    ensures
        r@ == value_bytes(p@),
{
    if p.len() == 0 {
        let r: Vec<u8> = Vec::new();
        proof {
            assert(r@ =~= value_bytes(p@));
        }
        return r;
    }
    let last = p.segment(p.len() - 1);
    proof {
        assert(last@ == p@.last());
    }
    match last {
        Segment::FunLeaf(_, v) => {
            let r = prim_to_vec(v);
            proof {
                assert(r@ =~= value_bytes(p@));
            }
            r
        },
        Segment::PolicyLeaf(_, pol) => {
            let r = policy_to_vec(pol);
            proof {
                assert(r@ =~= value_bytes(p@));
            }
            r
        },
        _ => {
            let r: Vec<u8> = Vec::new();
            proof {
                assert(r@ =~= value_bytes(p@));
            }
            r
        },
    }
}

/// The key alone determines every segment of a path except the value a
/// register or policy leaf carries; a set-member key determines the
/// whole path.
pub proof fn lemma_key_determines_shape(k: Seq<u8>, v1: Seq<u8>, v2: Seq<u8>)
    requires
        parse_path(k, v1) is Some,
        parse_path(k, v2) is Some,
    ensures
        (parse_path(k, v1)->Some_0.last() is SetLeaf) == (parse_path(k, v2)->Some_0.last()
            is SetLeaf),
        parse_path(k, v1)->Some_0.last() is SetLeaf ==> parse_path(k, v1) == parse_path(k, v2),
{
    lemma_key_determines_shape_from(k, v1, v2, true);
}

proof fn lemma_key_determines_shape_from(k: Seq<u8>, v1: Seq<u8>, v2: Seq<u8>, first: bool)
    requires
        parse_path_from(k, v1, first) is Some,
        parse_path_from(k, v2, first) is Some,
    ensures
        (parse_path_from(k, v1, first)->Some_0.last() is SetLeaf) == (parse_path_from(
            k,
            v2,
            first,
        )->Some_0.last() is SetLeaf),
        parse_path_from(k, v1, first)->Some_0.last() is SetLeaf ==> parse_path_from(
            k,
            v1,
            first,
        ) == parse_path_from(k, v2, first),
    decreases k.len(),
{
    let t = k[0];
    let plen = u16_from(k.subrange(1, 3)) as int;
    let rest = k.skip(6 + plen);
    let p1 = parse_path_from(k, v1, first)->Some_0;
    let p2 = parse_path_from(k, v2, first)->Some_0;
    if t == 1u8 {
        assert(v1.len() == 0 && v2.len() == 0);
        assert(v1 =~= v2);
    } else if t == 2u8 || t == 5u8 {
    } else {
        lemma_key_determines_shape_from(rest, v1, v2, false);
        let q1 = parse_path_from(rest, v1, false)->Some_0;
        let q2 = parse_path_from(rest, v2, false)->Some_0;
        assert(p1.last() == q1.last());
        assert(p2.last() == q2.last());
        if p1.last() is SetLeaf {
            assert(q1 == q2);
            assert(p1 =~= p2);
        }
    }
}

/// A segment prefix of a path gives a byte prefix of its key.
pub proof fn lemma_seg_prefix_bytes(pp: PathV, q: PathV)
    requires
        pp.is_prefix_of(q),
    ensures
        key_bytes(pp).is_prefix_of(key_bytes(q)),
    decreases pp.len(),
{
    if pp.len() == 0 {
        assert(key_bytes(pp) =~= Seq::<u8>::empty());
    } else {
        assert(pp[0] == q[0]);
        assert(pp.drop_first().is_prefix_of(q.drop_first())) by {
            assert(pp.drop_first() =~= q.drop_first().take(pp.len() - 1)) by {
                assert(pp =~= q.take(pp.len() as int));
                assert forall|j: int| 0 <= j < pp.len() - 1 implies pp.drop_first()[j]
                    == q.drop_first().take(pp.len() - 1)[j] by {
                    assert(pp[j + 1] == q[j + 1]);
                }
            }
        }
        lemma_seg_prefix_bytes(pp.drop_first(), q.drop_first());
        let a = frame(pp[0]);
        let b1 = key_bytes(pp.drop_first());
        let b2 = key_bytes(q.drop_first());
        assert(key_bytes(pp) == a + b1);
        assert(key_bytes(q) == a + b2);
        assert(b1 =~= b2.take(b1.len() as int));
        assert((a + b1).is_prefix_of(a + b2)) by {
            assert(a + b1 =~= (a + b2).take((a + b1).len() as int));
        }
    }
}

/// For a parsed leaf path, a byte prefix of the key is the same as a
/// segment prefix of the path, for any leaf-free prefix path.
#[verifier::rlimit(100)]
#[verifier::spinoff_prover]
pub proof fn lemma_byte_prefix_iff(pp: PathV, k: Seq<u8>, v: Seq<u8>, first: bool)
    requires
        parse_path_from(k, v, first) is Some,
        forall|i: int| 0 <= i < pp.len()
            ==> !crate::path::seg_is_leaf(#[trigger] pp[i]) && seg_valid(pp[i]),
        forall|i: int| 0 < i < pp.len() ==> !(#[trigger] pp[i] is Root),
        pp.len() > 0 && pp[0] is Root ==> first,
    ensures
        key_bytes(pp).is_prefix_of(k) <==> pp.is_prefix_of(
            parse_path_from(k, v, first)->Some_0,
        ),
    decreases pp.len(),
{
    let q = parse_path_from(k, v, first)->Some_0;
    lemma_parse_exact_from(k, v, first);
    if pp.len() == 0 {
        assert(key_bytes(pp) =~= Seq::<u8>::empty());
        assert(key_bytes(pp).is_prefix_of(k));
        assert(pp.is_prefix_of(q));
    } else {
        let s0 = pp[0];
        let t = k[0];
        let plen = u16_from(k.subrange(1, 3)) as int;
        let payload = k.subrange(3, 3 + plen);
        let rest = k.skip(6 + plen);
        if t == 1u8 || t == 2u8 || t == 5u8 {
            // the parsed path is a single leaf; a leaf-free prefix of
            // positive length matches neither the bytes nor the segments
            assert(q.len() == 1 && crate::path::seg_is_leaf(q[0]));
            assert(!pp.is_prefix_of(q)) by {
                if pp.is_prefix_of(q) {
                    assert(pp[0] == q[0]);
                }
            }
            assert(!key_bytes(pp).is_prefix_of(k)) by {
                if key_bytes(pp).is_prefix_of(k) {
                    assert(key_bytes(pp) == frame(s0) + key_bytes(pp.drop_first()));
                    assert(key_bytes(pp)[0] == seg_type(s0));
                    assert(k[0] == seg_type(s0));
                }
            }
        } else {
            let q0 = q[0];
            let qrest = parse_path_from(rest, v, false)->Some_0;
            assert(q == seq![q0] + qrest);
            if key_bytes(pp).is_prefix_of(k) {
                // equal leading frames force the same first segment
                let f = frame(s0);
                let pl0 = seg_payload(s0);
                let l0 = pl0.len() as int;
                assert(key_bytes(pp) == f + key_bytes(pp.drop_first()));
                assert(f =~= seq![seg_type(s0)] + u16_bytes(l0 as u16) + pl0 + u16_bytes(
                    l0 as u16,
                ) + seq![seg_type(s0)]);
                assert forall|j: int| 0 <= j < f.len() implies #[trigger] k[j] == f[j] by {
                    assert(key_bytes(pp)[j] == f[j]);
                }
                assert(k[0] == seg_type(s0));
                assert(t == seg_type(s0));
                assert(k.subrange(1, 3) =~= u16_bytes(l0 as u16));
                lemma_u16_roundtrip(l0 as u16);
                assert(plen == l0);
                assert(payload =~= pl0);
                match s0 {
                    SegV::Root(d) => {
                        assert(q0 == SegV::Root(d));
                    },
                    SegV::MapKey(pv) => {
                        lemma_prim_roundtrip(pv);
                        assert(q0 == SegV::MapKey(pv));
                    },
                    SegV::Field(fd) => {
                        assert(q0 == SegV::Field(fd));
                    },
                    _ => {
                        assert(false);
                    },
                }
                assert(q0 == s0);
                assert(key_bytes(pp.drop_first()).is_prefix_of(rest)) by {
                    assert(key_bytes(pp) == f + key_bytes(pp.drop_first()));
                    assert forall|j: int| 0 <= j < key_bytes(pp.drop_first()).len() implies
                        #[trigger] key_bytes(pp.drop_first())[j] == rest[j] by {
                        assert(key_bytes(pp)[f.len() + j] == k[f.len() + j]);
                    }
                }
                assert forall|i: int| 0 <= i < pp.drop_first().len() implies
                    !crate::path::seg_is_leaf(#[trigger] pp.drop_first()[i]) && seg_valid(
                    pp.drop_first()[i],
                ) by {
                    assert(pp.drop_first()[i] == pp[i + 1]);
                }
                assert forall|i: int| 0 < i < pp.drop_first().len() implies !(
                #[trigger] pp.drop_first()[i] is Root) by {
                    assert(pp.drop_first()[i] == pp[i + 1]);
                }
                assert(pp.drop_first().len() > 0 && pp.drop_first()[0] is Root ==> false) by {
                    if pp.drop_first().len() > 0 {
                        assert(pp.drop_first()[0] == pp[1]);
                    }
                }
                lemma_byte_prefix_iff(pp.drop_first(), rest, v, false);
                assert(pp.drop_first().is_prefix_of(qrest));
                assert(pp.is_prefix_of(q)) by {
                    assert forall|j: int| 0 <= j < pp.len() implies #[trigger] pp[j] == q[j] by {
                        if j > 0 {
                            assert(pp.drop_first()[j - 1] == qrest.take(
                                pp.drop_first().len() as int,
                            )[j - 1]);
                            assert(q[j] == qrest[j - 1]);
                        }
                    }
                    assert(pp =~= q.take(pp.len() as int));
                }
            }
            if pp.is_prefix_of(q) {
                lemma_seg_prefix_bytes(pp, q);
                assert(key_bytes(q) == k);
            }
        }
    }
}

fn read_id32(b: &Vec<u8>, start: usize) -> (r: [u8; 32])
    requires
        start + 32 <= b@.len(),
    ensures
        r@ =~= b@.subrange(start as int, start as int + 32),
{
    let n = b.len();
    let r: [u8; 32] = [
        b[start],
        b[start + 1],
        b[start + 2],
        b[start + 3],
        b[start + 4],
        b[start + 5],
        b[start + 6],
        b[start + 7],
        b[start + 8],
        b[start + 9],
        b[start + 10],
        b[start + 11],
        b[start + 12],
        b[start + 13],
        b[start + 14],
        b[start + 15],
        b[start + 16],
        b[start + 17],
        b[start + 18],
        b[start + 19],
        b[start + 20],
        b[start + 21],
        b[start + 22],
        b[start + 23],
        b[start + 24],
        b[start + 25],
        b[start + 26],
        b[start + 27],
        b[start + 28],
        b[start + 29],
        b[start + 30],
        b[start + 31],
    ];
    r
}

fn parse_dot_at(b: &Vec<u8>, start: usize) -> (r: Dot)
    requires
        start + 40 <= b@.len(),
    ensures
        r@ == parse_dot(b@.subrange(start as int, start as int + 40)),
{
    let ghost s = b@.subrange(start as int, start as int + 40);
    let n = b.len();
    let peer = PeerId::new(read_id32(b, start));
    let counter = u64_from_slice(b, start + 32);
    proof {
        assert(s.take(32) =~= b@.subrange(start as int, start as int + 32));
        assert(s.skip(32) =~= b@.subrange(start as int + 32, start as int + 40));
    }
    Dot::new(peer, counter)
}

fn copy_range(b: &Vec<u8>, start: usize, end: usize) -> (r: Vec<u8>)
    requires
        start <= end <= b@.len(),
    ensures
        r@ =~= b@.subrange(start as int, end as int),
{
    let mut r: Vec<u8> = Vec::new();
    let mut i: usize = start;
    while i < end
        invariant
            start <= i <= end <= b@.len(),
            r@ =~= b@.subrange(start as int, i as int),
        decreases end - i,
    {
        r.push(b[i]);
        i += 1;
        proof {
            assert(r@ =~= b@.subrange(start as int, i as int));
        }
    }
    r
}

fn parse_prim_range(b: &Vec<u8>, start: usize, end: usize) -> (r: Option<Primitive>)
    requires
        start <= end <= b@.len(),
    ensures
        match r {
            Some(p) => parse_prim(b@.subrange(start as int, end as int)) == Some(p@),
            None => parse_prim(b@.subrange(start as int, end as int)) is None,
        },
{
    let ghost s = b@.subrange(start as int, end as int);
    let len = end - start;
    if len < 1 {
        return None;
    }
    let t = b[start];
    proof {
        assert(s[0] == t);
    }
    if t == 0u8 {
        if len == 2 && (b[start + 1] == 0u8 || b[start + 1] == 1u8) {
            proof {
                assert(s[1] == b@[start as int + 1]);
            }
            Some(Primitive::Bool(b[start + 1] == 1u8))
        } else {
            proof {
                if len == 2 {
                    assert(s[1] == b@[start as int + 1]);
                }
            }
            None
        }
    } else if t == 1u8 {
        if len == 9 {
            let n = u64_from_slice(b, start + 1);
            proof {
                assert(s.skip(1) =~= b@.subrange(start as int + 1, start as int + 9));
            }
            Some(Primitive::U64(n))
        } else {
            None
        }
    } else if t == 2u8 {
        if len == 9 {
            let n = u64_from_slice(b, start + 1);
            proof {
                assert(s.skip(1) =~= b@.subrange(start as int + 1, start as int + 9));
            }
            Some(Primitive::I64(#[verifier::truncate] (n as i64)))
        } else {
            None
        }
    } else if t == 3u8 {
        let body = copy_range(b, start + 1, end);
        proof {
            assert(s.skip(1) =~= b@.subrange(start as int + 1, end as int));
        }
        Some(Primitive::Str(body))
    } else {
        None
    }
}

fn parse_perm_byte(b: u8) -> (r: Option<Permission>)
    ensures
        r == parse_perm(b),
{
    if b == 0u8 {
        Some(Permission::Read)
    } else if b == 1u8 {
        Some(Permission::Write)
    } else if b == 2u8 {
        Some(Permission::Control)
    } else if b == 3u8 {
        Some(Permission::Own)
    } else {
        None
    }
}

fn parse_actor_range(b: &Vec<u8>, start: usize, end: usize) -> (r: Option<Actor>)
    requires
        start <= end <= b@.len(),
    ensures
        match r {
            Some(a) => parse_actor(b@.subrange(start as int, end as int)) == Some(a@),
            None => parse_actor(b@.subrange(start as int, end as int)) is None,
        },
{
    let ghost s = b@.subrange(start as int, end as int);
    let len = end - start;
    if len == 1 && b[start] == 0u8 {
        proof {
            assert(s[0] == b@[start as int]);
        }
        Some(Actor::Anonymous)
    } else if len == 33 && b[start] == 1u8 {
        proof {
            assert(s[0] == b@[start as int]);
            assert(s.skip(1) =~= b@.subrange(start as int + 1, end as int));
        }
        Some(Actor::Peer(PeerId::new(read_id32(b, start + 1))))
    } else {
        proof {
            if len >= 1 {
                assert(s[0] == b@[start as int]);
            }
        }
        None
    }
}

fn parse_policy_range(b: &Vec<u8>, start: usize, end: usize) -> (r: Option<Policy>)
    requires
        start <= end <= b@.len(),
    ensures
        match r {
            Some(p) => parse_policy(b@.subrange(start as int, end as int)) == Some(p@),
            None => parse_policy(b@.subrange(start as int, end as int)) is None,
        },
{
    let ghost s = b@.subrange(start as int, end as int);
    let len = end - start;
    if len < 1 {
        return None;
    }
    let t = b[start];
    proof {
        assert(s[0] == t);
    }
    if t == 0u8 {
        if len >= 2 {
            proof {
                assert(s[1] == b@[start as int + 1]);
                assert(s.skip(2) =~= b@.subrange(start as int + 2, end as int));
            }
            match (parse_perm_byte(b[start + 1]), parse_actor_range(b, start + 2, end)) {
                (Some(perm), Some(a)) => Some(Policy::Can(a, perm)),
                _ => None,
            }
        } else {
            None
        }
    } else if t == 1u8 {
        if len >= 3 {
            proof {
                assert(s[1] == b@[start as int + 1]);
                assert(s[2] == b@[start as int + 2]);
                assert(s.skip(3) =~= b@.subrange(start as int + 3, end as int));
            }
            match (
                parse_perm_byte(b[start + 1]),
                parse_perm_byte(b[start + 2]),
                parse_actor_range(b, start + 3, end),
            ) {
                (Some(perm), Some(cond), Some(a)) => Some(Policy::CanIf(a, perm, cond)),
                _ => None,
            }
        } else {
            None
        }
    } else if t == 2u8 {
        if len == 41 {
            proof {
                assert(s.skip(1) =~= b@.subrange(start as int + 1, end as int));
            }
            let d = parse_dot_at(b, start + 1);
            Some(Policy::Revokes(d))
        } else {
            None
        }
    } else {
        None
    }
}

fn decode_from(k: &Vec<u8>, pos: usize, v: &Vec<u8>, first: bool) -> (r: Option<
    PathBuf,
>)
    requires
        pos <= k@.len(),
    ensures
        match r {
            Some(p) => parse_path_from(k@.skip(pos as int), v@, first) == Some(p@),
            None => parse_path_from(k@.skip(pos as int), v@, first) is None,
        },
    decreases k@.len() - pos,
{
    let ghost kk = k@.skip(pos as int);
    let n = k.len();
    let rem = n - pos;
    if rem < 6 {
        return None;
    }
    let t = k[pos];
    let plen16: u16 = ((k[pos + 1] as u16) << 8) | (k[pos + 2] as u16);
    proof {
        assert(kk[0] == t);
        assert(kk.subrange(1, 3) =~= seq![k@[pos as int + 1], k@[pos as int + 2]]);
        assert(u16_from(kk.subrange(1, 3)) == plen16);
    }
    let plen: usize = plen16 as usize;
    if rem < 6 + plen {
        return None;
    }
    let ghost payload = kk.subrange(3, 3 + plen as int);
    proof {
        assert(payload =~= k@.subrange(pos as int + 3, pos as int + 3 + plen as int));
    }
    let hi: u8 = #[verifier::truncate] ((plen16 >> 8) as u8);
    let lo: u8 = #[verifier::truncate] (plen16 as u8);
    proof {
        assert(plen as u16 == plen16);
        assert(u16_bytes(plen16) =~= seq![hi, lo]);
        assert(kk.subrange(3 + plen as int, 5 + plen as int) =~= seq![
            k@[pos as int + 3 + plen as int],
            k@[pos as int + 4 + plen as int],
        ]);
    }
    if k[pos + 3 + plen] != hi || k[pos + 4 + plen] != lo {
        proof {
            assert(kk.subrange(3 + plen as int, 5 + plen as int) != u16_bytes(plen as u16));
        }
        return None;
    }
    proof {
        assert(kk.subrange(3 + plen as int, 5 + plen as int) == u16_bytes(plen as u16));
        assert(kk[5 + plen as int] == k@[pos as int + 5 + plen as int]);
    }
    if k[pos + 5 + plen] != t {
        return None;
    }
    let rest_pos = pos + 6 + plen;
    proof {
        assert(kk.skip(6 + plen as int) =~= k@.skip(rest_pos as int));
    }
    let rest_empty = rest_pos == n;
    if t == 1u8 {
        if rest_empty && plen == 40 && v.len() == 0 {
            let d = parse_dot_at(k, pos + 3);
            let mut p = PathBuf::new();
            p.set_leaf(d);
            proof {
                assert(p@ =~= seq![SegV::SetLeaf(d@)]);
            }
            Some(p)
        } else {
            None
        }
    } else if t == 2u8 {
        if rest_empty && plen == 40 {
            let d = parse_dot_at(k, pos + 3);
            match parse_prim_range(v, 0, v.len()) {
                Some(pv) => {
                    let mut p = PathBuf::new();
                    p.fun_leaf(d, pv);
                    proof {
                        assert(v@.subrange(0, v@.len() as int) =~= v@);
                        assert(p@ =~= seq![SegV::FunLeaf(d@, p@[0]->FunLeaf_1)]);
                    }
                    Some(p)
                },
                None => {
                    proof {
                        assert(v@.subrange(0, v@.len() as int) =~= v@);
                    }
                    None
                },
            }
        } else {
            None
        }
    } else if t == 5u8 {
        if rest_empty && plen == 40 {
            let d = parse_dot_at(k, pos + 3);
            match parse_policy_range(v, 0, v.len()) {
                Some(pol) => {
                    let mut p = PathBuf::new();
                    p.policy_leaf(d, pol);
                    proof {
                        assert(v@.subrange(0, v@.len() as int) =~= v@);
                        assert(p@ =~= seq![SegV::PolicyLeaf(d@, pol@)]);
                    }
                    Some(p)
                },
                None => {
                    proof {
                        assert(v@.subrange(0, v@.len() as int) =~= v@);
                    }
                    None
                },
            }
        } else {
            None
        }
    } else if rest_empty {
        None
    } else {
        let seg: Option<Segment> = if t == 0u8 {
            if plen == 32 && first {
                Some(Segment::Root(DocId::new(read_id32(k, pos + 3))))
            } else {
                None
            }
        } else if t == 3u8 {
            match parse_prim_range(k, pos + 3, pos + 3 + plen) {
                Some(pv) => Some(Segment::MapKey(pv)),
                None => None,
            }
        } else if t == 4u8 {
            Some(Segment::Field(copy_range(k, pos + 3, pos + 3 + plen)))
        } else {
            None
        };
        match seg {
            Some(s) => {
                match decode_from(k, rest_pos, v, false) {
                    Some(rest) => {
                        let mut p = PathBuf::new();
                        p.push(s);
                        p.extend(&rest);
                        proof {
                            assert(p@ =~= seq![s@] + rest@);
                        }
                        Some(p)
                    },
                    None => None,
                }
            },
            None => None,
        }
    }
}

/// The path read back from a stored key and value, if they parse.
pub fn decode_entry(k: &Vec<u8>, v: &Vec<u8>) -> (r: Option<PathBuf>)
    ensures
        match r {
            Some(p) => parse_path(k@, v@) == Some(p@),
            None => parse_path(k@, v@) is None,
        },
{
    proof {
        assert(k@.skip(0) =~= k@);
    }
    decode_from(k, 0, v, true)
}

/// Reading 8 bytes and writing them back gives the same bytes.
pub proof fn lemma_u64_from_exact(b: Seq<u8>)
    requires
        b.len() == 8,
    ensures
        u64_bytes(u64_from(b)) == b,
{
    let b0 = b[0];
    let b1 = b[1];
    let b2 = b[2];
    let b3 = b[3];
    let b4 = b[4];
    let b5 = b[5];
    let b6 = b[6];
    let b7 = b[7];
    assert(((((((b0 as u64) << 56) | ((b1 as u64) << 48) | ((b2 as u64) << 40) | ((b3 as u64)
        << 32) | ((b4 as u64) << 24) | ((b5 as u64) << 16) | ((b6 as u64) << 8) | (b7 as u64))
        as u64) >> 56) as u8) == b0) by (bit_vector);
    assert(((((((b0 as u64) << 56) | ((b1 as u64) << 48) | ((b2 as u64) << 40) | ((b3 as u64)
        << 32) | ((b4 as u64) << 24) | ((b5 as u64) << 16) | ((b6 as u64) << 8) | (b7 as u64))
        as u64) >> 48) as u8) == b1) by (bit_vector);
    assert(((((((b0 as u64) << 56) | ((b1 as u64) << 48) | ((b2 as u64) << 40) | ((b3 as u64)
        << 32) | ((b4 as u64) << 24) | ((b5 as u64) << 16) | ((b6 as u64) << 8) | (b7 as u64))
        as u64) >> 40) as u8) == b2) by (bit_vector);
    assert(((((((b0 as u64) << 56) | ((b1 as u64) << 48) | ((b2 as u64) << 40) | ((b3 as u64)
        << 32) | ((b4 as u64) << 24) | ((b5 as u64) << 16) | ((b6 as u64) << 8) | (b7 as u64))
        as u64) >> 32) as u8) == b3) by (bit_vector);
    assert(((((((b0 as u64) << 56) | ((b1 as u64) << 48) | ((b2 as u64) << 40) | ((b3 as u64)
        << 32) | ((b4 as u64) << 24) | ((b5 as u64) << 16) | ((b6 as u64) << 8) | (b7 as u64))
        as u64) >> 24) as u8) == b4) by (bit_vector);
    assert(((((((b0 as u64) << 56) | ((b1 as u64) << 48) | ((b2 as u64) << 40) | ((b3 as u64)
        << 32) | ((b4 as u64) << 24) | ((b5 as u64) << 16) | ((b6 as u64) << 8) | (b7 as u64))
        as u64) >> 16) as u8) == b5) by (bit_vector);
    assert(((((((b0 as u64) << 56) | ((b1 as u64) << 48) | ((b2 as u64) << 40) | ((b3 as u64)
        << 32) | ((b4 as u64) << 24) | ((b5 as u64) << 16) | ((b6 as u64) << 8) | (b7 as u64))
        as u64) >> 8) as u8) == b6) by (bit_vector);
    assert((((((b0 as u64) << 56) | ((b1 as u64) << 48) | ((b2 as u64) << 40) | ((b3 as u64)
        << 32) | ((b4 as u64) << 24) | ((b5 as u64) << 16) | ((b6 as u64) << 8) | (b7 as u64))
        as u64) as u8) == b7) by (bit_vector);
    assert(u64_bytes(u64_from(b)) =~= b);
}

/// Reading 2 bytes and writing them back gives the same bytes.
pub proof fn lemma_u16_from_exact(b: Seq<u8>)
    requires
        b.len() == 2,
    ensures
        u16_bytes(u16_from(b)) == b,
{
    let b0 = b[0];
    let b1 = b[1];
    assert((((((b0 as u16) << 8) | (b1 as u16)) as u16) >> 8) as u8 == b0) by (bit_vector);
    assert(((((b0 as u16) << 8) | (b1 as u16)) as u16) as u8 == b1) by (bit_vector);
    assert(u16_bytes(u16_from(b)) =~= b);
}

pub proof fn lemma_dot_parse_exact(b: Seq<u8>)
    requires
        b.len() == 40,
    ensures
        dot_bytes(parse_dot(b)) == b,
        parse_dot(b).peer.len() == 32,
{
    lemma_u64_from_exact(b.skip(32));
    assert(dot_bytes(parse_dot(b)) =~= b.take(32) + b.skip(32));
    assert(b.take(32) + b.skip(32) =~= b);
}

pub proof fn lemma_prim_parse_exact(b: Seq<u8>)
    requires
        parse_prim(b) is Some,
    ensures
        prim_bytes(parse_prim(b)->Some_0) == b,
{
    let p = parse_prim(b)->Some_0;
    if b[0] == 0u8 {
        assert(prim_bytes(p) =~= b);
    } else if b[0] == 1u8 {
        lemma_u64_from_exact(b.skip(1));
        assert(prim_bytes(p) =~= seq![1u8] + b.skip(1));
        assert(seq![1u8] + b.skip(1) =~= b);
    } else if b[0] == 2u8 {
        let n = u64_from(b.skip(1));
        assert((n as i64) as u64 == n) by (bit_vector);
        lemma_u64_from_exact(b.skip(1));
        assert(prim_bytes(p) =~= seq![2u8] + b.skip(1));
        assert(seq![2u8] + b.skip(1) =~= b);
    } else {
        assert(prim_bytes(p) =~= seq![3u8] + b.skip(1));
        assert(seq![3u8] + b.skip(1) =~= b);
    }
}

pub proof fn lemma_actor_parse_exact(b: Seq<u8>)
    requires
        parse_actor(b) is Some,
    ensures
        actor_bytes(parse_actor(b)->Some_0) == b,
        actor_valid(parse_actor(b)->Some_0),
{
    let a = parse_actor(b)->Some_0;
    if b.len() == 1 {
        assert(actor_bytes(a) =~= b);
    } else {
        assert(actor_bytes(a) =~= seq![1u8] + b.skip(1));
        assert(seq![1u8] + b.skip(1) =~= b);
    }
}

pub proof fn lemma_policy_parse_exact(b: Seq<u8>)
    requires
        parse_policy(b) is Some,
    ensures
        policy_bytes(parse_policy(b)->Some_0) == b,
        policy_valid(parse_policy(b)->Some_0),
{
    let p = parse_policy(b)->Some_0;
    if b[0] == 0u8 {
        lemma_actor_parse_exact(b.skip(2));
        assert(policy_bytes(p) =~= seq![0u8, b[1]] + b.skip(2));
        assert(seq![0u8, b[1]] + b.skip(2) =~= b);
    } else if b[0] == 1u8 {
        lemma_actor_parse_exact(b.skip(3));
        assert(policy_bytes(p) =~= seq![1u8, b[1], b[2]] + b.skip(3));
        assert(seq![1u8, b[1], b[2]] + b.skip(3) =~= b);
    } else {
        lemma_dot_parse_exact(b.skip(1));
        assert(policy_bytes(p) =~= seq![2u8] + b.skip(1));
        assert(seq![2u8] + b.skip(1) =~= b);
    }
}

/// A parsed path is a well-formed leaf path, and re-encoding it gives
/// the stored key and value back.
pub proof fn lemma_parse_exact(k: Seq<u8>, v: Seq<u8>)
    requires
        parse_path(k, v) is Some,
    ensures
        store_path_wf(parse_path(k, v)->Some_0),
        path_valid(parse_path(k, v)->Some_0),
        key_bytes(parse_path(k, v)->Some_0) == k,
        value_bytes(parse_path(k, v)->Some_0) == v,
{
    lemma_parse_exact_from(k, v, true);
}

#[verifier::rlimit(100)]
#[verifier::spinoff_prover]
proof fn lemma_parse_exact_from(k: Seq<u8>, v: Seq<u8>, first: bool)
    requires
        parse_path_from(k, v, first) is Some,
    ensures
        store_path_wf(parse_path_from(k, v, first)->Some_0),
        path_valid(parse_path_from(k, v, first)->Some_0),
        key_bytes(parse_path_from(k, v, first)->Some_0) == k,
        value_bytes(parse_path_from(k, v, first)->Some_0) == v,
        parse_path_from(k, v, first)->Some_0[0] is Root ==> first,
    decreases k.len(),
{
    let p = parse_path_from(k, v, first)->Some_0;
    let t = k[0];
    let plen = u16_from(k.subrange(1, 3)) as int;
    let payload = k.subrange(3, 3 + plen);
    let rest = k.skip(6 + plen);
    lemma_u16_from_exact(k.subrange(1, 3));
    assert(u16_bytes(plen as u16) == k.subrange(1, 3));
    if t == 1u8 || t == 2u8 || t == 5u8 {
        assert(rest.len() == 0);
        assert(k.len() == 6 + plen);
        assert(plen == 40);
        lemma_dot_parse_exact(payload);
        let d = parse_dot(payload);
        let s: SegV = if t == 1u8 {
            SegV::SetLeaf(d)
        } else if t == 2u8 {
            SegV::FunLeaf(d, parse_prim(v)->Some_0)
        } else {
            SegV::PolicyLeaf(d, parse_policy(v)->Some_0)
        };
        assert(p =~= seq![s]);
        assert(seg_payload(s) == payload);
        if t == 2u8 {
            lemma_prim_parse_exact(v);
        }
        if t == 5u8 {
            lemma_policy_parse_exact(v);
        }
        assert(seg_valid(s));
        assert(value_bytes(p) == v);
        let f = frame(s);
        assert(f =~= k) by {
            assert(seg_payload(s).len() as u16 == plen as u16);
            assert(f =~= seq![t] + u16_bytes(plen as u16) + payload + u16_bytes(plen as u16)
                + seq![t]);
            assert(k.subrange(3 + plen, 5 + plen) == u16_bytes(plen as u16));
            let ff = seq![t] + u16_bytes(plen as u16) + payload + u16_bytes(plen as u16)
                + seq![t];
            assert forall|j: int| 0 <= j < k.len() implies #[trigger] ff[j] == k[j] by {
                if 1 <= j < 3 {
                    assert(k.subrange(1, 3)[j - 1] == k[j]);
                } else if 3 <= j < 3 + plen {
                    assert(payload[j - 3] == k[j]);
                } else if 3 + plen <= j < 5 + plen {
                    assert(k.subrange(3 + plen, 5 + plen)[j - 3 - plen] == k[j]);
                }
            }
        }
        assert(p.drop_first() =~= Seq::<SegV>::empty());
        assert(key_bytes(p) =~= f + key_bytes(Seq::<SegV>::empty()));
        assert(f + Seq::<u8>::empty() =~= f);
        assert(key_bytes(p) == k);
    } else {
        assert(rest.len() > 0);
        let q = parse_path_from(rest, v, false)->Some_0;
        lemma_parse_exact_from(rest, v, false);
        let s: SegV = if t == 0u8 {
            SegV::Root(payload)
        } else if t == 3u8 {
            SegV::MapKey(parse_prim(payload)->Some_0)
        } else {
            SegV::Field(payload)
        };
        assert(p =~= seq![s] + q);
        if t == 3u8 {
            lemma_prim_parse_exact(payload);
        }
        assert(seg_payload(s) == payload);
        assert(seg_valid(s));
        assert(store_path_wf(p)) by {
            assert(p.last() == q.last());
            assert(crate::path::seg_is_leaf(p.last()));
            assert forall|i: int| 0 <= i < p.len() - 1 implies !crate::path::seg_is_leaf(
                #[trigger] p[i],
            ) by {
                if i > 0 {
                    assert(p[i] == q[i - 1]);
                }
            }
            assert forall|i: int| 0 < i < p.len() implies !(#[trigger] p[i] is Root) by {
                assert(p[i] == q[i - 1]);
                if i == 1 {
                } else {
                    assert(!(q[i - 1] is Root));
                }
            }
        }
        assert(path_valid(p)) by {
            assert forall|i: int| 0 <= i < p.len() implies seg_valid(#[trigger] p[i]) by {
                if i > 0 {
                    assert(p[i] == q[i - 1]);
                }
            }
        }
        assert(value_bytes(p) == v) by {
            assert(p.last() == q.last());
        }
        let f = frame(s);
        assert(f =~= k.take(6 + plen)) by {
            assert(seg_payload(s).len() as u16 == plen as u16);
            assert(f =~= seq![t] + u16_bytes(plen as u16) + payload + u16_bytes(plen as u16)
                + seq![t]);
            assert(k.subrange(3 + plen, 5 + plen) == u16_bytes(plen as u16));
            let ff = seq![t] + u16_bytes(plen as u16) + payload + u16_bytes(plen as u16)
                + seq![t];
            assert forall|j: int| 0 <= j < 6 + plen implies #[trigger] ff[j] == k.take(
                6 + plen,
            )[j] by {
                if 1 <= j < 3 {
                    assert(k.subrange(1, 3)[j - 1] == k[j]);
                } else if 3 <= j < 3 + plen {
                    assert(payload[j - 3] == k[j]);
                } else if 3 + plen <= j < 5 + plen {
                    assert(k.subrange(3 + plen, 5 + plen)[j - 3 - plen] == k[j]);
                }
            }
        }
        assert(p.drop_first() =~= q);
        assert(key_bytes(p) == frame(p[0]) + key_bytes(p.drop_first()));
        assert(p[0] == s);
        assert(key_bytes(p) == f + rest);
        assert(f + rest =~= k.take(6 + plen) + k.skip(6 + plen));
        assert(k.take(6 + plen) + k.skip(6 + plen) =~= k);
    }
}

/// The dot of a leaf path is readable from the key alone: two paths
/// with the same key carry the same dot.
pub proof fn lemma_key_determines_dot(k: Seq<u8>, v1: Seq<u8>, v2: Seq<u8>)
    requires
        parse_path(k, v1) is Some,
        parse_path(k, v2) is Some,
    ensures
        path_dot(parse_path(k, v1)->Some_0) == path_dot(parse_path(k, v2)->Some_0),
{
    lemma_key_determines_dot_from(k, v1, v2, true);
}

proof fn lemma_key_determines_dot_from(k: Seq<u8>, v1: Seq<u8>, v2: Seq<u8>, first: bool)
    requires
        parse_path_from(k, v1, first) is Some,
        parse_path_from(k, v2, first) is Some,
    ensures
        path_dot(parse_path_from(k, v1, first)->Some_0) == path_dot(
            parse_path_from(k, v2, first)->Some_0,
        ),
    decreases k.len(),
{
    let t = k[0];
    let plen = u16_from(k.subrange(1, 3)) as int;
    let rest = k.skip(6 + plen);
    let p1 = parse_path_from(k, v1, first)->Some_0;
    let p2 = parse_path_from(k, v2, first)->Some_0;
    if t == 1u8 || t == 2u8 || t == 5u8 {
        assert(path_dot(p1) == parse_dot(k.subrange(3, 3 + plen)));
        assert(path_dot(p2) == parse_dot(k.subrange(3, 3 + plen)));
    } else {
        lemma_key_determines_dot_from(rest, v1, v2, false);
        let q1 = parse_path_from(rest, v1, false)->Some_0;
        let q2 = parse_path_from(rest, v2, false)->Some_0;
        assert(p1.last() == q1.last());
        assert(p2.last() == q2.last());
    }
}



} // verus!
