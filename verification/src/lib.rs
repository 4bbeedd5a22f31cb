//! A local-first replicated store built on delta-based, causally
//! consistent CRDTs: a typed document tree of flags, registers, maps
//! and records, a path codec for its flat byte-keyed persistence, an
//! authorization layer of policy statements, and the join / unjoin
//! algebra that lets replicas converge by exchanging small deltas.

use vstd::prelude::*;

pub mod acl;
pub mod causal;
pub mod codec;
pub mod crdt;
pub mod dots;
pub mod engine;
pub mod error;
pub mod kv;
pub mod path;
pub mod store;

verus! {

} // verus!
