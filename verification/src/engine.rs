use vstd::prelude::*;

use crate::causal::{Causal, CausalContext, CausalV, CtxV};

verus! {

/// The state of one subscription of a document at a remote peer.
#[derive(Clone, Copy, Debug, PartialEq, Eq, Structural)]
pub enum SyncState {
    /// No interest registered yet.
    Unsubscribed,
    /// Our context has been advertised; deltas flow in both directions.
    AwaitingDelta,
}

/// What the outside world hands the automaton.
pub enum SyncEvent {
    /// The local application subscribes to the document.
    Subscribe,
    /// The remote peer advertised its causal context.
    RecvContext(CausalContext),
    /// The remote peer sent a delta.
    RecvDelta(Causal),
    /// The local application produced a delta.
    LocalMutation(Causal),
}

/// What the caller must do next: the automaton decides, the caller
/// performs the sends and joins.
pub enum SyncAction {
    /// Send our causal context to the peer.
    SendContext,
    /// Answer the received context with the delta it lacks: compute the
    /// unjoin against it and send the result.
    SendUnjoin(CausalContext),
    /// Join the received delta into the store, then forward it to the
    /// other subscribers of the document.
    ApplyAndGossip(Causal),
    /// Join the local delta into the store, then broadcast it to every
    /// subscriber of the document.
    ApplyAndBroadcast(Causal),
    /// Drop the event: it arrived while unsubscribed.
    Ignore,
}

/// Mathematical value of an event.
pub ghost enum SyncEventV {
    Subscribe,
    RecvContext(CtxV),
    RecvDelta(CausalV),
    LocalMutation(CausalV),
}

/// Mathematical value of an action.
pub ghost enum SyncActionV {
    SendContext,
    SendUnjoin(CtxV),
    ApplyAndGossip(CausalV),
    ApplyAndBroadcast(CausalV),
    Ignore,
}

impl View for SyncEvent {
    type V = SyncEventV;

    open spec fn view(&self) -> SyncEventV {
        match self {
            SyncEvent::Subscribe => SyncEventV::Subscribe,
            SyncEvent::RecvContext(c) => SyncEventV::RecvContext(c@),
            SyncEvent::RecvDelta(c) => SyncEventV::RecvDelta(c@),
            SyncEvent::LocalMutation(c) => SyncEventV::LocalMutation(c@),
        }
    }
}

impl View for SyncAction {
    type V = SyncActionV;

    open spec fn view(&self) -> SyncActionV {
        match self {
            SyncAction::SendContext => SyncActionV::SendContext,
            SyncAction::SendUnjoin(c) => SyncActionV::SendUnjoin(c@),
            SyncAction::ApplyAndGossip(c) => SyncActionV::ApplyAndGossip(c@),
            SyncAction::ApplyAndBroadcast(c) => SyncActionV::ApplyAndBroadcast(c@),
            SyncAction::Ignore => SyncActionV::Ignore,
        }
    }
}

/// The transition table of the automaton.
pub open spec fn sync_step_spec(s: SyncState, e: SyncEventV) -> (SyncState, SyncActionV) {
    match e {
        SyncEventV::Subscribe => (SyncState::AwaitingDelta, SyncActionV::SendContext),
        SyncEventV::RecvContext(c) => if s == SyncState::AwaitingDelta {
            (SyncState::AwaitingDelta, SyncActionV::SendUnjoin(c))
        } else {
            (SyncState::Unsubscribed, SyncActionV::Ignore)
        },
        SyncEventV::RecvDelta(c) => if s == SyncState::AwaitingDelta {
            (SyncState::AwaitingDelta, SyncActionV::ApplyAndGossip(c))
        } else {
            (SyncState::Unsubscribed, SyncActionV::Ignore)
        },
        SyncEventV::LocalMutation(c) => (s, SyncActionV::ApplyAndBroadcast(c)),
    }
}

/// One reactive step of the synchronization automaton: from the current
/// state and an event, the next state and the action the caller owes.
pub fn sync_step(s: SyncState, e: SyncEvent) -> (r: (SyncState, SyncAction))
    ensures
        r.0 == sync_step_spec(s, e@).0,
        r.1@ == sync_step_spec(s, e@).1,
{
    match e {
        SyncEvent::Subscribe => (SyncState::AwaitingDelta, SyncAction::SendContext),
        SyncEvent::RecvContext(c) => {
            if s == SyncState::AwaitingDelta {
                (SyncState::AwaitingDelta, SyncAction::SendUnjoin(c))
            } else {
                (SyncState::Unsubscribed, SyncAction::Ignore)
            }
        },
        SyncEvent::RecvDelta(c) => {
            if s == SyncState::AwaitingDelta {
                (SyncState::AwaitingDelta, SyncAction::ApplyAndGossip(c))
            } else {
                (SyncState::Unsubscribed, SyncAction::Ignore)
            }
        },
        SyncEvent::LocalMutation(c) => (s, SyncAction::ApplyAndBroadcast(c)),
    }
}

} // verus!
