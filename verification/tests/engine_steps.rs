//! The synchronization automaton's transition table.

use tlfs_crdt::causal::{Causal, CausalContext};
use tlfs_crdt::dots::DotSet;
use tlfs_crdt::engine::{sync_step, SyncAction, SyncEvent, SyncState};
use tlfs_crdt::store::DotStore;

fn empty_causal() -> Causal {
    Causal::from_parts(DotStore::new(), DotSet::new())
}

#[test]
fn subscribe_advertises_context() {
    let (s, a) = sync_step(SyncState::Unsubscribed, SyncEvent::Subscribe);
    assert_eq!(s, SyncState::AwaitingDelta);
    assert!(matches!(a, SyncAction::SendContext));
}

#[test]
fn incoming_context_is_answered_with_unjoin() {
    let (s, a) = sync_step(
        SyncState::AwaitingDelta,
        SyncEvent::RecvContext(CausalContext::new()),
    );
    assert_eq!(s, SyncState::AwaitingDelta);
    assert!(matches!(a, SyncAction::SendUnjoin(_)));
}

#[test]
fn incoming_delta_is_applied_and_gossiped() {
    let (s, a) = sync_step(SyncState::AwaitingDelta, SyncEvent::RecvDelta(empty_causal()));
    assert_eq!(s, SyncState::AwaitingDelta);
    assert!(matches!(a, SyncAction::ApplyAndGossip(_)));
}

#[test]
fn local_mutation_is_broadcast_in_any_state() {
    let (s, a) = sync_step(
        SyncState::Unsubscribed,
        SyncEvent::LocalMutation(empty_causal()),
    );
    assert_eq!(s, SyncState::Unsubscribed);
    assert!(matches!(a, SyncAction::ApplyAndBroadcast(_)));
    let (s, a) = sync_step(
        SyncState::AwaitingDelta,
        SyncEvent::LocalMutation(empty_causal()),
    );
    assert_eq!(s, SyncState::AwaitingDelta);
    assert!(matches!(a, SyncAction::ApplyAndBroadcast(_)));
}

#[test]
fn frames_are_dropped_while_unsubscribed() {
    let (s, a) = sync_step(
        SyncState::Unsubscribed,
        SyncEvent::RecvContext(CausalContext::new()),
    );
    assert_eq!(s, SyncState::Unsubscribed);
    assert!(matches!(a, SyncAction::Ignore));
    let (s, a) = sync_step(SyncState::Unsubscribed, SyncEvent::RecvDelta(empty_causal()));
    assert_eq!(s, SyncState::Unsubscribed);
    assert!(matches!(a, SyncAction::Ignore));
}
