use modular::bridge::{
    register_status, subscribe_status, CallPhase, EventInbox, Take, ForwardGate, InboundCall, Liveness,
    OutboundCall, PollStep, STATUS_ALREADY_EXISTS, STATUS_INVALID_PATTERN, STATUS_OK,
};
use modular::error::{ModuleError, PatternError, RegistryError, SubscribeError};

#[test]
fn outbound_call_completes() {
    let mut c: OutboundCall<u32> = OutboundCall::new();
    assert!(matches!(c.poll(), PollStep::Issue));
    assert!(matches!(c.poll(), PollStep::Pending));
    let step = c.on_callback(Ok(9));
    assert!(step.release && step.wake);
    assert!(matches!(c.poll(), PollStep::Ready(Ok(9))));
    assert_eq!(c.phase(), CallPhase::Completed);
    assert!(matches!(c.poll(), PollStep::Spent));
    assert_eq!(c.abandon(), None);
}

#[test]
fn outbound_call_abandoned_before_callback() {
    let mut c: OutboundCall<u32> = OutboundCall::new();
    assert!(matches!(c.poll(), PollStep::Issue));
    assert_eq!(c.abandon(), Some(ModuleError::Destroyed));
    assert_eq!(c.abandon(), None);
    // the late callback releases the allocation once and wakes nobody
    let late = c.on_callback(Ok(1));
    assert!(late.release && !late.wake);
    let again = c.on_callback(Ok(2));
    assert!(!again.release && !again.wake);
    assert_eq!(c.phase(), CallPhase::Abandoned);
}

#[test]
fn outbound_call_abandoned_unstarted() {
    let mut c: OutboundCall<u32> = OutboundCall::new();
    assert_eq!(c.abandon(), Some(ModuleError::Destroyed));
    assert!(matches!(c.poll(), PollStep::Spent));
    let stray = c.on_callback(Ok(1));
    assert!(!stray.release);
}

#[test]
fn outbound_call_error_outcome() {
    let mut c: OutboundCall<u32> = OutboundCall::new();
    c.poll();
    c.on_callback(Err(ModuleError::UnknownMethod));
    assert!(matches!(c.poll(), PollStep::Ready(Err(ModuleError::UnknownMethod))));
}

#[test]
fn inbound_call_answers_once() {
    let mut c = InboundCall::new();
    assert_eq!(c.complete::<u32>(Ok(4)), Some(Ok(4)));
    assert_eq!(c.abandon(), None);
    let mut d = InboundCall::new();
    assert_eq!(d.abandon(), Some(ModuleError::Destroyed));
    assert_eq!(d.complete::<u32>(Ok(4)), None);
}

#[test]
fn liveness_closes_once() {
    let mut f = Liveness::new();
    assert!(f.is_open());
    assert!(f.close());
    assert!(!f.close());
    assert!(!f.is_open());
}

#[test]
fn forward_gate_latches_closed() {
    let mut g = ForwardGate::new();
    assert!(g.ready(true));
    assert!(!g.ready(false));
    assert!(!g.ready(true));
}

#[test]
fn status_codes() {
    assert_eq!(subscribe_status(&Ok(())), STATUS_OK);
    assert_eq!(
        subscribe_status(&Err(SubscribeError::InvalidPattern(PatternError { position: 0 }))),
        STATUS_INVALID_PATTERN
    );
    assert_eq!(register_status(&Ok(())), 0);
    assert_eq!(register_status(&Err(RegistryError::AlreadyExists)), STATUS_ALREADY_EXISTS);
    assert!(STATUS_INVALID_PATTERN < 0 && STATUS_ALREADY_EXISTS < 0);
}

#[test]
fn inbox_queues_in_order_until_closed() {
    let mut inbox: EventInbox<u32> = EventInbox::new();
    assert!(matches!(inbox.take(), Take::Empty));
    assert!(inbox.deliver(1));
    assert!(inbox.deliver(2));
    assert!(matches!(inbox.take(), Take::Item(1)));
    inbox.close();
    assert!(!inbox.deliver(3));
    assert!(matches!(inbox.take(), Take::Ended));
}
