//! The decisions of the boundary bridge, as state machines: an outbound call
//! that turns a foreign completion callback into an awaited result, an
//! inbound call that owes its foreign caller exactly one callback, the
//! liveness flag that lets either side tear a subscription down exactly once,
//! and the status codes of the calling convention.
use vstd::prelude::*;

use crate::error::{ModuleError, RegistryError, SubscribeError};

verus! {

// ---------------------------------------------------------------------------
// Outbound calls: the host awaits a foreign module.

/// Where an outbound call stands.
#[derive(Debug, Clone, Copy, PartialEq, Eq, Structural)]
pub enum CallPhase {
    /// Not evaluated yet: the foreign call has not been issued.
    Unstarted,
    /// Issued; waiting for the foreign callback.
    Awaiting,
    /// The result was handed to the awaiting computation.
    Completed,
    /// The awaiting computation went away before the result was handed over.
    Abandoned,
}

/// An outbound call as a value.
pub struct CallView<T> {
    pub phase: CallPhase,
    /// The single-writer result slot.
    pub slot: Option<Result<T, ModuleError>>,
    /// Whether the per-call allocation handed to the foreign side is still out
    /// (issued, and its callback not yet fired).
    pub callback_out: bool,
}

/// What can happen to an outbound call.
pub enum CallEvent<T> {
    /// The awaiting computation evaluates the call.
    Poll,
    /// The foreign side fires its completion callback.
    Callback(Result<T, ModuleError>),
    /// The awaiting computation is dropped.
    Abandon,
}

/// What the host must do after one event.
pub struct CallEffects<T> {
    /// Issue the foreign call, handing over a new per-call allocation.
    pub issue: bool,
    /// Release the per-call allocation.
    pub release: bool,
    /// Wake the awaiting computation.
    pub wake: bool,
    /// The outcome the call resolved with at this event, if it did.
    pub resolved: Option<Result<T, ModuleError>>,
}

pub open spec fn no_effects<T>() -> CallEffects<T> {
    CallEffects { issue: false, release: false, wake: false, resolved: None }
}

pub open spec fn call_start<T>() -> CallView<T> {
    CallView { phase: CallPhase::Unstarted, slot: None, callback_out: false }
}

/// One transition of an outbound call.
pub open spec fn call_step<T>(s: CallView<T>, e: CallEvent<T>) -> (CallView<T>, CallEffects<T>) {
    match e {
        CallEvent::Poll => match s.phase {
            CallPhase::Unstarted => (
                CallView { phase: CallPhase::Awaiting, slot: None, callback_out: true },
                CallEffects { issue: true, ..no_effects() },
            ),
            CallPhase::Awaiting => match s.slot {
                Some(o) => (
                    CallView { phase: CallPhase::Completed, slot: None, ..s },
                    CallEffects { resolved: Some(o), ..no_effects() },
                ),
                None => (s, no_effects()),
            },
            _ => (s, no_effects()),
        },
        CallEvent::Callback(o) => {
            if !s.callback_out {
                (s, no_effects())
            } else if s.phase == CallPhase::Awaiting && s.slot is None {
                (
                    CallView { slot: Some(o), callback_out: false, ..s },
                    CallEffects { release: true, wake: true, ..no_effects() },
                )
            } else {
                (
                    CallView { callback_out: false, ..s },
                    CallEffects { release: true, ..no_effects() },
                )
            }
        },
        CallEvent::Abandon => match s.phase {
            CallPhase::Unstarted | CallPhase::Awaiting => (
                CallView { phase: CallPhase::Abandoned, slot: None, ..s },
                CallEffects { resolved: Some(Err(ModuleError::Destroyed)), ..no_effects() },
            ),
            _ => (s, no_effects()),
        },
    }
}

/// The totals of a run of events: issues, releases, and the outcomes resolved.
pub struct CallTally<T> {
    pub issued: nat,
    pub released: nat,
    pub resolved: Seq<Result<T, ModuleError>>,
}

pub open spec fn tally_add<T>(t: CallTally<T>, e: CallEffects<T>) -> CallTally<T> {
    CallTally {
        issued: t.issued + if e.issue {
            1nat
        } else {
            0nat
        },
        released: t.released + if e.release {
            1nat
        } else {
            0nat
        },
        resolved: match e.resolved {
            Some(o) => t.resolved.push(o),
            None => t.resolved,
        },
    }
}

/// A fresh outbound call taken through `evs`, with the totals of its effects.
pub open spec fn call_run<T>(evs: Seq<CallEvent<T>>) -> (CallView<T>, CallTally<T>)
    decreases evs.len(),
{
    if evs.len() == 0 {
        (call_start(), CallTally { issued: 0, released: 0, resolved: Seq::empty() })
    } else {
        let (s, t) = call_run(evs.drop_last());
        let (s2, e) = call_step(s, evs.last());
        (s2, tally_add(t, e))
    }
}

/// What a poll tells the awaiting computation.
pub enum PollStep<T> {
    /// Issue the foreign call now, then wait to be woken.
    Issue,
    /// Keep waiting.
    Pending,
    /// The call is over, with this outcome.
    Ready(Result<T, ModuleError>),
    /// The call was already over.
    Spent,
}

/// What a foreign callback must do.
#[derive(Debug, Clone, Copy, PartialEq, Eq, Structural)]
pub struct CallbackStep {
    pub release: bool,
    pub wake: bool,
}

/// An outbound call: the three-state bridge from a foreign callback to an
/// awaited result.
pub struct OutboundCall<T> {
    phase: CallPhase,
    slot: Option<Result<T, ModuleError>>,
    callback_out: bool,
}

impl<T> View for OutboundCall<T> {
    type V = CallView<T>;

    closed spec fn view(&self) -> CallView<T> {
        CallView { phase: self.phase, slot: self.slot, callback_out: self.callback_out }
    }
}

impl<T> OutboundCall<T> {
    pub fn new() -> (r: Self)
        ensures
            r@ == call_start::<T>(),
    {
        OutboundCall { phase: CallPhase::Unstarted, slot: None, callback_out: false }
    }

    pub fn phase(&self) -> (r: CallPhase)
        ensures
            r == self@.phase,
    {
        self.phase
    }

    /// The awaiting computation evaluates the call.
    pub fn poll(&mut self) -> (r: PollStep<T>)
        ensures
            ({
                let (s, e) = call_step(old(self)@, CallEvent::Poll);
                &&& final(self)@ == s
                &&& (r is Issue) == e.issue
                &&& match r {
                    PollStep::Ready(o) => e.resolved == Some(o),
                    PollStep::Spent => e.resolved is None && (old(self)@.phase == CallPhase::Completed
                        || old(self)@.phase == CallPhase::Abandoned),
                    _ => e.resolved is None,
                }
                &&& (old(self)@.phase == CallPhase::Completed || old(self)@.phase
                    == CallPhase::Abandoned) ==> r is Spent
            }),
    {
        match self.phase {
            CallPhase::Unstarted => {
                self.phase = CallPhase::Awaiting;
                self.slot = None;
                self.callback_out = true;
                PollStep::Issue
            },
            CallPhase::Awaiting => {
                let taken = self.slot.take();
                match taken {
                    Some(o) => {
                        self.phase = CallPhase::Completed;
                        PollStep::Ready(o)
                    },
                    None => PollStep::Pending,
                }
            },
            _ => PollStep::Spent,
        }
    }

    /// The foreign side fires its completion callback with `outcome`. A
    /// callback that finds nothing outstanding changes nothing.
    pub fn on_callback(&mut self, outcome: Result<T, ModuleError>) -> (r: CallbackStep)
        ensures
            ({
                let (s, e) = call_step(old(self)@, CallEvent::Callback(outcome));
                &&& final(self)@ == s
                &&& r.release == e.release
                &&& r.wake == e.wake
            }),
    {
        if !self.callback_out {
            return CallbackStep { release: false, wake: false };
        }
        self.callback_out = false;
        let waiting = match self.phase {
            CallPhase::Awaiting => self.slot.is_none(),
            _ => false,
        };
        if waiting {
            self.slot = Some(outcome);
            CallbackStep { release: true, wake: true }
        } else {
            CallbackStep { release: true, wake: false }
        }
    }

    /// The awaiting computation is dropped: a call not yet over resolves with
    /// `Destroyed` here.
    pub fn abandon(&mut self) -> (r: Option<ModuleError>)
        ensures
            ({
                let (s, e) = call_step(old(self)@, CallEvent::<T>::Abandon);
                &&& final(self)@ == s
                &&& match r {
                    Some(err) => e.resolved == Some(Err::<T, ModuleError>(err)),
                    None => e.resolved is None,
                }
            }),
    {
        match self.phase {
            CallPhase::Unstarted | CallPhase::Awaiting => {
                self.phase = CallPhase::Abandoned;
                self.slot = None;
                Some(ModuleError::Destroyed)
            },
            _ => None,
        }
    }
}

/// What holds after every run of an outbound call.
pub open spec fn call_run_inv<T>(s: CallView<T>, t: CallTally<T>) -> bool {
    &&& t.resolved.len() <= 1
    &&& (t.resolved.len() == 1) == (s.phase == CallPhase::Completed || s.phase
        == CallPhase::Abandoned)
    &&& t.issued <= 1
    &&& s.phase == CallPhase::Unstarted ==> t.issued == 0
    &&& (s.phase == CallPhase::Awaiting || s.phase == CallPhase::Completed) ==> t.issued == 1
    &&& t.released + (if s.callback_out {
        1nat
    } else {
        0nat
    }) == t.issued
    &&& s.slot is Some ==> s.phase == CallPhase::Awaiting && !s.callback_out
    &&& s.phase == CallPhase::Completed ==> !s.callback_out
    &&& s.phase == CallPhase::Awaiting && s.slot is None ==> s.callback_out
    &&& s.phase == CallPhase::Abandoned ==> t.resolved == seq![Err::<T, ModuleError>(ModuleError::Destroyed)]
}

proof fn lemma_call_run_inv<T>(evs: Seq<CallEvent<T>>)
    ensures
        call_run_inv(call_run(evs).0, call_run(evs).1),
    decreases evs.len(),
{
    if evs.len() > 0 {
        lemma_call_run_inv(evs.drop_last());
        let (s, t) = call_run(evs.drop_last());
        let (s2, e) = call_step(s, evs.last());
        let t2 = tally_add(t, e);
        match evs.last() {
            CallEvent::Poll => {
                assert(call_run_inv(s2, t2));
            },
            CallEvent::Callback(o) => {
                assert(call_run_inv(s2, t2));
            },
            CallEvent::Abandon => {
                if s.phase == CallPhase::Unstarted || s.phase == CallPhase::Awaiting {
                    assert(t2.resolved =~= seq![Err::<T, ModuleError>(ModuleError::Destroyed)]);
                }
                assert(call_run_inv(s2, t2));
            },
        }
    }
}

/// Once a run has reached `Abandoned`, no later event changes the outcome.
proof fn lemma_abandoned_stays<T>(evs: Seq<CallEvent<T>>, a: int)
    requires
        0 <= a <= evs.len(),
        call_run(evs.take(a)).0.phase == CallPhase::Abandoned,
    ensures
        call_run(evs).0.phase == CallPhase::Abandoned,
        call_run(evs).1.resolved == call_run(evs.take(a)).1.resolved,
    decreases evs.len() - a,
{
    if a < evs.len() {
        assert(evs.take(a + 1).drop_last() =~= evs.take(a));
        lemma_call_run_inv(evs.take(a));
        lemma_abandoned_stays(evs, a + 1);
    } else {
        assert(evs.take(a) =~= evs);
    }
}

/// Before any callback, a run has no outcome in its slot.
proof fn lemma_no_callback_no_slot<T>(evs: Seq<CallEvent<T>>)
    requires
        forall|j: int| 0 <= j < evs.len() ==> !(#[trigger] evs[j] is Callback),
    ensures
        call_run(evs).0.slot is None,
        call_run(evs).0.phase != CallPhase::Completed,
    decreases evs.len(),
{
    if evs.len() > 0 {
        let p = evs.drop_last();
        assert forall|j: int| 0 <= j < p.len() implies !(#[trigger] p[j] is Callback) by {
            assert(p[j] == evs[j]);
        }
        lemma_no_callback_no_slot(p);
        assert(!(evs[evs.len() - 1] is Callback));
    }
}

/// Whatever happens to an outbound call, it resolves at most once, issues at
/// most one foreign call, and releases the per-call allocation at most once:
/// exactly once as soon as the callback has fired. A call abandoned before
/// its callback fires resolves exactly once, with `Destroyed`.
pub proof fn lemma_outbound_call_resolves_once<T>(evs: Seq<CallEvent<T>>, a: int)
    ensures
        ({
            let (s, t) = call_run(evs);
            &&& t.resolved.len() <= 1
            &&& t.issued <= 1
            &&& t.released <= t.issued
            &&& !s.callback_out ==> t.released == t.issued
        }),
        0 <= a < evs.len() && evs[a] is Abandon && (forall|j: int|
            0 <= j < a ==> !(#[trigger] evs[j] is Callback)) ==> ({
            let (s, t) = call_run(evs);
            &&& s.phase == CallPhase::Abandoned
            &&& t.resolved == seq![Err::<T, ModuleError>(ModuleError::Destroyed)]
        }),
{
    lemma_call_run_inv(evs);
    if 0 <= a < evs.len() && evs[a] is Abandon && (forall|j: int|
        0 <= j < a ==> !(#[trigger] evs[j] is Callback)) {
        let pre = evs.take(a);
        assert forall|j: int| 0 <= j < pre.len() implies !(#[trigger] pre[j] is Callback) by {
            assert(pre[j] == evs[j]);
        }
        lemma_no_callback_no_slot(pre);
        lemma_call_run_inv(pre);
        assert(evs.take(a + 1).drop_last() =~= pre);
        assert(evs.take(a + 1).last() == evs[a]);
        lemma_call_run_inv(evs.take(a + 1));
        lemma_abandoned_stays(evs, a + 1);
    }
}

// ---------------------------------------------------------------------------
// Inbound calls: a foreign caller awaits a host handler.

/// An inbound call owes its foreign caller exactly one of the four callbacks:
/// the handler's outcome when it completes, or `Destroyed` when the scheduled
/// work is abandoned first.
pub struct InboundCall {
    answered: bool,
}

impl View for InboundCall {
    type V = bool;

    /// Whether the caller's callback has been fired.
    closed spec fn view(&self) -> bool {
        self.answered
    }
}

impl InboundCall {
    pub fn new() -> (r: Self)
        ensures
            !r@,
    {
        InboundCall { answered: false }
    }

    /// The handler completed with `outcome`: the callback to fire, if still owed.
    pub fn complete<T>(&mut self, outcome: Result<T, ModuleError>) -> (r: Option<
        Result<T, ModuleError>,
    >)
        ensures
            final(self)@,
            r == if old(self)@ {
                None
            } else {
                Some(outcome)
            },
    {
        if self.answered {
            None
        } else {
            self.answered = true;
            Some(outcome)
        }
    }

    /// The scheduled work was dropped: `Destroyed`, if a callback is still owed.
    pub fn abandon(&mut self) -> (r: Option<ModuleError>)
        ensures
            final(self)@,
            r == if old(self)@ {
                None
            } else {
                Some(ModuleError::Destroyed)
            },
    {
        if self.answered {
            None
        } else {
            self.answered = true;
            Some(ModuleError::Destroyed)
        }
    }
}

/// What can happen to an inbound call.
pub enum InboundEvent<T> {
    /// The handler completed with this outcome.
    Complete(Result<T, ModuleError>),
    /// The scheduled work was dropped before it completed.
    Abandon,
}

/// The callbacks fired, in order, when the events `evs` reach an inbound call
/// that has (`answered`) or has not yet fired one.
pub open spec fn inbound_fired<T>(answered: bool, evs: Seq<InboundEvent<T>>) -> Seq<
    Result<T, ModuleError>,
>
    decreases evs.len(),
{
    if evs.len() == 0 {
        Seq::empty()
    } else {
        let first = if answered {
            Seq::empty()
        } else {
            match evs[0] {
                InboundEvent::Complete(o) => seq![o],
                InboundEvent::Abandon => seq![Err(ModuleError::Destroyed)],
            }
        };
        first + inbound_fired(true, evs.drop_first())
    }
}

/// Whatever mix of completion and abandonment reaches an inbound call, its
/// foreign caller gets exactly one callback: the first event's, which is
/// `Destroyed` when the work was abandoned first.
pub proof fn lemma_inbound_answers_once<T>(evs: Seq<InboundEvent<T>>)
    requires
        evs.len() > 0,
    ensures
        inbound_fired(false, evs).len() == 1,
        evs[0] is Abandon ==> inbound_fired(false, evs)[0] == Err::<T, ModuleError>(
            ModuleError::Destroyed,
        ),
        evs[0] matches InboundEvent::Complete(o) ==> inbound_fired(false, evs)[0] == o,
{
    lemma_answered_fires_nothing(evs.drop_first());
}

proof fn lemma_answered_fires_nothing<T>(evs: Seq<InboundEvent<T>>)
    ensures
        inbound_fired(true, evs).len() == 0,
    decreases evs.len(),
{
    if evs.len() > 0 {
        lemma_answered_fires_nothing(evs.drop_first());
    }
}

// ---------------------------------------------------------------------------
// Subscriptions across the boundary.

/// The liveness flag that a cross-boundary subscription shares between the
/// forwarding side and an explicit unsubscribe from either side. It goes from
/// open to closed once; the party that closes it runs the one-time cleanup.
pub struct Liveness {
    open: bool,
}

impl View for Liveness {
    type V = bool;

    /// Whether the subscription is still open.
    closed spec fn view(&self) -> bool {
        self.open
    }
}

/// How many of `n` successive `close` calls perform the transition, on a
/// flag that starts out `open`.
pub open spec fn closes_performed(open: bool, n: nat) -> nat
    decreases n,
{
    if n == 0 {
        0
    } else {
        (if open {
            1nat
        } else {
            0nat
        }) + closes_performed(false, (n - 1) as nat)
    }
}

impl Liveness {
    pub fn new() -> (r: Self)
        ensures
            r@,
    {
        Liveness { open: true }
    }

    pub fn is_open(&self) -> (r: bool)
        ensures
            r == self@,
    {
        self.open
    }

    /// Closes the flag: `true` exactly when this call made the transition,
    /// in which case the caller runs the cleanup; a later call is a no-op.
    pub fn close(&mut self) -> (r: bool)
        ensures
            r == old(self)@,
            !final(self)@,
    {
        let was = self.open;
        self.open = false;
        was
    }
}

/// However many parties try to close one subscription, and in whatever order,
/// the cleanup runs exactly once: the first `close` performs the transition
/// and every later one is a no-op.
pub proof fn lemma_close_exactly_once(open: bool, n: nat)
    ensures
        closes_performed(open, n) == if open && n > 0 {
            1nat
        } else {
            0nat
        },
    decreases n,
{
    if n > 0 {
        lemma_close_exactly_once(false, (n - 1) as nat);
    }
}

/// The forwarding side's view of a subscription: it remembers that it has
/// seen the flag closed, so that it never delivers again.
pub struct ForwardGate {
    closed: bool,
}

impl View for ForwardGate {
    type V = bool;

    /// Whether the forwarding side has seen the subscription closed.
    closed spec fn view(&self) -> bool {
        self.closed
    }
}

impl ForwardGate {
    pub fn new() -> (r: Self)
        ensures
            !r@,
    {
        ForwardGate { closed: false }
    }

    /// Whether the next event may be delivered, given the shared flag's state.
    /// Once it has answered `false`, it answers `false` for good.
    pub fn ready(&mut self, flag_open: bool) -> (r: bool)
        ensures
            r == (!old(self)@ && flag_open),
            final(self)@ == !r,
    {
        if self.closed {
            return false;
        }
        if !flag_open {
            self.closed = true;
            return false;
        }
        true
    }
}

/// The subscriber's end of a subscription served from across the boundary:
/// events queue up in arrival order until the subscriber takes them, and once
/// the subscription is torn down nothing more is queued or handed out.
#[verifier::reject_recursive_types(T)]
pub struct EventInbox<T> {
    queue: std::collections::VecDeque<T>,
    open: bool,
}

/// An inbox as a value: the events waiting, oldest first, and whether the
/// subscription is still open.
pub struct InboxView<T> {
    pub queue: Seq<T>,
    pub open: bool,
}

/// What taking from an inbox gives.
pub enum Take<T> {
    /// The oldest waiting event.
    Item(T),
    /// Nothing waiting yet: wait to be woken.
    Empty,
    /// The subscription is over.
    Ended,
}

impl<T> View for EventInbox<T> {
    type V = InboxView<T>;

    closed spec fn view(&self) -> InboxView<T> {
        InboxView { queue: self.queue@, open: self.open }
    }
}

impl<T> EventInbox<T> {
    pub fn new() -> (r: Self)
        ensures
            r@.open,
            r@.queue == Seq::<T>::empty(),
    {
        EventInbox { queue: std::collections::VecDeque::new(), open: true }
    }

    /// An event arrives: queued while the subscription is open, dropped after.
    /// Returns whether it was queued.
    pub fn deliver(&mut self, item: T) -> (r: bool)
        ensures
            r == old(self)@.open,
            final(self)@.open == old(self)@.open,
            final(self)@.queue == if old(self)@.open {
                old(self)@.queue.push(item)
            } else {
                old(self)@.queue
            },
    {
        if self.open {
            self.queue.push_back(item);
            true
        } else {
            false
        }
    }

    /// The subscription is torn down: waiting events are dropped.
    pub fn close(&mut self)
        ensures
            !final(self)@.open,
            final(self)@.queue == Seq::<T>::empty(),
    {
        self.open = false;
        self.queue = std::collections::VecDeque::new();
    }

    /// Takes the oldest waiting event.
    pub fn take(&mut self) -> (r: Take<T>)
        ensures
            final(self)@.open == old(self)@.open,
            !old(self)@.open ==> r is Ended && final(self)@ == old(self)@,
            old(self)@.open && old(self)@.queue.len() == 0 ==> r is Empty && final(self)@
                == old(self)@,
            old(self)@.open && old(self)@.queue.len() > 0 ==> r == Take::Item(old(self)@.queue[0])
                && final(self)@.queue == old(self)@.queue.drop_first(),
    {
        if !self.open {
            return Take::Ended;
        }
        match self.queue.pop_front() {
            Some(item) => Take::Item(item),
            None => Take::Empty,
        }
    }
}

// ---------------------------------------------------------------------------
// Status codes of the calling convention.

pub const STATUS_OK: i32 = 0;

/// A required text argument (a topic or a name) arrived as a null pointer.
pub const STATUS_NULL_TEXT: i32 = 1;

pub const STATUS_INVALID_PATTERN: i32 = -1;

pub const STATUS_ALREADY_EXISTS: i32 = -1;

/// The status that `subscribe` reports across the boundary.
pub fn subscribe_status(r: &Result<(), SubscribeError>) -> (code: i32)
    ensures
        code == match r {
            Ok(()) => STATUS_OK,
            Err(SubscribeError::InvalidPattern(_)) => STATUS_INVALID_PATTERN,
        },
{
    match r {
        Ok(()) => STATUS_OK,
        Err(SubscribeError::InvalidPattern(_)) => STATUS_INVALID_PATTERN,
    }
}

/// The status that `register_module` reports across the boundary.
pub fn register_status(r: &Result<(), RegistryError>) -> (code: i32)
    ensures
        code == match r {
            Ok(()) => STATUS_OK,
            Err(RegistryError::AlreadyExists) => STATUS_ALREADY_EXISTS,
        },
{
    match r {
        Ok(()) => STATUS_OK,
        Err(RegistryError::AlreadyExists) => STATUS_ALREADY_EXISTS,
    }
}

} // verus!
