//! The host's facade: the module registry and the event bus behind one value,
//! with the reserved namespace filtered out at publish.
use vstd::prelude::*;

use bytes::Bytes;
use tokio::sync::mpsc::UnboundedReceiver;

use crate::error::{ModuleError, RegistryError, SubscribeError};
use crate::events::{count_matching, retain_view, EventsManager, Publication};
use crate::pattern::{matches_view, parse_view, Pattern, PatternView};
use crate::registry::{
    begin_view, end_view, lookup_view, register_view, remove_view, replace_view, resolve_view,
    Admission, ModuleHandle, ModulesRegistry, RegistryView,
};

verus! {

/// The `bytes` crate's `Bytes`, an event payload, carried through as an
/// opaque value.
#[verifier::external_type_specification]
#[verifier::external_body]
pub struct ExBytes(Bytes);

/// The prefix of the reserved namespace.
pub open spec fn reserved_prefix() -> Seq<char> {
    seq!['$', '.', 's', 'y', 's', '.']
}

/// Whether a topic lies in the reserved namespace, which publish drops.
pub open spec fn is_reserved(topic: Seq<char>) -> bool {
    topic.len() >= 6 && topic.take(6) == reserved_prefix()
}

/// Whether `topic` begins with `$.sys.`.
pub fn is_reserved_topic(topic: &str) -> (r: bool)
    ensures
        r == is_reserved(topic@),
{
    let chars = crate::pattern::chars_of(topic);
    if chars.len() < 6 {
        return false;
    }
    let r = chars[0] == '$' && chars[1] == '.' && chars[2] == 's' && chars[3] == 'y' && chars[4]
        == 's' && chars[5] == '.';
    proof {
        if r {
            assert(topic@.take(6) =~= reserved_prefix());
        } else if topic@.take(6) == reserved_prefix() {
            assert(topic@.take(6)[0] == '$');
        }
    }
    r
}

/// The host: modules by name, and subscriptions by pattern.
#[verifier::reject_recursive_types(H)]
pub struct Modular<H> {
    modules: ModulesRegistry<H>,
    events: EventsManager<Bytes>,
}

/// The host as a value.
pub struct ModularView<H> {
    pub modules: RegistryView<H>,
    pub subscriptions: Seq<PatternView>,
}

impl<H> View for Modular<H> {
    type V = ModularView<H>;

    closed spec fn view(&self) -> ModularView<H> {
        ModularView { modules: self.modules@, subscriptions: self.events@ }
    }
}

impl<H> Default for Modular<H> {
    fn default() -> (r: Self)
        ensures
            r.wf(),
            r@.modules.modules == Map::<Seq<char>, crate::registry::EntryView<H>>::empty(),
            r@.modules.next_slot == 0,
            r@.subscriptions == Seq::<PatternView>::empty(),
    {
        Self::new()
    }
}

impl<H> Modular<H> {
    pub closed spec fn wf(&self) -> bool {
        self.modules.wf()
    }

    pub fn new() -> (r: Self)
        ensures
            r.wf(),
            r@.modules.modules == Map::<Seq<char>, crate::registry::EntryView<H>>::empty(),
            r@.modules.next_slot == 0,
            r@.subscriptions == Seq::<PatternView>::empty(),
    {
        Modular { modules: ModulesRegistry::new(), events: EventsManager::new() }
    }

    /// Whether another module name can still be registered.
    pub fn can_register(&self) -> (r: bool)
        ensures
            r == (self@.modules.next_slot < u64::MAX),
    {
        self.modules.can_issue_slot()
    }

    /// Subscribes to `topic`, a pattern: the receiving half of the new
    /// subscription's queue, or `InvalidPattern`, with nothing changed, when
    /// the text is not a pattern.
    pub fn subscribe(&mut self, topic: &str) -> (r: Result<
        UnboundedReceiver<(String, Bytes)>,
        SubscribeError,
    >)
        ensures
            final(self).wf() == old(self).wf(),
            final(self)@.modules == old(self)@.modules,
            match r {
                Ok(_) => match parse_view(topic@) {
                    Ok(p) => final(self)@.subscriptions == old(self)@.subscriptions.push(p),
                    Err(_) => false,
                },
                Err(SubscribeError::InvalidPattern(e)) => parse_view(topic@) == Err::<
                    PatternView,
                    nat,
                >(e.position as nat) && final(self)@.subscriptions == old(self)@.subscriptions,
            },
    {
        match Pattern::parse(topic) {
            Ok(p) => Ok(self.events.subscribe(p)),
            Err(e) => Err(SubscribeError::InvalidPattern(e)),
        }
    }

    /// Publishes `payload` under `topic`. A topic in the reserved namespace
    /// reaches no subscriber at all; any other is offered to every
    /// subscription whose pattern matches it. Reports how many queues were
    /// offered the event and which subscriptions stay: those whose consumer
    /// is gone are dropped.
    pub fn publish(&mut self, topic: &str, payload: &Bytes) -> (r: Publication)
        ensures
            final(self).wf() == old(self).wf(),
            final(self)@.modules == old(self)@.modules,
            r.kept@.len() == old(self)@.subscriptions.len(),
            is_reserved(topic@) ==> r.offered == 0 && final(self)@ == old(self)@ && forall|i: int|
                0 <= i < r.kept@.len() ==> #[trigger] r.kept@[i],
            !is_reserved(topic@) ==> {
                &&& r.offered == count_matching(old(self)@.subscriptions, topic@)
                &&& forall|i: int|
                    0 <= i < r.kept@.len() && !matches_view(
                        #[trigger] old(self)@.subscriptions[i],
                        topic@,
                    ) ==> r.kept@[i]
                &&& final(self)@.subscriptions == retain_view(old(self)@.subscriptions, r.kept@)
            },
    {
        if is_reserved_topic(topic) {
            let n = self.events.len();
            let mut kept: Vec<bool> = Vec::new();
            let mut i: usize = 0;
            while i < n
                invariant
                    i <= n,
                    kept@.len() == i,
                    forall|j: int| 0 <= j < i ==> #[trigger] kept@[j],
                decreases n - i,
            {
                kept.push(true);
                i += 1;
            }
            return Publication { offered: 0, kept };
        }
        self.events.publish(topic, payload)
    }

    /// Registers `handler` under `name`; `AlreadyExists`, with nothing
    /// changed, when the name is taken.
    pub fn register_module(&mut self, name: &str, handler: H) -> (r: Result<(), RegistryError>)
        requires
            old(self).wf(),
            old(self)@.modules.next_slot < u64::MAX,
        ensures
            final(self).wf(),
            (final(self)@.modules, r) == register_view(old(self)@.modules, name@, handler),
            final(self)@.subscriptions == old(self)@.subscriptions,
    {
        self.modules.register(name, handler)
    }

    /// Registers `handler` under `name`, swapping it in place when the name
    /// is taken.
    pub fn register_or_replace_module(&mut self, name: &str, handler: H)
        requires
            old(self).wf(),
            old(self)@.modules.modules.contains_key(name@) || old(self)@.modules.next_slot
                < u64::MAX,
        ensures
            final(self).wf(),
            final(self)@.modules == replace_view(old(self)@.modules, name@, handler),
            final(self)@.subscriptions == old(self)@.subscriptions,
    {
        self.modules.register_or_replace(name, handler)
    }

    /// A handle to the module named `name`, if there is one.
    pub fn get_module(&self, name: &str) -> (r: Option<ModuleHandle>)
        requires
            self.wf(),
        ensures
            match r {
                Some(h) => lookup_view(self@.modules, name@) == Some(h@),
                None => lookup_view(self@.modules, name@) == None::<u64>,
            },
    {
        self.modules.get(name)
    }

    /// Removes the module named `name`, if there is one.
    pub fn deregister_module(&mut self, name: &str)
        requires
            old(self).wf(),
        ensures
            final(self).wf(),
            final(self)@.modules == remove_view(old(self)@.modules, name@),
            final(self)@.subscriptions == old(self)@.subscriptions,
    {
        self.modules.remove(name)
    }

    /// Admits a call to the module that `handle` names: `Destroyed` once it is
    /// gone, `Busy` while another call to it is in flight, else `Started`.
    pub fn begin_call(&mut self, handle: &ModuleHandle) -> (r: Result<Admission, ModuleError>)
        requires
            old(self).wf(),
        ensures
            final(self).wf(),
            (final(self)@.modules, r) == begin_view(old(self)@.modules, handle@),
            final(self)@.subscriptions == old(self)@.subscriptions,
    {
        self.modules.begin_call(handle)
    }

    /// Ends the call that `begin_call` started through `handle`.
    pub fn end_call(&mut self, handle: &ModuleHandle)
        requires
            old(self).wf(),
        ensures
            final(self).wf(),
            final(self)@.modules == end_view(old(self)@.modules, handle@),
            final(self)@.subscriptions == old(self)@.subscriptions,
    {
        self.modules.end_call(handle)
    }

    /// The handler that `handle` reaches, or `Destroyed` once its module is gone.
    pub fn resolve(&self, handle: &ModuleHandle) -> (r: Result<&H, ModuleError>)
        requires
            self.wf(),
        ensures
            match r {
                Ok(h) => resolve_view(self@.modules, handle@) == Some(*h),
                Err(e) => e is Destroyed && resolve_view(self@.modules, handle@) == None::<H>,
            },
    {
        self.modules.resolve(handle)
    }
}

/// The pattern `>` matches every topic, reserved ones included: what keeps a
/// reserved topic from its subscribers is the filter in `publish`.
pub proof fn lemma_catch_all_matches_every_topic(topic: Seq<char>)
    ensures
        parse_view(seq!['>']) == Ok::<PatternView, nat>(
            PatternView { nodes: Seq::empty(), trailing: true },
        ),
        matches_view(PatternView { nodes: Seq::empty(), trailing: true }, topic),
{
    crate::pattern::lemma_split_nonempty(topic);
    let s = seq!['>'];
    assert(s.drop_last() =~= Seq::<char>::empty());
    assert(crate::pattern::scan(s.drop_last()) == Ok::<crate::pattern::Scan, nat>(
        crate::pattern::scan_start(),
    ));
    assert(crate::pattern::scan(s) == Ok::<crate::pattern::Scan, nat>(
        crate::pattern::Scan {
            mode: crate::pattern::ScanMode::Rest,
            nodes: Seq::empty(),
            buf: Seq::empty(),
        },
    ));
}

} // verus!
