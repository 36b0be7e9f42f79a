//! The publish/subscribe bus: active subscriptions, each a pattern with the
//! sending half of an unbounded delivery queue.
use vstd::prelude::*;

use crate::pattern::{matchers, matches_view, segments_match, segs_view, split_dots, split_topic, Pattern, PatternView};
use tokio::sync::mpsc::{UnboundedReceiver, UnboundedSender};

verus! {

/// tokio's `mpsc::UnboundedSender`, the sending half of a delivery queue,
/// carried through as an opaque value.
#[verifier::external_type_specification]
#[verifier::external_body]
#[verifier::reject_recursive_types(T)]
pub struct ExUnboundedSender<T>(UnboundedSender<T>);

/// tokio's `mpsc::UnboundedReceiver`, the receiving half handed to the
/// subscriber, carried through as an opaque value.
#[verifier::external_type_specification]
#[verifier::external_body]
#[verifier::reject_recursive_types(T)]
pub struct ExUnboundedReceiver<T>(UnboundedReceiver<T>);

/// Relies on tokio's `mpsc::unbounded_channel`: a new queue with no bound,
/// returned as its two halves.
pub assume_specification<T>[ tokio::sync::mpsc::unbounded_channel::<T> ]() -> (
    UnboundedSender<T>,
    UnboundedReceiver<T>,
);

/// Relies on tokio's `UnboundedSender::send`, which never blocks: `false` when
/// the receiving half is gone (then nothing was queued).
#[verifier::external_body]
fn deliver<T: Clone>(queue: &UnboundedSender<(String, T)>, topic: &str, data: &T) -> (r: bool) {
    queue.send((topic.to_string(), data.clone())).is_ok()
}

/// The items of `s` whose flag in `kept` is set, in order.
pub open spec fn retain_view<A>(s: Seq<A>, kept: Seq<bool>) -> Seq<A>
    decreases s.len(),
{
    if s.len() == 0 || kept.len() == 0 {
        Seq::empty()
    } else {
        (if kept[0] {
            seq![s[0]]
        } else {
            Seq::empty()
        }) + retain_view(s.skip(1), kept.skip(1))
    }
}

/// What one publish did: how many queues were offered the event, and, for
/// each subscription there was before it (oldest first), whether it stays.
/// A subscription that does not stay is one whose queue refused the event.
pub struct Publication {
    pub offered: usize,
    pub kept: Vec<bool>,
}

/// How many of the patterns in `s` match `topic`.
pub open spec fn count_matching(s: Seq<PatternView>, topic: Seq<char>) -> nat
    decreases s.len(),
{
    if s.len() == 0 {
        0
    } else {
        count_matching(s.drop_last(), topic) + if matches_view(s.last(), topic) {
            1nat
        } else {
            0nat
        }
    }
}

#[verifier::reject_recursive_types(T)]
struct Subscription<T> {
    pattern: Pattern,
    queue: UnboundedSender<(String, T)>,
}

/// The set of active subscriptions. Publishing never blocks: each queue is
/// unbounded, and a subscription whose consumer is gone is dropped at the next
/// publish that tries to reach it.
#[verifier::reject_recursive_types(T)]
pub struct EventsManager<T> {
    handlers: Vec<Subscription<T>>,
}

impl<T> View for EventsManager<T> {
    type V = Seq<PatternView>;

    /// The patterns of the active subscriptions, oldest first.
    closed spec fn view(&self) -> Seq<PatternView> {
        self.handlers@.map_values(|s: Subscription<T>| s.pattern@)
    }
}

impl<T> Default for EventsManager<T> {
    fn default() -> (r: Self)
        ensures
            r@ == Seq::<PatternView>::empty(),
    {
        Self::new()
    }
}

impl<T> EventsManager<T> {
    pub fn new() -> (r: Self)
        ensures
            r@ == Seq::<PatternView>::empty(),
    {
        let r = EventsManager { handlers: Vec::new() };
        proof {
            assert(r@ =~= Seq::<PatternView>::empty());
        }
        r
    }

    /// The number of active subscriptions.
    pub fn len(&self) -> (r: usize)
        ensures
            r == self@.len(),
    {
        self.handlers.len()
    }

    /// Registers `pattern` with a new unbounded queue and returns the queue's
    /// receiving half, from which the caller forwards events to its sink.
    pub fn subscribe(&mut self, pattern: Pattern) -> (rx: UnboundedReceiver<(String, T)>)
        ensures
            final(self)@ == old(self)@.push(pattern@),
    {
        let (queue, rx) = tokio::sync::mpsc::unbounded_channel();
        self.handlers.push(Subscription { pattern, queue });
        proof {
            assert(final(self)@ =~= old(self)@.push(pattern@));
        }
        rx
    }

    /// Keeps the subscriptions whose flag in `kept` is set, in order, and
    /// drops the others.
    pub fn retain_delivered(&mut self, kept: &Vec<bool>)
        requires
            kept@.len() == old(self)@.len(),
        ensures
            final(self)@ == retain_view(old(self)@, kept@),
    {
        let ghost old_view = self@;
        let mut i: usize = self.handlers.len();
        proof {
            assert(old_view.skip(i as int) =~= Seq::<PatternView>::empty());
            assert(old_view.take(i as int) =~= old_view);
            assert(self@ =~= old_view.take(i as int) + retain_view(
                old_view.skip(i as int),
                kept@.skip(i as int),
            ));
        }
        while i > 0
            invariant
                i <= old_view.len(),
                kept@.len() == old_view.len(),
                self@ == old_view.take(i as int) + retain_view(
                    old_view.skip(i as int),
                    kept@.skip(i as int),
                ),
                self.handlers@.len() >= i,
            decreases i,
        {
            let j = i - 1;
            let ghost before = self@;
            let ghost rest = retain_view(old_view.skip(i as int), kept@.skip(i as int));
            proof {
                let s = old_view.skip(j as int);
                let k = kept@.skip(j as int);
                assert(s.skip(1) =~= old_view.skip(i as int));
                assert(k.skip(1) =~= kept@.skip(i as int));
                assert(s[0] == old_view[j as int]);
                assert(k[0] == kept@[j as int]);
            }
            if !kept[j] {
                self.handlers.remove(j);
                proof {
                    assert(self@ =~= before.remove(j as int));
                    assert(self@ =~= old_view.take(j as int) + retain_view(
                        old_view.skip(j as int),
                        kept@.skip(j as int),
                    ));
                }
            } else {
                proof {
                    assert(self@ =~= old_view.take(j as int) + retain_view(
                        old_view.skip(j as int),
                        kept@.skip(j as int),
                    ));
                }
            }
            i = j;
        }
        proof {
            assert(old_view.take(0) =~= Seq::<PatternView>::empty());
            assert(old_view.skip(0) =~= old_view);
            assert(kept@.skip(0) =~= kept@);
            assert(self@ =~= retain_view(old_view, kept@));
        }
    }

    /// Offers a copy of `(dest, data)` to every subscription whose pattern
    /// matches `dest`, and drops each one whose consumer turned out to be gone.
    /// Every subscription that does not match stays; so does every one whose
    /// queue took the event. Returns how many queues were offered the event
    /// and which subscriptions stay.
    pub fn publish(&mut self, dest: &str, data: &T) -> (r: Publication)
        where
            T: Clone,
        ensures
            r.offered == count_matching(old(self)@, dest@),
            r.kept@.len() == old(self)@.len(),
            forall|i: int|
                0 <= i < r.kept@.len() && !matches_view(#[trigger] old(self)@[i], dest@)
                    ==> r.kept@[i],
            final(self)@ == retain_view(old(self)@, r.kept@),
    {
        let segs = split_topic(dest);
        let n = self.handlers.len();
        let mut kept: Vec<bool> = Vec::new();
        let mut offered: usize = 0;
        let mut i: usize = 0;
        proof {
            assert(self@.take(0) =~= Seq::<PatternView>::empty());
        }
        while i < n
            invariant
                n == self@.len(),
                i <= n,
                offered <= i,
                offered == count_matching(self@.take(i as int), dest@),
                kept@.len() == i,
                segs_view(segs@) == split_dots(dest@),
                forall|j: int| 0 <= j < i && !matches_view(#[trigger] self@[j], dest@) ==> kept@[j],
            decreases n - i,
        {
            let sub = &self.handlers[i];
            proof {
                assert(self@.take(i + 1).drop_last() =~= self@.take(i as int));
                assert(self@.take(i + 1).last() == self@[i as int]);
            }
            if sub.pattern.matches_segments(&segs) {
                let ok = deliver(&sub.queue, dest, data);
                kept.push(ok);
                offered += 1;
            } else {
                assert(!segments_match(matchers(self@[i as int]), split_dots(dest@)));
                kept.push(true);
            }
            i += 1;
        }
        proof {
            assert(self@.take(n as int) =~= self@);
        }
        self.retain_delivered(&kept);
        Publication { offered, kept }
    }
}

} // verus!
