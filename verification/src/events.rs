//! Event bus: an ordered registry of (event name, callback) subscriptions.
//! Publishing returns the delivery snapshot — the callbacks subscribed to the
//! event at that moment, in subscription order — so that subscriptions added
//! or removed while the snapshot is being dispatched never change it.
//!
//! Callbacks are opaque identities (see the crate root): the host invokes
//! the plugin code a callback identity stands for, and contains any failure
//! there, outside this registry.

use vstd::prelude::*;

verus! {

/// One registration: `callback` wants `event`, on behalf of plugin `owner`.
pub struct Subscription {
    pub event: String,
    pub callback: u64,
    pub owner: u64,
}

impl Clone for Subscription {
    fn clone(&self) -> (r: Self)
        ensures
            r == *self,
    {
        Subscription { event: self.event.clone(), callback: self.callback, owner: self.owner }
    }
}

/// The delivery snapshot for `event`: every matching subscription's callback,
/// once per subscription, in subscription order.
pub open spec fn delivery(subs: Seq<Subscription>, event: Seq<char>) -> Seq<u64>
    decreases subs.len(),
{
    if subs.len() == 0 {
        Seq::empty()
    } else {
        let rest = delivery(subs.drop_last(), event);
        if subs.last().event@ == event {
            rest.push(subs.last().callback)
        } else {
            rest
        }
    }
}

/// The registry after every subscription of `callback` is removed.
pub open spec fn without_callback(subs: Seq<Subscription>, callback: u64) -> Seq<Subscription>
    decreases subs.len(),
{
    if subs.len() == 0 {
        Seq::empty()
    } else {
        let rest = without_callback(subs.drop_last(), callback);
        if subs.last().callback == callback {
            rest
        } else {
            rest.push(subs.last())
        }
    }
}

/// The registry after every subscription owned by plugin `owner` is removed.
pub open spec fn without_owner(subs: Seq<Subscription>, owner: u64) -> Seq<Subscription>
    decreases subs.len(),
{
    if subs.len() == 0 {
        Seq::empty()
    } else {
        let rest = without_owner(subs.drop_last(), owner);
        if subs.last().owner == owner {
            rest
        } else {
            rest.push(subs.last())
        }
    }
}

/// Publish/subscribe registry. Duplicate (event, callback) pairs are kept
/// deliberately: each publish invokes a callback once per subscription.
pub struct EventBus {
    subs: Vec<Subscription>,
}

impl View for EventBus {
    type V = Seq<Subscription>;

    closed spec fn view(&self) -> Seq<Subscription> {
        self.subs@
    }
}

impl EventBus {
    /// A bus with no subscriptions.
    pub fn new() -> (bus: EventBus)
        ensures
            bus@ == Seq::<Subscription>::empty(),
    {
        EventBus { subs: Vec::new() }
    }

    /// Appends a subscription; never deduplicates.
    pub fn subscribe(&mut self, event: String, callback: u64, owner: u64)
        ensures
            final(self)@ == old(self)@.push(
                (Subscription { event: event, callback: callback, owner: owner }),
            ),
    {
        self.subs.push(Subscription { event, callback, owner });
    }

    /// Removes every subscription of `callback`, across all event names.
    /// A callback with no subscription is a no-op, not an error.
    pub fn unsubscribe(&mut self, callback: u64)
        ensures
            final(self)@ == without_callback(old(self)@, callback),
    {
        let mut kept: Vec<Subscription> = Vec::new();
        let mut i: usize = 0;
        while i < self.subs.len()
            invariant
                i <= self.subs@.len(),
                kept@ == without_callback(self.subs@.take(i as int), callback),
            decreases self.subs@.len() - i,
        {
            let ghost prefix = self.subs@.take(i as int);
            let sub = self.subs[i].clone();
            if sub.callback != callback {
                kept.push(sub);
            }
            proof {
                assert(self.subs@.take(i + 1).drop_last() =~= prefix);
            }
            i = i + 1;
        }
        proof {
            assert(self.subs@.take(self.subs@.len() as int) =~= self.subs@);
        }
        self.subs = kept;
    }

    /// Removes every subscription owned by plugin `owner`, as part of that
    /// plugin's unload.
    pub fn remove_owner(&mut self, owner: u64)
        ensures
            final(self)@ == without_owner(old(self)@, owner),
    {
        let mut kept: Vec<Subscription> = Vec::new();
        let mut i: usize = 0;
        while i < self.subs.len()
            invariant
                i <= self.subs@.len(),
                kept@ == without_owner(self.subs@.take(i as int), owner),
            decreases self.subs@.len() - i,
        {
            let ghost prefix = self.subs@.take(i as int);
            let sub = self.subs[i].clone();
            if sub.owner != owner {
                kept.push(sub);
            }
            proof {
                assert(self.subs@.take(i + 1).drop_last() =~= prefix);
            }
            i = i + 1;
        }
        proof {
            assert(self.subs@.take(self.subs@.len() as int) =~= self.subs@);
        }
        self.subs = kept;
    }

    /// The delivery snapshot for one publish of `event`: the callbacks to
    /// invoke, in subscription order. The snapshot is fixed before any of
    /// them runs, so a subscribe or unsubscribe made from inside a callback
    /// affects only later publishes.
    pub fn publish(&self, event: &String) -> (snapshot: Vec<u64>)
        ensures
            snapshot@ == delivery(self@, event@),
    {
        let mut snapshot: Vec<u64> = Vec::new();
        let mut i: usize = 0;
        while i < self.subs.len()
            invariant
                i <= self.subs@.len(),
                snapshot@ == delivery(self.subs@.take(i as int), event@),
            decreases self.subs@.len() - i,
        {
            let ghost prefix = self.subs@.take(i as int);
            if self.subs[i].event == *event {
                snapshot.push(self.subs[i].callback);
            }
            proof {
                assert(self.subs@.take(i + 1).drop_last() =~= prefix);
            }
            i = i + 1;
        }
        proof {
            assert(self.subs@.take(self.subs@.len() as int) =~= self.subs@);
        }
        snapshot
    }
}

/// Law: subscribing one callback to the same event twice makes a single
/// publish deliver it exactly twice, appended in registration order after
/// the deliveries of the earlier subscriptions.
pub proof fn lemma_subscribe_twice_delivers_twice(
    subs: Seq<Subscription>,
    s1: Subscription,
    s2: Subscription,
    event: Seq<char>,
)
    requires
        s1.event@ == event,
        s2.event@ == event,
        s1.callback == s2.callback,
    ensures
        delivery(subs.push(s1).push(s2), event) == delivery(subs, event).push(s1.callback).push(
            s1.callback,
        ),
{
    assert(subs.push(s1).push(s2).drop_last() =~= subs.push(s1));
    assert(subs.push(s1).drop_last() =~= subs);
    assert(delivery(subs.push(s1), event) == delivery(subs, event).push(s1.callback));
    assert(delivery(subs.push(s1).push(s2), event) == delivery(subs.push(s1), event).push(
        s2.callback,
    ));
}

/// Law: once a callback is unsubscribed, the next publish of any event
/// delivers nothing to it. (The snapshot of a publish already under way is a
/// value of its own and is untouched by the removal.)
pub proof fn lemma_unsubscribed_not_delivered(
    subs: Seq<Subscription>,
    callback: u64,
    event: Seq<char>,
)
    ensures
        !delivery(without_callback(subs, callback), event).contains(callback),
    decreases subs.len(),
{
    if subs.len() > 0 {
        lemma_unsubscribed_not_delivered(subs.drop_last(), callback, event);
        let rest = without_callback(subs.drop_last(), callback);
        if subs.last().callback != callback {
            assert(rest.push(subs.last()).drop_last() =~= rest);
            let d = delivery(without_callback(subs, callback), event);
            let dr = delivery(rest, event);
            if subs.last().event@ == event {
                assert forall|k: int| 0 <= k < d.len() implies d[k] != callback by {
                    if k < dr.len() {
                        assert(dr[k] != callback) by {
                            assert(!dr.contains(callback));
                        }
                    }
                }
            }
        }
    }
}

} // verus!
