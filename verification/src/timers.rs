//! Timer service: one-shot and repeating timers over a logical clock that
//! the host advances. Each timer gets a non-zero handle; handle 0 is
//! reserved so callers can use it for "no timer". Firing order among timers
//! due at the same advance is creation order, consistently. The clock and
//! due times saturate at `u64::MAX` instead of wrapping.
//!
//! `advance` returns the due callbacks as a value and holds nothing while
//! the host invokes them, so a firing callback may schedule or cancel
//! timers — itself included — without deadlock.

use vstd::prelude::*;

verus! {

/// One scheduled timer. A timer leaves the service by firing (one-shot) or
/// by cancellation; a repeating timer is re-armed after each firing with its
/// original delay, keeping its handle.
#[derive(Clone, Copy)]
pub struct Timer {
    pub handle: u64,
    pub due: u64,
    pub interval: u32,
    pub repeat: bool,
    pub callback: u64,
    pub owner: u64,
}

/// Addition on the clock: saturates at `u64::MAX`.
pub open spec fn sat_add(a: u64, b: u64) -> u64 {
    if a + b > u64::MAX {
        u64::MAX
    } else {
        (a + b) as u64
    }
}

/// `t` re-armed at firing time `now`: same handle, callback and delay, due
/// again one interval later.
pub open spec fn rearmed(t: Timer, now: u64) -> Timer {
    Timer { due: sat_add(now, t.interval as u64), ..t }
}

/// Some timer carries this handle.
pub open spec fn has_handle(timers: Seq<Timer>, handle: u64) -> bool {
    exists|i: int| 0 <= i < timers.len() && timers[i].handle == handle
}

/// No two timers share a handle.
pub open spec fn unique_handles(timers: Seq<Timer>) -> bool {
    forall|i: int, j: int| 0 <= i < j < timers.len() ==> timers[i].handle != timers[j].handle
}

/// Callbacks of the timers due by `now`, in creation order.
pub open spec fn due_callbacks(timers: Seq<Timer>, now: u64) -> Seq<u64>
    decreases timers.len(),
{
    if timers.len() == 0 {
        Seq::empty()
    } else {
        let rest = due_callbacks(timers.drop_last(), now);
        if timers.last().due <= now {
            rest.push(timers.last().callback)
        } else {
            rest
        }
    }
}

/// The timers still scheduled after an advance to `now`: the not-yet-due
/// ones unchanged, the fired repeating ones re-armed, the fired one-shot
/// ones retired.
pub open spec fn after_advance(timers: Seq<Timer>, now: u64) -> Seq<Timer>
    decreases timers.len(),
{
    if timers.len() == 0 {
        Seq::empty()
    } else {
        let rest = after_advance(timers.drop_last(), now);
        if timers.last().due > now {
            rest.push(timers.last())
        } else if timers.last().repeat {
            rest.push(rearmed(timers.last(), now))
        } else {
            rest
        }
    }
}

/// The timers left once the one carrying `handle` is cancelled.
pub open spec fn without_handle(timers: Seq<Timer>, handle: u64) -> Seq<Timer>
    decreases timers.len(),
{
    if timers.len() == 0 {
        Seq::empty()
    } else {
        let rest = without_handle(timers.drop_last(), handle);
        if timers.last().handle == handle {
            rest
        } else {
            rest.push(timers.last())
        }
    }
}

/// The timers left once every timer owned by plugin `owner` is cancelled.
pub open spec fn without_timer_owner(timers: Seq<Timer>, owner: u64) -> Seq<Timer>
    decreases timers.len(),
{
    if timers.len() == 0 {
        Seq::empty()
    } else {
        let rest = without_timer_owner(timers.drop_last(), owner);
        if timers.last().owner == owner {
            rest
        } else {
            rest.push(timers.last())
        }
    }
}

/// Advancing keeps handles: every handle scheduled afterwards was scheduled
/// before, each handle still appears at most once, and handle bounds carry
/// over.
proof fn lemma_after_advance_handles(timers: Seq<Timer>, now: u64, bound: u64)
    requires
        unique_handles(timers),
        forall|i: int| 0 <= i < timers.len() ==> 1 <= #[trigger] timers[i].handle < bound,
    ensures
        unique_handles(after_advance(timers, now)),
        forall|i: int|
            0 <= i < after_advance(timers, now).len() ==> 1 <= #[trigger] after_advance(
                timers,
                now,
            )[i].handle < bound,
        forall|h: u64|
            #[trigger] has_handle(after_advance(timers, now), h) ==> has_handle(timers, h),
    decreases timers.len(),
{
    if timers.len() > 0 {
        let prev = timers.drop_last();
        assert(forall|i: int| 0 <= i < prev.len() ==> prev[i] == timers[i]);
        lemma_after_advance_handles(prev, now, bound);
        let rest = after_advance(prev, now);
        let whole = after_advance(timers, now);
        if whole.len() == rest.len() + 1 {
            assert(whole.drop_last() =~= rest);
            assert(whole.last().handle == timers.last().handle);
            assert(!has_handle(rest, timers.last().handle)) by {
                if has_handle(rest, timers.last().handle) {
                    assert(has_handle(prev, timers.last().handle));
                    let i = choose|i: int|
                        0 <= i < prev.len() && prev[i].handle == timers.last().handle;
                    assert(timers[i].handle == timers[timers.len() - 1].handle);
                }
            }
            assert(forall|h: u64| has_handle(whole, h) ==> has_handle(timers, h)) by {
                assert forall|h: u64| has_handle(whole, h) implies has_handle(timers, h) by {
                    let i = choose|i: int| 0 <= i < whole.len() && whole[i].handle == h;
                    if i < rest.len() {
                        assert(has_handle(rest, h));
                        let j = choose|j: int| 0 <= j < prev.len() && prev[j].handle == h;
                        assert(timers[j].handle == h);
                    } else {
                        assert(timers[timers.len() - 1].handle == h);
                    }
                }
            }
        } else {
            assert(whole =~= rest);
            assert forall|h: u64| has_handle(whole, h) implies has_handle(timers, h) by {
                assert(has_handle(prev, h));
                let j = choose|j: int| 0 <= j < prev.len() && #[trigger] prev[j].handle == h;
                assert(timers[j].handle == h);
            }
        }
    }
}

/// Cancelling one handle keeps the remaining handles unique and bounded.
proof fn lemma_without_handle_wf(timers: Seq<Timer>, handle: u64, bound: u64)
    requires
        unique_handles(timers),
        forall|i: int| 0 <= i < timers.len() ==> 1 <= #[trigger] timers[i].handle < bound,
    ensures
        unique_handles(without_handle(timers, handle)),
        forall|i: int|
            0 <= i < without_handle(timers, handle).len() ==> 1 <= #[trigger] without_handle(
                timers,
                handle,
            )[i].handle < bound,
        forall|h: u64|
            #[trigger] has_handle(without_handle(timers, handle), h) ==> has_handle(timers, h),
    decreases timers.len(),
{
    if timers.len() > 0 {
        let prev = timers.drop_last();
        assert(forall|i: int| 0 <= i < prev.len() ==> prev[i] == timers[i]);
        lemma_without_handle_wf(prev, handle, bound);
        let rest = without_handle(prev, handle);
        let whole = without_handle(timers, handle);
        assert forall|h: u64| has_handle(rest, h) implies has_handle(timers, h) by {
            assert(has_handle(prev, h));
            let j = choose|j: int| 0 <= j < prev.len() && #[trigger] prev[j].handle == h;
            assert(timers[j].handle == h);
        }
        if timers.last().handle != handle {
            assert(whole.drop_last() =~= rest);
            assert(!has_handle(rest, timers.last().handle)) by {
                if has_handle(rest, timers.last().handle) {
                    let j = choose|j: int|
                        0 <= j < prev.len() && #[trigger] prev[j].handle == timers.last().handle;
                    assert(timers[j].handle == timers[timers.len() - 1].handle);
                }
            }
            assert forall|h: u64| has_handle(whole, h) implies has_handle(timers, h) by {
                let i = choose|i: int| 0 <= i < whole.len() && #[trigger] whole[i].handle == h;
                if i < rest.len() {
                    assert(has_handle(rest, h));
                } else {
                    assert(timers[timers.len() - 1].handle == h);
                }
            }
        } else {
            assert(whole =~= rest);
        }
    }
}

/// Cancelling one owner's timers keeps the remaining handles unique and
/// bounded.
proof fn lemma_without_timer_owner_wf(timers: Seq<Timer>, owner: u64, bound: u64)
    requires
        unique_handles(timers),
        forall|i: int| 0 <= i < timers.len() ==> 1 <= #[trigger] timers[i].handle < bound,
    ensures
        unique_handles(without_timer_owner(timers, owner)),
        forall|i: int|
            0 <= i < without_timer_owner(timers, owner).len() ==> 1
                <= #[trigger] without_timer_owner(timers, owner)[i].handle < bound,
        forall|h: u64|
            #[trigger] has_handle(without_timer_owner(timers, owner), h) ==> has_handle(timers, h),
    decreases timers.len(),
{
    if timers.len() > 0 {
        let prev = timers.drop_last();
        assert(forall|i: int| 0 <= i < prev.len() ==> prev[i] == timers[i]);
        lemma_without_timer_owner_wf(prev, owner, bound);
        let rest = without_timer_owner(prev, owner);
        let whole = without_timer_owner(timers, owner);
        assert forall|h: u64| has_handle(rest, h) implies has_handle(timers, h) by {
            assert(has_handle(prev, h));
            let j = choose|j: int| 0 <= j < prev.len() && #[trigger] prev[j].handle == h;
            assert(timers[j].handle == h);
        }
        if timers.last().owner != owner {
            assert(whole.drop_last() =~= rest);
            assert(!has_handle(rest, timers.last().handle)) by {
                if has_handle(rest, timers.last().handle) {
                    let j = choose|j: int|
                        0 <= j < prev.len() && #[trigger] prev[j].handle == timers.last().handle;
                    assert(timers[j].handle == timers[timers.len() - 1].handle);
                }
            }
            assert forall|h: u64| has_handle(whole, h) implies has_handle(timers, h) by {
                let i = choose|i: int| 0 <= i < whole.len() && #[trigger] whole[i].handle == h;
                if i < rest.len() {
                    assert(has_handle(rest, h));
                } else {
                    assert(timers[timers.len() - 1].handle == h);
                }
            }
        } else {
            assert(whole =~= rest);
        }
    }
}

/// Schedules and fires timers against a logical clock.
pub struct TimerService {
    timers: Vec<Timer>,
    next_handle: u64,
    now: u64,
}

impl TimerService {
    /// The timers currently scheduled, in creation order.
    pub closed spec fn timers(&self) -> Seq<Timer> {
        self.timers@
    }

    /// The handle the next `set_timer` will issue.
    pub closed spec fn next_handle(&self) -> u64 {
        self.next_handle
    }

    /// The logical clock.
    pub closed spec fn now(&self) -> u64 {
        self.now
    }

    /// Handles are non-zero, unique, and below the next one to issue.
    pub closed spec fn wf(&self) -> bool {
        &&& 1 <= self.next_handle
        &&& unique_handles(self.timers@)
        &&& forall|i: int|
            0 <= i < self.timers@.len() ==> 1 <= #[trigger] self.timers@[i].handle
                < self.next_handle
    }

    /// A service with no timers, at clock 0.
    pub fn new() -> (s: TimerService)
        ensures
            s.wf(),
            s.timers() == Seq::<Timer>::empty(),
            s.next_handle() == 1,
            s.now() == 0,
    {
        TimerService { timers: Vec::new(), next_handle: 1, now: 0 }
    }

    /// Schedules `callback` to fire once `delay` units from now, and on
    /// every re-arm after that if `repeat`. Returns the timer's handle.
    /// Handle 0 is reserved for "no timer": it comes back only in the
    /// unreachable case that the handle space is exhausted, and then
    /// nothing was scheduled.
    pub fn set_timer(&mut self, delay: u32, callback: u64, repeat: bool, owner: u64) -> (handle:
        u64)
        requires
            old(self).wf(),
        ensures
            final(self).wf(),
            final(self).now() == old(self).now(),
            old(self).next_handle() == u64::MAX ==> handle == 0 && final(self).timers() == old(
                self,
            ).timers() && final(self).next_handle() == old(self).next_handle(),
            old(self).next_handle() < u64::MAX ==> {
                &&& handle == old(self).next_handle()
                &&& handle != 0
                &&& final(self).next_handle() == handle + 1
                &&& final(self).timers() == old(self).timers().push(
                    (Timer {
                        handle: handle,
                        due: sat_add(old(self).now(), delay as u64),
                        interval: delay,
                        repeat: repeat,
                        callback: callback,
                        owner: owner,
                    }),
                )
            },
    {
        if self.next_handle == u64::MAX {
            return 0;
        }
        let handle = self.next_handle;
        let due = self.now.saturating_add(delay as u64);
        self.timers.push(Timer { handle, due, interval: delay, repeat, callback, owner });
        self.next_handle = self.next_handle + 1;
        handle
    }

    /// Cancels the timer carrying `handle`; reports whether one was found.
    /// Cancelling again is safe and reports not-found.
    pub fn cancel_timer(&mut self, handle: u64) -> (found: bool)
        requires
            old(self).wf(),
        ensures
            final(self).wf(),
            found == has_handle(old(self).timers(), handle),
            final(self).timers() == without_handle(old(self).timers(), handle),
            final(self).next_handle() == old(self).next_handle(),
            final(self).now() == old(self).now(),
    {
        let ghost orig = self.timers@;
        let mut kept: Vec<Timer> = Vec::new();
        let mut found = false;
        let mut i: usize = 0;
        while i < self.timers.len()
            invariant
                i <= orig.len(),
                self.timers@ == orig,
                kept@ == without_handle(orig.take(i as int), handle),
                found == has_handle(orig.take(i as int), handle),
            decreases orig.len() - i,
        {
            let ghost prefix = orig.take(i as int);
            let t = self.timers[i];
            proof {
                assert(orig.take(i + 1).drop_last() =~= prefix);
                if t.handle == handle {
                    assert(orig.take(i + 1)[i as int].handle == handle);
                } else if has_handle(orig.take(i + 1), handle) {
                    let j = choose|j: int|
                        0 <= j < orig.take(i + 1).len() && #[trigger] orig.take(i + 1)[j].handle
                            == handle;
                    assert(prefix[j].handle == handle);
                }
            }
            if t.handle == handle {
                found = true;
            } else {
                kept.push(t);
            }
            i = i + 1;
        }
        proof {
            assert(orig.take(orig.len() as int) =~= orig);
            lemma_without_handle_wf(orig, handle, self.next_handle);
        }
        self.timers = kept;
        found
    }

    /// Cancels every timer owned by plugin `owner`, as part of that
    /// plugin's unload.
    pub fn cancel_owner(&mut self, owner: u64)
        requires
            old(self).wf(),
        ensures
            final(self).wf(),
            final(self).timers() == without_timer_owner(old(self).timers(), owner),
            final(self).next_handle() == old(self).next_handle(),
            final(self).now() == old(self).now(),
    {
        let ghost orig = self.timers@;
        let mut kept: Vec<Timer> = Vec::new();
        let mut i: usize = 0;
        while i < self.timers.len()
            invariant
                i <= orig.len(),
                self.timers@ == orig,
                kept@ == without_timer_owner(orig.take(i as int), owner),
            decreases orig.len() - i,
        {
            let ghost prefix = orig.take(i as int);
            let t = self.timers[i];
            proof {
                assert(orig.take(i + 1).drop_last() =~= prefix);
            }
            if t.owner != owner {
                kept.push(t);
            }
            i = i + 1;
        }
        proof {
            assert(orig.take(orig.len() as int) =~= orig);
            lemma_without_timer_owner_wf(orig, owner, self.next_handle);
        }
        self.timers = kept;
    }

    /// Moves the clock forward by `dt` and fires what came due: returns the
    /// due timers' callbacks in creation order, retires fired one-shot
    /// timers, and re-arms fired repeating timers one interval past the new
    /// clock — a failure while a callback runs is contained by the host and
    /// never cancels a repeating timer.
    pub fn advance(&mut self, dt: u64) -> (fired: Vec<u64>)
        requires
            old(self).wf(),
        ensures
            final(self).wf(),
            final(self).now() == sat_add(old(self).now(), dt),
            final(self).next_handle() == old(self).next_handle(),
            fired@ == due_callbacks(old(self).timers(), final(self).now()),
            final(self).timers() == after_advance(old(self).timers(), final(self).now()),
    {
        let now = self.now.saturating_add(dt);
        self.now = now;
        let ghost orig = self.timers@;
        let mut fired: Vec<u64> = Vec::new();
        let mut kept: Vec<Timer> = Vec::new();
        let mut i: usize = 0;
        while i < self.timers.len()
            invariant
                i <= orig.len(),
                self.timers@ == orig,
                fired@ == due_callbacks(orig.take(i as int), now),
                kept@ == after_advance(orig.take(i as int), now),
            decreases orig.len() - i,
        {
            let ghost prefix = orig.take(i as int);
            let t = self.timers[i];
            proof {
                assert(orig.take(i + 1).drop_last() =~= prefix);
            }
            if t.due <= now {
                fired.push(t.callback);
                if t.repeat {
                    let next_due = now.saturating_add(t.interval as u64);
                    kept.push(Timer { due: next_due, ..t });
                    proof {
                        assert(Timer { due: next_due, ..t } == rearmed(t, now));
                    }
                }
            } else {
                kept.push(t);
            }
            i = i + 1;
        }
        proof {
            assert(orig.take(orig.len() as int) =~= orig);
            lemma_after_advance_handles(orig, now, self.next_handle);
        }
        self.timers = kept;
        fired
    }
}

/// Law: a repeating timer fires on each of three advances that reach its
/// due time, re-armed one interval later each time; cancelling it after the
/// second firing leaves nothing to fire on the third advance.
pub proof fn lemma_repeat_fires_until_cancelled(t: Timer, n1: u64, n2: u64, n3: u64)
    requires
        t.repeat,
        t.due <= n1,
        sat_add(n1, t.interval as u64) <= n2,
        sat_add(n2, t.interval as u64) <= n3,
    ensures
        due_callbacks(seq![t], n1) == seq![t.callback],
        after_advance(seq![t], n1) == seq![rearmed(t, n1)],
        due_callbacks(seq![rearmed(t, n1)], n2) == seq![t.callback],
        after_advance(seq![rearmed(t, n1)], n2) == seq![rearmed(rearmed(t, n1), n2)],
        due_callbacks(seq![rearmed(rearmed(t, n1), n2)], n3) == seq![t.callback],
        without_handle(seq![rearmed(rearmed(t, n1), n2)], t.handle) == Seq::<Timer>::empty(),
        due_callbacks(Seq::<Timer>::empty(), n3) == Seq::<u64>::empty(),
{
    assert(due_callbacks(Seq::<Timer>::empty(), n1) == Seq::<u64>::empty());
    assert(due_callbacks(Seq::<Timer>::empty(), n2) == Seq::<u64>::empty());
    assert(due_callbacks(Seq::<Timer>::empty(), n3) == Seq::<u64>::empty());
    assert(after_advance(Seq::<Timer>::empty(), n1) == Seq::<Timer>::empty());
    assert(after_advance(Seq::<Timer>::empty(), n2) == Seq::<Timer>::empty());
    assert(without_handle(Seq::<Timer>::empty(), t.handle) == Seq::<Timer>::empty());
    let s1 = seq![t];
    assert(s1.drop_last() =~= Seq::<Timer>::empty());
    assert(due_callbacks(s1, n1) =~= seq![t.callback]);
    assert(after_advance(s1, n1) =~= seq![rearmed(t, n1)]);
    let t1 = rearmed(t, n1);
    let s2 = seq![t1];
    assert(s2.drop_last() =~= Seq::<Timer>::empty());
    assert(due_callbacks(s2, n2) =~= seq![t.callback]);
    assert(after_advance(s2, n2) =~= seq![rearmed(t1, n2)]);
    let t2 = rearmed(t1, n2);
    let s3 = seq![t2];
    assert(s3.drop_last() =~= Seq::<Timer>::empty());
    assert(due_callbacks(s3, n3) =~= seq![t.callback]);
    assert(without_handle(s3, t.handle) =~= Seq::<Timer>::empty());
}

} // verus!
