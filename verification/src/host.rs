//! Host facade: the single surface a plugin is handed at initialization.
//! It performs no business logic of its own — every call forwards to the
//! owning service, tagged with the calling plugin's identity where that
//! matters for cleanup — and it ties discovery together: validate the
//! descriptors, then plan the load order over what was accepted.

use crate::descriptor::admit_descriptors;
use crate::descriptor::Admission;
use crate::descriptor::PluginInfo;
use crate::events::delivery;
use crate::events::without_callback;
use crate::events::without_owner;
use crate::events::EventBus;
use crate::events::Subscription;
use crate::order::compute_load_plan;
use crate::order::deps_respected;
use crate::order::failure_entry_ok;
use crate::order::names_ok;
use crate::order::no_active_deps;
use crate::order::plan_partitions;
use crate::order::priority_sorted;
use crate::order::LoadPlan;
use crate::store::DataStore;
use crate::timers::due_callbacks;
use crate::timers::after_advance;
use crate::timers::has_handle;
use crate::timers::sat_add;
use crate::timers::without_handle;
use crate::timers::without_timer_owner;
use crate::timers::Timer;
use crate::timers::TimerService;
use crate::ABI_V1;
use vstd::prelude::*;

verus! {

/// The one discovery step: validate every descriptor, then order what was
/// accepted. Structural errors — interface mismatch, bad or duplicate
/// names, missing required dependencies, cycles — are all resolved here,
/// before any plugin code runs.
pub struct Discovery {
    pub admission: Admission,
    pub plan: LoadPlan,
}

/// Validates a discovery pass and plans the load order of the accepted
/// descriptors. Every accepted descriptor declares `host_abi`; the plan
/// partitions the accepted set, honours every dependency, justifies every
/// failure, and falls back to pure priority order when nothing declares a
/// dependency.
pub fn discover(descs: Vec<PluginInfo>, host_abi: u32) -> (r: Discovery)
    ensures
        forall|j: int|
            0 <= j < r.admission.accepted@.len() ==> (#[trigger] r.admission.accepted@[j]).abi_version
                == host_abi,
        names_ok(r.admission.accepted@),
        r.admission.accepted@.len() + r.admission.rejected@.len() == descs@.len(),
        plan_partitions(r.admission.accepted@, r.plan),
        deps_respected(r.admission.accepted@, r.plan.order@),
        forall|k: int|
            0 <= k < r.plan.failed@.len() ==> #[trigger] failure_entry_ok(
                r.admission.accepted@,
                r.plan.failed@,
                k,
            ),
        no_active_deps(r.admission.accepted@) ==> r.plan.failed@.len() == 0 && priority_sorted(
            r.admission.accepted@,
            r.plan.order@,
        ),
{
    let admission = admit_descriptors(descs, host_abi);
    let plan = compute_load_plan(&admission.accepted);
    Discovery { admission, plan }
}

/// Law: a plugin whose descriptor declares a binary-interface version other
/// than the host's never appears in the load plan — everything the plan
/// places comes from the accepted set, whose members all declare the
/// host's version, and initialization only ever walks the plan.
pub proof fn lemma_abi_mismatch_never_planned(
    accepted: Seq<PluginInfo>,
    plan: LoadPlan,
    host_abi: u32,
    k: int,
)
    requires
        forall|j: int|
            0 <= j < accepted.len() ==> (#[trigger] accepted[j]).abi_version == host_abi,
        forall|kk: int| 0 <= kk < plan.order@.len() ==> (#[trigger] plan.order@[kk]) < accepted.len(),
        0 <= k < plan.order@.len(),
    ensures
        accepted[plan.order@[k] as int].abi_version == host_abi,
{
}

/// The facade handed to each plugin: the event bus, the timer service and
/// the shared data store behind one fixed surface. Logging and the loading
/// of plugin binaries stay with the host program around this library.
pub struct PluginHost {
    abi_version: u32,
    bus: EventBus,
    timers: TimerService,
    store: DataStore,
}

impl PluginHost {
    /// The binary-interface version this host supports.
    pub closed spec fn host_abi(&self) -> u32 {
        self.abi_version
    }

    /// The event bus subscriptions, in subscription order.
    pub closed spec fn subs(&self) -> Seq<Subscription> {
        self.bus@
    }

    /// The scheduled timers, in creation order.
    pub closed spec fn timers(&self) -> Seq<Timer> {
        self.timers.timers()
    }

    /// The timer handle the next `set_timer` will issue.
    pub closed spec fn next_timer_handle(&self) -> u64 {
        self.timers.next_handle()
    }

    /// The timer service's logical clock.
    pub closed spec fn clock(&self) -> u64 {
        self.timers.now()
    }

    /// The shared data store's contents.
    pub closed spec fn data(&self) -> Map<Seq<char>, Seq<char>> {
        self.store@
    }

    /// The services' internal invariants.
    pub closed spec fn wf(&self) -> bool {
        self.timers.wf() && self.store.wf()
    }

    /// A fresh host supporting `ABI_V1`, with no subscriptions, no timers,
    /// and an empty store capped at `store_capacity` keys.
    pub fn new(store_capacity: usize) -> (host: PluginHost)
        ensures
            host.wf(),
            host.host_abi() == ABI_V1,
            host.subs() == Seq::<Subscription>::empty(),
            host.timers() == Seq::<Timer>::empty(),
            host.next_timer_handle() == 1,
            host.clock() == 0,
            host.data() == Map::<Seq<char>, Seq<char>>::empty(),
    {
        PluginHost {
            abi_version: ABI_V1,
            bus: EventBus::new(),
            timers: TimerService::new(),
            store: DataStore::new(store_capacity),
        }
    }

    /// Publish: the delivery snapshot for one event, in subscription order.
    /// The host invokes the callbacks it lists, containing any failure.
    pub fn send_event(&self, name: &String) -> (snapshot: Vec<u64>)
        ensures
            snapshot@ == delivery(self.subs(), name@),
    {
        self.bus.publish(name)
    }

    /// Subscribe `callback` to `name` on behalf of `plugin`.
    pub fn register_event(&mut self, plugin: u64, name: String, callback: u64)
        requires
            old(self).wf(),
        ensures
            final(self).wf(),
            final(self).subs() == old(self).subs().push(
                (Subscription { event: name, callback: callback, owner: plugin }),
            ),
            final(self).timers() == old(self).timers(),
            final(self).data() == old(self).data(),
            final(self).next_timer_handle() == old(self).next_timer_handle(),
            final(self).clock() == old(self).clock(),
            final(self).host_abi() == old(self).host_abi(),
    {
        self.bus.subscribe(name, callback, plugin);
    }

    /// Unsubscribe every subscription of `callback`, across all events.
    pub fn unregister_event(&mut self, callback: u64)
        requires
            old(self).wf(),
        ensures
            final(self).wf(),
            final(self).subs() == without_callback(old(self).subs(), callback),
            final(self).timers() == old(self).timers(),
            final(self).data() == old(self).data(),
            final(self).next_timer_handle() == old(self).next_timer_handle(),
            final(self).clock() == old(self).clock(),
            final(self).host_abi() == old(self).host_abi(),
    {
        self.bus.unsubscribe(callback);
    }

    /// Store `value` under `key`; see the data store for when this can fail.
    pub fn set_data(&mut self, key: String, value: String) -> (ok: bool)
        requires
            old(self).wf(),
        ensures
            final(self).wf(),
            ok == (old(self).data().contains_key(key@) || old(self).data().dom().len()
                < old(self).store_capacity()),
            ok ==> final(self).data() == old(self).data().insert(key@, value@),
            !ok ==> final(self).data() == old(self).data(),
            final(self).subs() == old(self).subs(),
            final(self).timers() == old(self).timers(),
            final(self).next_timer_handle() == old(self).next_timer_handle(),
            final(self).clock() == old(self).clock(),
            final(self).host_abi() == old(self).host_abi(),
            final(self).store_capacity() == old(self).store_capacity(),
    {
        self.store.set_data(key, value)
    }

    /// The store's key capacity.
    pub closed spec fn store_capacity(&self) -> usize {
        self.store.capacity()
    }

    /// The value under `key`, or `None`.
    pub fn get_data(&self, key: &String) -> (r: Option<String>)
        requires
            self.wf(),
        ensures
            match r {
                Some(v) => self.data().contains_key(key@) && v@ == self.data()[key@],
                None => !self.data().contains_key(key@),
            },
    {
        self.store.get_data(key)
    }

    /// Whether `key` holds a value.
    pub fn has_data(&self, key: &String) -> (r: bool)
        requires
            self.wf(),
        ensures
            r == self.data().contains_key(key@),
    {
        self.store.has_data(key)
    }

    /// Remove `key`; reports whether an entry existed.
    pub fn delete_data(&mut self, key: &String) -> (existed: bool)
        requires
            old(self).wf(),
        ensures
            final(self).wf(),
            existed == old(self).data().contains_key(key@),
            final(self).data() == old(self).data().remove(key@),
            final(self).subs() == old(self).subs(),
            final(self).timers() == old(self).timers(),
            final(self).next_timer_handle() == old(self).next_timer_handle(),
            final(self).clock() == old(self).clock(),
            final(self).host_abi() == old(self).host_abi(),
            final(self).store_capacity() == old(self).store_capacity(),
    {
        self.store.delete_data(key)
    }

    /// Schedule a timer for `plugin`. Handle 0 is reserved for "no timer":
    /// a real schedule never returns it.
    pub fn set_timer(&mut self, plugin: u64, delay: u32, callback: u64, repeat: bool) -> (handle:
        u64)
        requires
            old(self).wf(),
        ensures
            final(self).wf(),
            old(self).next_timer_handle() == u64::MAX ==> handle == 0 && final(self).timers()
                == old(self).timers() && final(self).next_timer_handle() == old(
                self,
            ).next_timer_handle(),
            old(self).next_timer_handle() < u64::MAX ==> {
                &&& handle == old(self).next_timer_handle()
                &&& handle != 0
                &&& final(self).next_timer_handle() == handle + 1
                &&& final(self).timers() == old(self).timers().push(
                    (Timer {
                        handle: handle,
                        due: sat_add(old(self).clock(), delay as u64),
                        interval: delay,
                        repeat: repeat,
                        callback: callback,
                        owner: plugin,
                    }),
                )
            },
            final(self).subs() == old(self).subs(),
            final(self).data() == old(self).data(),
            final(self).clock() == old(self).clock(),
            final(self).host_abi() == old(self).host_abi(),
    {
        self.timers.set_timer(delay, callback, repeat, plugin)
    }

    /// Cancel a timer by handle; idempotent.
    pub fn cancel_timer(&mut self, handle: u64) -> (found: bool)
        requires
            old(self).wf(),
        ensures
            final(self).wf(),
            found == has_handle(old(self).timers(), handle),
            final(self).timers() == without_handle(old(self).timers(), handle),
            final(self).subs() == old(self).subs(),
            final(self).data() == old(self).data(),
            final(self).next_timer_handle() == old(self).next_timer_handle(),
            final(self).clock() == old(self).clock(),
            final(self).host_abi() == old(self).host_abi(),
    {
        self.timers.cancel_timer(handle)
    }

    /// Advance the timer clock; returns the callbacks that came due, in
    /// creation order, for the host to invoke with failures contained.
    pub fn advance_timers(&mut self, dt: u64) -> (fired: Vec<u64>)
        requires
            old(self).wf(),
        ensures
            final(self).wf(),
            final(self).clock() == sat_add(old(self).clock(), dt),
            fired@ == due_callbacks(old(self).timers(), final(self).clock()),
            final(self).timers() == after_advance(old(self).timers(), final(self).clock()),
            final(self).subs() == old(self).subs(),
            final(self).data() == old(self).data(),
            final(self).next_timer_handle() == old(self).next_timer_handle(),
            final(self).host_abi() == old(self).host_abi(),
    {
        self.timers.advance(dt)
    }

    /// Unload cleanup for one plugin: drop its event subscriptions and
    /// cancel its timers. The shared data store deliberately keeps entries
    /// the plugin wrote: keys are process-wide, not per-plugin.
    pub fn unload_plugin(&mut self, plugin: u64)
        requires
            old(self).wf(),
        ensures
            final(self).wf(),
            final(self).subs() == without_owner(old(self).subs(), plugin),
            final(self).timers() == without_timer_owner(old(self).timers(), plugin),
            final(self).data() == old(self).data(),
            final(self).next_timer_handle() == old(self).next_timer_handle(),
            final(self).clock() == old(self).clock(),
            final(self).host_abi() == old(self).host_abi(),
    {
        self.bus.remove_owner(plugin);
        self.timers.cancel_owner(plugin);
    }
}

} // verus!
