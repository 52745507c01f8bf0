//! Dependency graph and load orderer: computes, from a validated candidate
//! set, the one deterministic order in which plugins are initialized, and
//! which plugins cannot load and why. Required dependencies order before
//! their dependents; optional dependencies order first only when present;
//! ties among plugins ready at the same step break by priority bucket
//! (`PRIORITY_FIRST`, then `PRIORITY_DEFAULT`, then `PRIORITY_LATER`) and
//! then by discovery order, so the same candidate set always yields the
//! same plan. Unloading walks the loaded plan in exact reverse.

use crate::descriptor::PluginInfo;
use crate::DEP_TYPE_REQUIRED;
use crate::PRIORITY_FIRST;
use crate::PRIORITY_LATER;
use vstd::prelude::*;

verus! {

/// Why a plugin is absent from the load order.
pub enum LoadError {
    /// A required dependency names no loadable candidate: either no accepted
    /// descriptor carries that name, or every one that does has itself
    /// failed. Fatal for the dependent only.
    MissingRequiredDependency { name: String },
    /// The plugin's required dependencies cannot be ordered: it takes part
    /// in, or waits on, a dependency cycle. Fatal for every plugin involved.
    DependencyCycle,
}

/// One plugin that cannot load: its index in the candidate set, and why.
pub struct LoadFailure {
    pub index: usize,
    pub error: LoadError,
}

/// The orderer's outcome: candidate indices in initialization order, and
/// the candidates that cannot load. Every candidate appears in exactly one
/// of the two.
pub struct LoadPlan {
    pub order: Vec<usize>,
    pub failed: Vec<LoadFailure>,
}

/// What the orderer requires of a candidate set, and the validator
/// guarantees: names are non-empty and mutually distinct.
pub open spec fn names_ok(descs: Seq<PluginInfo>) -> bool {
    &&& forall|i: int| 0 <= i < descs.len() ==> (#[trigger] descs[i].name@).len() > 0
    &&& forall|i: int, j: int| 0 <= i < j < descs.len() ==> descs[i].name@ != descs[j].name@
}

/// Dependency entry `d` of candidate `p`.
pub open spec fn dep(descs: Seq<PluginInfo>, p: int, d: int) -> crate::descriptor::Dependency {
    descs[p].dependencies@[d]
}

/// How many dependency entries candidate `p` declares.
pub open spec fn dep_count(descs: Seq<PluginInfo>, p: int) -> int {
    descs[p].dependencies@.len() as int
}

/// A dependency entry the orderer honours: required kind, non-empty name.
/// (Entries with empty names are inert; see the descriptor module.)
pub open spec fn required_dep(descs: Seq<PluginInfo>, p: int, d: int) -> bool {
    dep(descs, p, d).name@.len() > 0 && dep(descs, p, d).kind == DEP_TYPE_REQUIRED
}

/// Some candidate carries `name`.
pub open spec fn has_plugin(descs: Seq<PluginInfo>, name: Seq<char>) -> bool {
    exists|q: int| 0 <= q < descs.len() && (#[trigger] descs[q].name@) == name
}

/// Candidate `q` stands somewhere before position `j` of `order`.
pub open spec fn in_prefix(order: Seq<usize>, q: int, j: int) -> bool {
    exists|k: int| 0 <= k < j && #[trigger] order[k] == q
}

/// Candidate `q` stands somewhere in `order`.
pub open spec fn placed(order: Seq<usize>, q: int) -> bool {
    in_prefix(order, q, order.len() as int)
}

/// Candidate `i` is listed among the failures.
pub open spec fn listed_failed(failed: Seq<LoadFailure>, i: int) -> bool {
    exists|k: int| 0 <= k < failed.len() && (#[trigger] failed[k]).index == i
}

/// Dependency entry `d` of the plugin at position `j` is honoured by
/// `order`: a required dependency has a candidate placed before `j`, and any
/// placed candidate it names — required or optional — stands before `j`.
pub open spec fn dep_satisfied_at(descs: Seq<PluginInfo>, order: Seq<usize>, j: int, d: int) -> bool {
    let p = order[j] as int;
    let dp = dep(descs, p, d);
    dp.name@.len() > 0 ==> {
        &&& (dp.kind == DEP_TYPE_REQUIRED ==> exists|q: int|
            0 <= q < descs.len() && (#[trigger] descs[q].name@) == dp.name@ && in_prefix(
                order,
                q,
                j,
            ))
        &&& (forall|q: int|
            0 <= q < descs.len() && (#[trigger] descs[q].name@) == dp.name@ && placed(order, q)
                ==> in_prefix(order, q, j))
    }
}

/// Every plugin in `order` stands after everything it depends on.
pub open spec fn deps_respected(descs: Seq<PluginInfo>, order: Seq<usize>) -> bool {
    forall|j: int, d: int|
        0 <= j < order.len() && 0 <= d < dep_count(descs, order[j] as int)
            ==> #[trigger] dep_satisfied_at(descs, order, j, d)
}

/// Failure entry `k` is justified. A missing-dependency entry names a
/// required dependency of its plugin for which every candidate (perhaps
/// none) has itself failed; a cycle entry's required dependencies all have
/// candidates — the plugin failed for ordering alone.
pub open spec fn failure_entry_ok(
    descs: Seq<PluginInfo>,
    failed: Seq<LoadFailure>,
    k: int,
) -> bool {
    let i = failed[k].index as int;
    match failed[k].error {
        LoadError::MissingRequiredDependency { name } => exists|d: int|
            0 <= d < dep_count(descs, i) && #[trigger] required_dep(descs, i, d) && dep(
                descs,
                i,
                d,
            ).name@ == name@ && (forall|q: int|
                0 <= q < descs.len() && (#[trigger] descs[q].name@) == name@ ==> exists|kk: int|
                    0 <= kk < k && (#[trigger] failed[kk]).index == q
                        && failed[kk].error is MissingRequiredDependency),
        LoadError::DependencyCycle => {
            &&& (forall|d: int|
                0 <= d < dep_count(descs, i) && #[trigger] required_dep(descs, i, d)
                    ==> has_plugin(descs, dep(descs, i, d).name@))
            &&& (exists|d: int|
                0 <= d < dep_count(descs, i) && (#[trigger] dep(descs, i, d).name@).len() > 0
                    && (exists|q: int|
                    0 <= q < descs.len() && (#[trigger] descs[q].name@) == dep(descs, i, d).name@
                        && listed_failed(failed, q)))
        },
    }
}

/// The plan covers the candidate set: indices are in range, appear at most
/// once, and every candidate is either placed or failed, never both.
pub open spec fn plan_partitions(descs: Seq<PluginInfo>, plan: LoadPlan) -> bool {
    &&& forall|k: int| 0 <= k < plan.order@.len() ==> (#[trigger] plan.order@[k]) < descs.len()
    &&& forall|k1: int, k2: int|
        0 <= k1 < k2 < plan.order@.len() ==> plan.order@[k1] != plan.order@[k2]
    &&& forall|k: int|
        0 <= k < plan.failed@.len() ==> (#[trigger] plan.failed@[k]).index < descs.len()
    &&& forall|k1: int, k2: int|
        0 <= k1 < k2 < plan.failed@.len() ==> plan.failed@[k1].index != plan.failed@[k2].index
    &&& forall|i: int|
        0 <= i < descs.len() ==> (placed(plan.order@, i) <==> !listed_failed(plan.failed@, i))
}

/// The priority bucket a declared priority denotes; unrecognized values
/// count as the default bucket.
pub open spec fn bucket(p: i8) -> int {
    if p == PRIORITY_FIRST {
        0
    } else if p == PRIORITY_LATER {
        2
    } else {
        1
    }
}

/// The deterministic tie-break: first the priority bucket, then discovery
/// order.
pub open spec fn key_lt(descs: Seq<PluginInfo>, a: int, b: int) -> bool {
    bucket(descs[a].priority) < bucket(descs[b].priority) || (bucket(descs[a].priority) == bucket(
        descs[b].priority,
    ) && a < b)
}

/// No candidate declares any dependency the orderer would honour.
pub open spec fn no_active_deps(descs: Seq<PluginInfo>) -> bool {
    forall|p: int, d: int|
        0 <= p < descs.len() && 0 <= d < dep_count(descs, p) ==> (#[trigger] dep(
            descs,
            p,
            d,
        ).name@).len() == 0
}

/// `order` lists candidates in strictly ascending tie-break key.
pub open spec fn priority_sorted(descs: Seq<PluginInfo>, order: Seq<usize>) -> bool {
    forall|k1: int, k2: int|
        0 <= k1 < k2 < order.len() ==> key_lt(descs, order[k1] as int, order[k2] as int)
}

/// How many entries of `s` hold `v`; the orderer's termination measure.
spec fn count_status(s: Seq<u8>, v: u8) -> nat
    decreases s.len(),
{
    if s.len() == 0 {
        0
    } else {
        count_status(s.drop_last(), v) + if s.last() == v {
            1nat
        } else {
            0nat
        }
    }
}

/// Point update of one status: the count of the old value drops by one, the
/// count of the new value rises by one, other counts stand.
proof fn lemma_count_update(s: Seq<u8>, i: int, nv: u8, v: u8)
    requires
        0 <= i < s.len(),
        s[i] != nv,
    ensures
        s[i] == v ==> count_status(s.update(i, nv), v) + 1 == count_status(s, v),
        nv == v ==> count_status(s.update(i, nv), v) == count_status(s, v) + 1,
        s[i] != v && nv != v ==> count_status(s.update(i, nv), v) == count_status(s, v),
    decreases s.len(),
{
    let t = s.update(i, nv);
    if i == s.len() - 1 {
        assert(t.drop_last() =~= s.drop_last());
        assert(t.last() == nv);
    } else {
        assert(t.drop_last() =~= s.drop_last().update(i, nv));
        assert(t.last() == s.last());
        lemma_count_update(s.drop_last(), i, nv, v);
    }
}

/// The status a candidate holds while the orderer runs.
const PENDING: u8 = 0;

/// Status of a candidate already placed in the order.
const PLACED: u8 = 1;

/// Status of a candidate recorded as failed.
const FAILED: u8 = 2;

/// Dependency entry `d` of pending candidate `p` does not block `p`: it is
/// inert, or every candidate it names is placed (an optional entry also
/// steps aside for a failed candidate), and a required entry has one.
spec fn dep_ready(descs: Seq<PluginInfo>, statuses: Seq<u8>, p: int, d: int) -> bool {
    let dp = dep(descs, p, d);
    dp.name@.len() > 0 ==> {
        &&& (dp.kind == DEP_TYPE_REQUIRED ==> exists|q: int|
            0 <= q < descs.len() && (#[trigger] descs[q].name@) == dp.name@)
        &&& (forall|q: int|
            0 <= q < descs.len() && (#[trigger] descs[q].name@) == dp.name@ ==> (statuses[q]
                == PLACED || (dp.kind != DEP_TYPE_REQUIRED && statuses[q] == FAILED)))
    }
}

/// Candidate `p` could be placed next.
spec fn ready(descs: Seq<PluginInfo>, statuses: Seq<u8>, p: int) -> bool {
    forall|d: int| 0 <= d < dep_count(descs, p) ==> #[trigger] dep_ready(descs, statuses, p, d)
}

/// No required dependency of `p` is lost: each has a candidate that has not
/// failed.
spec fn no_missing_violation(descs: Seq<PluginInfo>, statuses: Seq<u8>, p: int) -> bool {
    forall|d: int|
        0 <= d < dep_count(descs, p) && #[trigger] required_dep(descs, p, d) ==> exists|q: int|
            0 <= q < descs.len() && (#[trigger] descs[q].name@) == dep(descs, p, d).name@
                && statuses[q] != FAILED
}

/// Every required dependency of `p` names some candidate, whatever its
/// state: the static part of `no_missing_violation`.
spec fn required_have_candidates(descs: Seq<PluginInfo>, p: int) -> bool {
    forall|d: int|
        0 <= d < dep_count(descs, p) && #[trigger] required_dep(descs, p, d) ==> has_plugin(
            descs,
            dep(descs, p, d).name@,
        )
}

/// Some dependency of `p` names a candidate that is pending or failed: `p`
/// cannot be placed now and never becomes placeable, since no candidate
/// leaves those two states once placements have stopped.
spec fn blocked(descs: Seq<PluginInfo>, statuses: Seq<u8>, p: int) -> bool {
    exists|d: int|
        0 <= d < dep_count(descs, p) && (#[trigger] dep(descs, p, d).name@).len() > 0 && (exists|
            q: int,
        |
            0 <= q < descs.len() && (#[trigger] descs[q].name@) == dep(descs, p, d).name@ && (
            statuses[q] == PENDING || statuses[q] == FAILED))
}

/// Failure entry `k` as the cycle-marking pass maintains it: a cycle entry's
/// blocking candidate may still be pending, about to be marked failed itself.
spec fn failure_entry_mid(
    descs: Seq<PluginInfo>,
    statuses: Seq<u8>,
    failed: Seq<LoadFailure>,
    k: int,
) -> bool {
    let i = failed[k].index as int;
    match failed[k].error {
        LoadError::MissingRequiredDependency { name: _ } => failure_entry_ok(descs, failed, k),
        LoadError::DependencyCycle => required_have_candidates(descs, i) && blocked(
            descs,
            statuses,
            i,
        ),
    }
}

/// The orderer's running state ties statuses to the order and failure lists.
spec fn state_inv(
    descs: Seq<PluginInfo>,
    statuses: Seq<u8>,
    order: Seq<usize>,
    failed: Seq<LoadFailure>,
) -> bool {
    &&& statuses.len() == descs.len()
    &&& forall|i: int|
        0 <= i < statuses.len() ==> (#[trigger] statuses[i] == PENDING || statuses[i] == PLACED
            || statuses[i] == FAILED)
    &&& forall|k: int| 0 <= k < order.len() ==> (#[trigger] order[k]) < descs.len()
    &&& forall|k1: int, k2: int| 0 <= k1 < k2 < order.len() ==> order[k1] != order[k2]
    &&& forall|k: int| 0 <= k < failed.len() ==> (#[trigger] failed[k]).index < descs.len()
    &&& forall|k1: int, k2: int|
        0 <= k1 < k2 < failed.len() ==> failed[k1].index != failed[k2].index
    &&& forall|i: int|
        0 <= i < descs.len() ==> ((#[trigger] statuses[i]) == PLACED <==> placed(order, i))
    &&& forall|i: int|
        0 <= i < descs.len() ==> ((#[trigger] statuses[i]) == FAILED <==> listed_failed(
            failed,
            i,
        ))
    &&& forall|j: int, d: int|
        0 <= j < order.len() && 0 <= d < dep_count(descs, order[j] as int)
            ==> #[trigger] dep_placed_ok(descs, statuses, order, j, d)
}

/// While the orderer runs: dependency `d` of the plugin at position `j` is
/// honoured, counting a failed candidate as permanently out of the order.
spec fn dep_placed_ok(
    descs: Seq<PluginInfo>,
    statuses: Seq<u8>,
    order: Seq<usize>,
    j: int,
    d: int,
) -> bool {
    let p = order[j] as int;
    let dp = dep(descs, p, d);
    dp.name@.len() > 0 ==> {
        &&& (dp.kind == DEP_TYPE_REQUIRED ==> exists|q: int|
            0 <= q < descs.len() && (#[trigger] descs[q].name@) == dp.name@ && in_prefix(
                order,
                q,
                j,
            ))
        &&& (forall|q: int|
            0 <= q < descs.len() && (#[trigger] descs[q].name@) == dp.name@ ==> (in_prefix(
                order,
                q,
                j,
            ) || statuses[q] == FAILED))
    }
}

/// Index of the candidate named `name`, if any.
fn find_plugin(descs: &Vec<PluginInfo>, name: &String) -> (r: Option<usize>)
    ensures
        match r {
            Some(q) => q < descs@.len() && descs@[q as int].name@ == name@,
            None => !has_plugin(descs@, name@),
        },
{
    let mut q: usize = 0;
    while q < descs.len()
        invariant
            q <= descs@.len(),
            forall|j: int| 0 <= j < q ==> (#[trigger] descs@[j].name@) != name@,
        decreases descs@.len() - q,
    {
        if descs[q].name == *name {
            return Some(q);
        }
        q = q + 1;
    }
    None
}

/// The bucket of a declared priority, as the tie-break compares it.
fn bucket_of(p: i8) -> (b: u8)
    ensures
        b as int == bucket(p),
{
    if p == PRIORITY_FIRST {
        0
    } else if p == PRIORITY_LATER {
        2
    } else {
        1
    }
}

/// Looks for a required dependency of pending candidate `p` that can no
/// longer be satisfied: one whose candidates (perhaps none) have all failed.
fn missing_violation(descs: &Vec<PluginInfo>, statuses: &Vec<u8>, p: usize) -> (r: Option<usize>)
    requires
        names_ok(descs@),
        statuses@.len() == descs@.len(),
        p < descs@.len(),
    ensures
        match r {
            Some(d) => d < dep_count(descs@, p as int) && required_dep(descs@, p as int, d as int)
                && (forall|q: int|
                0 <= q < descs@.len() && (#[trigger] descs@[q].name@) == dep(
                    descs@,
                    p as int,
                    d as int,
                ).name@ ==> statuses@[q] == FAILED),
            None => no_missing_violation(descs@, statuses@, p as int),
        },
{
    let deps = &descs[p].dependencies;
    let mut d: usize = 0;
    while d < deps.len()
        invariant
            names_ok(descs@),
            statuses@.len() == descs@.len(),
            p < descs@.len(),
            deps@ == descs@[p as int].dependencies@,
            d <= deps@.len(),
            forall|dd: int|
                0 <= dd < d && #[trigger] required_dep(descs@, p as int, dd) ==> exists|q: int|
                    0 <= q < descs@.len() && (#[trigger] descs@[q].name@) == dep(
                        descs@,
                        p as int,
                        dd,
                    ).name@ && statuses@[q] != FAILED,
        decreases deps@.len() - d,
    {
        let entry = &deps[d];
        if entry.kind == DEP_TYPE_REQUIRED && !entry.name.as_str().is_empty() {
            match find_plugin(descs, &entry.name) {
                None => {
                    return Some(d);
                },
                Some(q) => {
                    if statuses[q] == FAILED {
                        proof {
                            assert forall|q2: int|
                                0 <= q2 < descs@.len() && descs@[q2].name@ == dep(
                                    descs@,
                                    p as int,
                                    d as int,
                                ).name@ implies statuses@[q2] == FAILED by {
                                if q2 != q as int {
                                    assert(descs@[q2].name@ != descs@[q as int].name@);
                                }
                            }
                        }
                        return Some(d);
                    }
                },
            }
        }
        d = d + 1;
    }
    None
}

/// Whether every dependency of pending candidate `p` is resolved, so `p`
/// could be placed next.
fn deps_ready(descs: &Vec<PluginInfo>, statuses: &Vec<u8>, p: usize) -> (r: bool)
    requires
        names_ok(descs@),
        statuses@.len() == descs@.len(),
        p < descs@.len(),
    ensures
        r == ready(descs@, statuses@, p as int),
{
    let deps = &descs[p].dependencies;
    let mut d: usize = 0;
    while d < deps.len()
        invariant
            names_ok(descs@),
            statuses@.len() == descs@.len(),
            p < descs@.len(),
            deps@ == descs@[p as int].dependencies@,
            d <= deps@.len(),
            forall|dd: int| 0 <= dd < d ==> #[trigger] dep_ready(descs@, statuses@, p as int, dd),
        decreases deps@.len() - d,
    {
        let entry = &deps[d];
        if !entry.name.as_str().is_empty() {
            match find_plugin(descs, &entry.name) {
                None => {
                    if entry.kind == DEP_TYPE_REQUIRED {
                        proof {
                            assert(!dep_ready(descs@, statuses@, p as int, d as int));
                        }
                        return false;
                    }
                    proof {
                        assert(dep_ready(descs@, statuses@, p as int, d as int));
                    }
                },
                Some(q) => {
                    let ok = statuses[q] == PLACED || (entry.kind != DEP_TYPE_REQUIRED
                        && statuses[q] == FAILED);
                    proof {
                        assert forall|q2: int|
                            0 <= q2 < descs@.len() && descs@[q2].name@ == dep(
                                descs@,
                                p as int,
                                d as int,
                            ).name@ implies q2 == q as int by {
                            if q2 != q as int {
                                assert(descs@[q2].name@ != descs@[q as int].name@);
                            }
                        }
                    }
                    if !ok {
                        proof {
                            assert(!dep_ready(descs@, statuses@, p as int, d as int));
                        }
                        return false;
                    }
                },
            }
        }
        d = d + 1;
    }
    true
}

/// Computes the load plan for a validated candidate set. The order honours
/// every declared dependency (`deps_respected`); every candidate lands in
/// the order or among the failures with a justified reason
/// (`plan_partitions`, `failure_entry_ok`); and when no candidate declares
/// a dependency, the plan is every candidate, sorted by priority bucket and
/// then discovery order — the tie-break is observable exactly then.
pub fn compute_load_plan(descs: &Vec<PluginInfo>) -> (plan: LoadPlan)
    requires
        names_ok(descs@),
    ensures
        plan_partitions(descs@, plan),
        deps_respected(descs@, plan.order@),
        forall|k: int|
            0 <= k < plan.failed@.len() ==> #[trigger] failure_entry_ok(descs@, plan.failed@, k),
        no_active_deps(descs@) ==> plan.failed@.len() == 0 && priority_sorted(
            descs@,
            plan.order@,
        ),
{
    let n = descs.len();
    let mut statuses: Vec<u8> = Vec::new();
    while statuses.len() < n
        invariant
            statuses@.len() <= n,
            forall|i: int| 0 <= i < statuses@.len() ==> (#[trigger] statuses@[i]) == PENDING,
        decreases n - statuses@.len(),
    {
        statuses.push(PENDING);
    }
    let mut order: Vec<usize> = Vec::new();
    let mut failed: Vec<LoadFailure> = Vec::new();

    // First pass, to a fixed point: fail every pending candidate that has a
    // required dependency whose candidates (perhaps none) have all failed.
    loop
        invariant_except_break
            n == descs@.len(),
            names_ok(descs@),
            order@.len() == 0,
            state_inv(descs@, statuses@, order@, failed@),
            forall|k: int| 0 <= k < failed@.len() ==> #[trigger] failure_entry_ok(descs@, failed@, k),
            forall|k: int|
                0 <= k < failed@.len() ==> (
                #[trigger] failed@[k]).error is MissingRequiredDependency,
            no_active_deps(descs@) ==> failed@.len() == 0,
        ensures
            n == descs@.len(),
            order@.len() == 0,
            state_inv(descs@, statuses@, order@, failed@),
            forall|k: int| 0 <= k < failed@.len() ==> #[trigger] failure_entry_ok(descs@, failed@, k),
            no_active_deps(descs@) ==> failed@.len() == 0,
            forall|p: int|
                0 <= p < n && statuses@[p] == PENDING ==> #[trigger] no_missing_violation(
                    descs@,
                    statuses@,
                    p,
                ),
        decreases count_status(statuses@, PENDING),
    {
        let ghost start = statuses@;
        let mut changed = false;
        let mut p: usize = 0;
        while p < n
            invariant
                p <= n,
                n == descs@.len(),
                names_ok(descs@),
                order@.len() == 0,
                state_inv(descs@, statuses@, order@, failed@),
                forall|k: int|
                    0 <= k < failed@.len() ==> #[trigger] failure_entry_ok(descs@, failed@, k),
                forall|k: int|
                    0 <= k < failed@.len() ==> (
                    #[trigger] failed@[k]).error is MissingRequiredDependency,
                no_active_deps(descs@) ==> failed@.len() == 0,
                !changed ==> statuses@ == start,
                changed ==> count_status(statuses@, PENDING) < count_status(start, PENDING),
                !changed ==> forall|p2: int|
                    0 <= p2 < p && statuses@[p2] == PENDING ==> #[trigger] no_missing_violation(
                        descs@,
                        statuses@,
                        p2,
                    ),
            decreases n - p,
        {
            if statuses[p] == PENDING {
                match missing_violation(descs, &statuses, p) {
                    Some(d) => {
                        let name = descs[p].dependencies[d].name.clone();
                        proof {
                            lemma_count_update(statuses@, p as int, FAILED, PENDING);
                            assert(!no_active_deps(descs@)) by {
                                assert(dep(descs@, p as int, d as int).name@.len() > 0);
                            }
                        }
                        let ghost before = statuses@;
                        let ghost failed_before = failed@;
                        let ghost dep_name = dep(descs@, p as int, d as int).name@;
                        statuses.set(p, FAILED);
                        failed.push(
                            LoadFailure {
                                index: p,
                                error: LoadError::MissingRequiredDependency { name },
                            },
                        );
                        changed = true;
                        proof {
                            let fnow = failed@;
                            let snow = statuses@;
                            assert(forall|k: int|
                                0 <= k < failed_before.len() ==> fnow[k] == failed_before[k]);
                            assert(fnow[fnow.len() - 1].index == p);
                            assert(listed_failed(fnow, p as int)) by {
                                assert((#[trigger] fnow[fnow.len() - 1]).index == p);
                            }
                            assert forall|i: int|
                                0 <= i < descs@.len() implies ((#[trigger] snow[i]) == FAILED
                                <==> listed_failed(fnow, i)) by {
                                if i != p as int {
                                    assert(snow[i] == before[i]);
                                    if listed_failed(fnow, i) {
                                        let k = choose|k: int|
                                            0 <= k < fnow.len() && (#[trigger] fnow[k]).index == i;
                                        assert(k < fnow.len() - 1);
                                        assert(listed_failed(failed_before, i)) by {
                                            assert((#[trigger] failed_before[k]).index == i);
                                        }
                                    }
                                    if listed_failed(failed_before, i) {
                                        let k = choose|k: int|
                                            0 <= k < failed_before.len() && (
                                            #[trigger] failed_before[k]).index == i;
                                        assert((#[trigger] fnow[k]).index == i);
                                    }
                                }
                            }
                            assert forall|k: int|
                                0 <= k < fnow.len() implies #[trigger] failure_entry_ok(
                                descs@,
                                fnow,
                                k,
                            ) by {
                                if k < fnow.len() - 1 {
                                    assert(fnow[k] == failed_before[k]);
                                    assert(failure_entry_ok(descs@, failed_before, k));
                                    match fnow[k].error {
                                        LoadError::MissingRequiredDependency { name: nm } => {
                                            let i = failed_before[k].index as int;
                                            let dd = choose|dd: int|
                                                0 <= dd < dep_count(descs@, i)
                                                    && #[trigger] required_dep(descs@, i, dd)
                                                    && dep(descs@, i, dd).name@ == nm@ && (
                                                forall|q: int|
                                                    0 <= q < descs@.len() && (
                                                    #[trigger] descs@[q].name@) == nm@
                                                        ==> exists|kk: int|
                                                        0 <= kk < k && (
                                                        #[trigger] failed_before[kk]).index == q
                                                            && failed_before[kk].error is MissingRequiredDependency);
                                            assert forall|q: int|
                                                0 <= q < descs@.len() && (
                                                #[trigger] descs@[q].name@) == nm@
                                                implies exists|kk: int|
                                                0 <= kk < k && (#[trigger] fnow[kk]).index == q
                                                    && fnow[kk].error is MissingRequiredDependency by {
                                                let kk = choose|kk: int|
                                                    0 <= kk < k && (
                                                    #[trigger] failed_before[kk]).index == q
                                                        && failed_before[kk].error is MissingRequiredDependency;
                                                assert((#[trigger] fnow[kk]).index == q);
                                            }
                                            assert(required_dep(descs@, i, dd) && dep(
                                                descs@,
                                                i,
                                                dd,
                                            ).name@ == nm@);
                                        },
                                        LoadError::DependencyCycle => {},
                                    }
                                } else {
                                    assert(fnow[k].index == p);
                                    assert(required_dep(descs@, p as int, d as int));
                                    match fnow[k].error {
                                        LoadError::MissingRequiredDependency { name: nm } => {
                                            assert(nm@ == dep_name);
                                            assert forall|q: int|
                                                0 <= q < descs@.len() && (
                                                #[trigger] descs@[q].name@) == nm@
                                                implies exists|kk: int|
                                                0 <= kk < k && (#[trigger] fnow[kk]).index == q
                                                    && fnow[kk].error is MissingRequiredDependency by {
                                                assert(before[q] == FAILED);
                                                assert(listed_failed(failed_before, q));
                                                let kk = choose|kk: int|
                                                    0 <= kk < failed_before.len() && (
                                                    #[trigger] failed_before[kk]).index == q;
                                                assert((#[trigger] fnow[kk]).index == q);
                                                assert(fnow[kk].error is MissingRequiredDependency);
                                            }
                                        },
                                        LoadError::DependencyCycle => {},
                                    }
                                }
                            }
                        }
                    },
                    None => {
                    },
                }
            }
            p = p + 1;
        }
        if !changed {
            break ;
        }
    }

    // Second pass: repeatedly place, among the candidates whose dependencies
    // are all resolved, the one with the lowest priority bucket, breaking
    // ties by discovery order.
    loop
        invariant_except_break
            n == descs@.len(),
            names_ok(descs@),
            state_inv(descs@, statuses@, order@, failed@),
            forall|k: int| 0 <= k < failed@.len() ==> #[trigger] failure_entry_ok(descs@, failed@, k),
            forall|p: int|
                0 <= p < n && statuses@[p] == PENDING ==> #[trigger] no_missing_violation(
                    descs@,
                    statuses@,
                    p,
                ),
            no_active_deps(descs@) ==> failed@.len() == 0,
            no_active_deps(descs@) ==> priority_sorted(descs@, order@),
            no_active_deps(descs@) ==> forall|k: int, q: int|
                #![trigger order@[k], statuses@[q]]
                0 <= k < order@.len() && 0 <= q < n && statuses@[q] == PENDING ==> key_lt(
                    descs@,
                    order@[k] as int,
                    q,
                ),
        ensures
            n == descs@.len(),
            state_inv(descs@, statuses@, order@, failed@),
            forall|k: int| 0 <= k < failed@.len() ==> #[trigger] failure_entry_ok(descs@, failed@, k),
            forall|p: int|
                0 <= p < n && #[trigger] statuses@[p] == PENDING ==> !ready(descs@, statuses@, p)
                    && no_missing_violation(descs@, statuses@, p),
            no_active_deps(descs@) ==> failed@.len() == 0,
            no_active_deps(descs@) ==> priority_sorted(descs@, order@),
            no_active_deps(descs@) ==> forall|q: int|
                0 <= q < n ==> #[trigger] statuses@[q] != PENDING,
        decreases count_status(statuses@, PENDING),
    {
        // Select the best ready pending candidate, if any.
        let mut best: usize = n;
        let mut best_bucket: u8 = 3;
        let mut p: usize = 0;
        while p < n
            invariant
                p <= n,
                n == descs@.len(),
                names_ok(descs@),
                statuses@.len() == n,
                best == n || best < p,
                best == n ==> forall|p2: int|
                    0 <= p2 < p && statuses@[p2] == PENDING ==> !(#[trigger] ready(
                        descs@,
                        statuses@,
                        p2,
                    )),
                best < n ==> statuses@[best as int] == PENDING && ready(
                    descs@,
                    statuses@,
                    best as int,
                ) && best_bucket as int == bucket(descs@[best as int].priority),
                best < n ==> forall|p2: int|
                    0 <= p2 < p && p2 != best && statuses@[p2] == PENDING && #[trigger] ready(
                        descs@,
                        statuses@,
                        p2,
                    ) ==> key_lt(descs@, best as int, p2),
            decreases n - p,
        {
            if statuses[p] == PENDING && deps_ready(descs, &statuses, p) {
                let b = bucket_of(descs[p].priority);
                if best == n || b < best_bucket {
                    best = p;
                    best_bucket = b;
                }
            }
            p = p + 1;
        }
        if best == n {
            proof {
                assert forall|q: int|
                    0 <= q < n && statuses@[q] == PENDING implies !(#[trigger] ready(
                    descs@,
                    statuses@,
                    q,
                )) by {}
                if no_active_deps(descs@) {
                    assert forall|q: int| 0 <= q < n implies #[trigger] statuses@[q] != PENDING by {
                        if statuses@[q] == PENDING {
                            assert forall|d: int|
                                0 <= d < dep_count(descs@, q) implies #[trigger] dep_ready(
                                descs@,
                                statuses@,
                                q,
                                d,
                            ) by {
                                assert(dep(descs@, q, d).name@.len() == 0);
                            }
                            assert(ready(descs@, statuses@, q));
                        }
                    }
                }
            }
            break ;
        }
        // Place it.
        let ghost before = statuses@;
        let ghost order_before = order@;
        proof {
            lemma_count_update(statuses@, best as int, PLACED, PENDING);
        }
        order.push(best);
        statuses.set(best, PLACED);
        proof {
            let snow = statuses@;
            let onow = order@;
            let j = onow.len() - 1;
            assert(onow.drop_last() =~= order_before);
            assert(forall|k: int| 0 <= k < j ==> onow[k] == order_before[k]);
            // The new entry is fresh: it was pending before.
            assert forall|k: int| 0 <= k < j implies onow[k] != best by {
                assert(placed(order_before, onow[k] as int)) by {
                    assert(order_before[k] == onow[k]);
                }
            }
            // Placed-status correspondence.
            assert forall|i: int|
                0 <= i < descs@.len() implies ((#[trigger] snow[i]) == PLACED <==> placed(
                onow,
                i,
            )) by {
                if i == best as int {
                    assert(onow[j] == best);
                } else {
                    if placed(onow, i) {
                        let k = choose|k: int| 0 <= k < onow.len() && (#[trigger] onow[k]) == i;
                        assert(k < j);
                        assert(placed(order_before, i)) by {
                            assert(order_before[k] == i);
                        }
                    }
                    if placed(order_before, i) {
                        let k = choose|k: int|
                            0 <= k < order_before.len() && (#[trigger] order_before[k]) == i;
                        assert(onow[k] == i);
                    }
                }
            }
            // Failed-status correspondence: no status moved to or from
            // FAILED, and the failure list is untouched.
            assert forall|i: int|
                0 <= i < descs@.len() implies ((#[trigger] snow[i]) == FAILED <==> listed_failed(
                failed@,
                i,
            )) by {
                if i != best as int {
                    assert(snow[i] == before[i]);
                }
            }
            // Dependency justification for every position, the new one from
            // readiness of `best`.
            assert forall|jj: int, d: int|
                0 <= jj < onow.len() && 0 <= d < dep_count(descs@, onow[jj] as int)
                implies #[trigger] dep_placed_ok(descs@, snow, onow, jj, d) by {
                let pp = onow[jj] as int;
                let dp = dep(descs@, pp, d);
                if dp.name@.len() > 0 {
                    if jj < j {
                        assert(dep_placed_ok(descs@, before, order_before, jj, d));
                        assert forall|q: int|
                            0 <= q < descs@.len() && (#[trigger] descs@[q].name@) == dp.name@
                            implies (in_prefix(onow, q, jj) || snow[q] == FAILED) by {
                            if in_prefix(order_before, q, jj) {
                                let k = choose|k: int|
                                    0 <= k < jj && #[trigger] order_before[k] == q;
                                assert(onow[k] == q);
                            }
                        }
                        if dp.kind == DEP_TYPE_REQUIRED {
                            let q = choose|q: int|
                                0 <= q < descs@.len() && (#[trigger] descs@[q].name@) == dp.name@
                                    && in_prefix(order_before, q, jj);
                            let k = choose|k: int| 0 <= k < jj && #[trigger] order_before[k] == q;
                            assert(onow[k] == q);
                            assert(in_prefix(onow, q, jj));
                        }
                    } else {
                        assert(pp == best as int);
                        assert(ready(descs@, before, pp));
                        assert(dep_ready(descs@, before, pp, d));
                        assert forall|q: int|
                            0 <= q < descs@.len() && (#[trigger] descs@[q].name@) == dp.name@
                            implies (in_prefix(onow, q, j) || snow[q] == FAILED) by {
                            if before[q] == PLACED {
                                assert(placed(order_before, q));
                                let k = choose|k: int|
                                    0 <= k < order_before.len() && (#[trigger] order_before[k])
                                        == q;
                                assert(onow[k] == q);
                            }
                        }
                        if dp.kind == DEP_TYPE_REQUIRED {
                            let q = choose|q: int|
                                0 <= q < descs@.len() && (#[trigger] descs@[q].name@) == dp.name@;
                            assert(before[q] == PLACED);
                            assert(placed(order_before, q));
                            let k = choose|k: int|
                                0 <= k < order_before.len() && (#[trigger] order_before[k]) == q;
                            assert(onow[k] == q);
                            assert(in_prefix(onow, q, j));
                        }
                    }
                }
            }
            // Pending candidates keep their missing-violation freedom, and
            // failure entries stay justified: no status moved to FAILED.
            assert forall|pp: int|
                0 <= pp < n && snow[pp] == PENDING implies #[trigger] no_missing_violation(
                descs@,
                snow,
                pp,
            ) by {
                assert(before[pp] == PENDING);
                assert(no_missing_violation(descs@, before, pp));
                assert forall|d: int|
                    0 <= d < dep_count(descs@, pp) && #[trigger] required_dep(descs@, pp, d)
                    implies exists|q: int|
                    0 <= q < descs@.len() && (#[trigger] descs@[q].name@) == dep(
                        descs@,
                        pp,
                        d,
                    ).name@ && snow[q] != FAILED by {
                    let q = choose|q: int|
                        0 <= q < descs@.len() && (#[trigger] descs@[q].name@) == dep(
                            descs@,
                            pp,
                            d,
                        ).name@ && before[q] != FAILED;
                    assert(snow[q] != FAILED);
                }
            }
            // Failure entries are untouched, and their justification reads
            // only the failure list itself, so it carries over as it is.
            // Priority ordering, observable when nothing declares an edge.
            if no_active_deps(descs@) {
                assert forall|k1: int, k2: int|
                    0 <= k1 < k2 < onow.len() implies key_lt(
                    descs@,
                    onow[k1] as int,
                    onow[k2] as int,
                ) by {
                    if k2 == j {
                        assert(order_before[k1] == onow[k1]);
                    }
                }
                assert forall|k: int, q: int|
                    #![trigger onow[k], snow[q]]
                    0 <= k < onow.len() && 0 <= q < n && snow[q] == PENDING implies key_lt(
                    descs@,
                    onow[k] as int,
                    q,
                ) by {
                    assert(before[q] == PENDING);
                    if k == j {
                        assert(ready(descs@, before, q)) by {
                            assert forall|d: int|
                                0 <= d < dep_count(descs@, q) implies #[trigger] dep_ready(
                                descs@,
                                before,
                                q,
                                d,
                            ) by {
                                assert(dep(descs@, q, d).name@.len() == 0);
                            }
                        }
                        assert(key_lt(descs@, best as int, q));
                    } else {
                        assert(order_before[k] == onow[k]);
                    }
                }
            }
        }
    }

    proof {
        assert forall|p2: int|
            0 <= p2 < n && #[trigger] statuses@[p2] == PENDING implies required_have_candidates(
            descs@,
            p2,
        ) by {
            assert(no_missing_violation(descs@, statuses@, p2));
            assert forall|d: int|
                0 <= d < dep_count(descs@, p2) && #[trigger] required_dep(descs@, p2, d)
                implies has_plugin(descs@, dep(descs@, p2, d).name@) by {
                let q = choose|q: int|
                    0 <= q < descs@.len() && (#[trigger] descs@[q].name@) == dep(
                        descs@,
                        p2,
                        d,
                    ).name@ && statuses@[q] != FAILED;
            }
        }
        // A pending candidate is blocked: one of its dependencies names a
        // candidate that is itself pending or failed, and stays so.
        assert forall|p2: int|
            0 <= p2 < n && #[trigger] statuses@[p2] == PENDING implies blocked(
            descs@,
            statuses@,
            p2,
        ) by {
            assert(!ready(descs@, statuses@, p2));
            let d = choose|d: int|
                0 <= d < dep_count(descs@, p2) && !(#[trigger] dep_ready(descs@, statuses@, p2, d));
            let dp = dep(descs@, p2, d);
            assert(dp.name@.len() > 0);
            if dp.kind == DEP_TYPE_REQUIRED && !has_plugin(descs@, dp.name@) {
                assert(required_dep(descs@, p2, d));
                let q0 = choose|q: int|
                    0 <= q < descs@.len() && (#[trigger] descs@[q].name@) == dp.name@
                        && statuses@[q] != FAILED;
                assert(false);
            }
            let q = choose|q: int|
                0 <= q < descs@.len() && (#[trigger] descs@[q].name@) == dp.name@ && !(statuses@[q]
                    == PLACED || (dp.kind != DEP_TYPE_REQUIRED && statuses@[q] == FAILED));
            assert(statuses@[q] == PENDING || statuses@[q] == FAILED);
        }
        // Every failure entry so far holds in the marking pass's form: a
        // listed blocking candidate is in particular a failed one.
        assert forall|k: int|
            0 <= k < failed@.len() implies #[trigger] failure_entry_mid(
            descs@,
            statuses@,
            failed@,
            k,
        ) by {
            assert(failure_entry_ok(descs@, failed@, k));
            match failed@[k].error {
                LoadError::MissingRequiredDependency { name: _ } => {},
                LoadError::DependencyCycle => {
                    let i = failed@[k].index as int;
                    let d = choose|d: int|
                        0 <= d < dep_count(descs@, i) && (#[trigger] dep(
                            descs@,
                            i,
                            d,
                        ).name@).len() > 0 && (exists|q: int|
                            0 <= q < descs@.len() && (#[trigger] descs@[q].name@) == dep(
                                descs@,
                                i,
                                d,
                            ).name@ && listed_failed(failed@, q));
                    let q = choose|q: int|
                        0 <= q < descs@.len() && (#[trigger] descs@[q].name@) == dep(
                            descs@,
                            i,
                            d,
                        ).name@ && listed_failed(failed@, q);
                    assert(statuses@[q] == FAILED);
                },
            }
        }
    }

    // Whatever is still pending waits on a cycle: mark it failed.
    let mut p: usize = 0;
    while p < n
        invariant
            p <= n,
            n == descs@.len(),
            names_ok(descs@),
            state_inv(descs@, statuses@, order@, failed@),
            forall|k: int|
                0 <= k < failed@.len() ==> #[trigger] failure_entry_mid(
                    descs@,
                    statuses@,
                    failed@,
                    k,
                ),
            forall|p2: int|
                0 <= p2 < n && #[trigger] statuses@[p2] == PENDING ==> required_have_candidates(
                    descs@,
                    p2,
                ) && blocked(descs@, statuses@, p2),
            forall|p2: int| 0 <= p2 < p ==> #[trigger] statuses@[p2] != PENDING,
            no_active_deps(descs@) ==> failed@.len() == 0 && priority_sorted(descs@, order@)
                && forall|q: int| 0 <= q < n ==> #[trigger] statuses@[q] != PENDING,
        decreases n - p,
    {
        if statuses[p] == PENDING {
            let ghost before = statuses@;
            let ghost failed_before = failed@;
            proof {
                assert(required_have_candidates(descs@, p as int));
            }
            statuses.set(p, FAILED);
            failed.push(LoadFailure { index: p, error: LoadError::DependencyCycle });
            proof {
                let snow = statuses@;
                let fnow = failed@;
                assert(forall|k: int|
                    0 <= k < failed_before.len() ==> fnow[k] == failed_before[k]);
                assert(listed_failed(fnow, p as int)) by {
                    assert((#[trigger] fnow[fnow.len() - 1]).index == p);
                }
                // `p` was pending, so no earlier failure entry carries it.
                assert(!listed_failed(failed_before, p as int));
                assert forall|k1: int, k2: int|
                    0 <= k1 < k2 < fnow.len() implies fnow[k1].index != fnow[k2].index by {
                    if k2 == fnow.len() - 1 {
                        assert((#[trigger] failed_before[k1]).index != p);
                    }
                }
                // Statuses other than `p` are untouched.
                assert forall|i: int|
                    0 <= i < descs@.len() implies ((#[trigger] snow[i]) == PLACED <==> placed(
                    order@,
                    i,
                )) by {
                    if i != p as int {
                        assert(snow[i] == before[i]);
                    }
                }
                // Placement justifications only gain FAILED statuses.
                assert forall|j: int, d: int|
                    0 <= j < order@.len() && 0 <= d < dep_count(descs@, order@[j] as int)
                    implies #[trigger] dep_placed_ok(descs@, snow, order@, j, d) by {
                    assert(dep_placed_ok(descs@, before, order@, j, d));
                    let pp = order@[j] as int;
                    let dp = dep(descs@, pp, d);
                    if dp.name@.len() > 0 {
                        assert forall|q: int|
                            0 <= q < descs@.len() && (#[trigger] descs@[q].name@) == dp.name@
                            implies (in_prefix(order@, q, j) || snow[q] == FAILED) by {
                            if before[q] == FAILED {
                                assert(snow[q] == FAILED);
                            }
                        }
                    }
                }
                assert forall|i: int|
                    0 <= i < descs@.len() implies ((#[trigger] snow[i]) == FAILED <==> listed_failed(
                    fnow,
                    i,
                )) by {
                    if i != p as int {
                        if listed_failed(fnow, i) {
                            let k = choose|k: int|
                                0 <= k < fnow.len() && (#[trigger] fnow[k]).index == i;
                            assert(k < fnow.len() - 1);
                            assert(listed_failed(failed_before, i)) by {
                                assert(failed_before[k].index == i);
                            }
                        }
                        if listed_failed(failed_before, i) {
                            let k = choose|k: int|
                                0 <= k < failed_before.len() && (#[trigger] failed_before[k]).index
                                    == i;
                            assert(fnow[k].index == i);
                        }
                    }
                }
                // The new cycle entry is justified: every required
                // dependency of `p` has a candidate — it merely failed or
                // waits in the cycle — and something blocks `p`. Older
                // entries only reference earlier entries, which pushing
                // leaves in place, and a blocking candidate can only move
                // from pending to failed.
                assert forall|k: int|
                    0 <= k < fnow.len() implies #[trigger] failure_entry_mid(
                    descs@,
                    snow,
                    fnow,
                    k,
                ) by {
                    if k < fnow.len() - 1 {
                        assert(fnow[k] == failed_before[k]);
                        assert(failure_entry_mid(descs@, before, failed_before, k));
                        match fnow[k].error {
                            LoadError::MissingRequiredDependency { name: nm } => {
                                let i = failed_before[k].index as int;
                                let dd = choose|dd: int|
                                    0 <= dd < dep_count(descs@, i) && #[trigger] required_dep(
                                        descs@,
                                        i,
                                        dd,
                                    ) && dep(descs@, i, dd).name@ == nm@ && (forall|q: int|
                                        0 <= q < descs@.len() && (#[trigger] descs@[q].name@)
                                            == nm@ ==> exists|kk: int|
                                            0 <= kk < k && (#[trigger] failed_before[kk]).index
                                                == q
                                                && failed_before[kk].error is MissingRequiredDependency);
                                assert forall|q: int|
                                    0 <= q < descs@.len() && (#[trigger] descs@[q].name@) == nm@
                                    implies exists|kk: int|
                                    0 <= kk < k && (#[trigger] fnow[kk]).index == q
                                        && fnow[kk].error is MissingRequiredDependency by {
                                    let kk = choose|kk: int|
                                        0 <= kk < k && (#[trigger] failed_before[kk]).index == q
                                            && failed_before[kk].error is MissingRequiredDependency;
                                    assert((#[trigger] fnow[kk]).index == q);
                                }
                                assert(required_dep(descs@, i, dd) && dep(descs@, i, dd).name@
                                    == nm@);
                                assert(failure_entry_ok(descs@, fnow, k));
                            },
                            LoadError::DependencyCycle => {
                                let i = failed_before[k].index as int;
                                let d = choose|d: int|
                                    0 <= d < dep_count(descs@, i) && (#[trigger] dep(
                                        descs@,
                                        i,
                                        d,
                                    ).name@).len() > 0 && (exists|q: int|
                                        0 <= q < descs@.len() && (#[trigger] descs@[q].name@)
                                            == dep(descs@, i, d).name@ && (before[q] == PENDING
                                            || before[q] == FAILED));
                                let q = choose|q: int|
                                    0 <= q < descs@.len() && (#[trigger] descs@[q].name@) == dep(
                                        descs@,
                                        i,
                                        d,
                                    ).name@ && (before[q] == PENDING || before[q] == FAILED);
                                assert(snow[q] == PENDING || snow[q] == FAILED);
                            },
                        }
                    } else {
                        assert(fnow[k].index == p);
                        assert(required_have_candidates(descs@, p as int));
                        assert(blocked(descs@, before, p as int));
                        let d = choose|d: int|
                            0 <= d < dep_count(descs@, p as int) && (#[trigger] dep(
                                descs@,
                                p as int,
                                d,
                            ).name@).len() > 0 && (exists|q: int|
                                0 <= q < descs@.len() && (#[trigger] descs@[q].name@) == dep(
                                    descs@,
                                    p as int,
                                    d,
                                ).name@ && (before[q] == PENDING || before[q] == FAILED));
                        let q = choose|q: int|
                            0 <= q < descs@.len() && (#[trigger] descs@[q].name@) == dep(
                                descs@,
                                p as int,
                                d,
                            ).name@ && (before[q] == PENDING || before[q] == FAILED);
                        assert(snow[q] == PENDING || snow[q] == FAILED);
                        assert(blocked(descs@, snow, p as int));
                    }
                }
                // Candidate existence is static, and a blocking candidate
                // only moves from pending to failed, so the still-pending
                // candidates stay justified.
                assert forall|p2: int|
                    0 <= p2 < n && #[trigger] snow[p2] == PENDING
                    implies required_have_candidates(descs@, p2) && blocked(
                    descs@,
                    snow,
                    p2,
                ) by {
                    assert(before[p2] == PENDING);
                    assert(blocked(descs@, before, p2));
                    let d = choose|d: int|
                        0 <= d < dep_count(descs@, p2) && (#[trigger] dep(
                            descs@,
                            p2,
                            d,
                        ).name@).len() > 0 && (exists|q: int|
                            0 <= q < descs@.len() && (#[trigger] descs@[q].name@) == dep(
                                descs@,
                                p2,
                                d,
                            ).name@ && (before[q] == PENDING || before[q] == FAILED));
                    let q = choose|q: int|
                        0 <= q < descs@.len() && (#[trigger] descs@[q].name@) == dep(
                            descs@,
                            p2,
                            d,
                        ).name@ && (before[q] == PENDING || before[q] == FAILED);
                    assert(snow[q] == PENDING || snow[q] == FAILED);
                }
            }
        }
        p = p + 1;
    }
    proof {
        assert forall|i: int|
            0 <= i < descs@.len() implies (placed(order@, i) <==> !listed_failed(failed@, i)) by {
            assert(statuses@[i] != PENDING);
        }
        // Nothing is pending any more, so every blocking candidate is
        // failed, hence listed.
        assert forall|k: int|
            0 <= k < failed@.len() implies #[trigger] failure_entry_ok(descs@, failed@, k) by {
            assert(failure_entry_mid(descs@, statuses@, failed@, k));
            match failed@[k].error {
                LoadError::MissingRequiredDependency { name: _ } => {},
                LoadError::DependencyCycle => {
                    let i = failed@[k].index as int;
                    assert(blocked(descs@, statuses@, i));
                    let d = choose|d: int|
                        0 <= d < dep_count(descs@, i) && (#[trigger] dep(
                            descs@,
                            i,
                            d,
                        ).name@).len() > 0 && (exists|q: int|
                            0 <= q < descs@.len() && (#[trigger] descs@[q].name@) == dep(
                                descs@,
                                i,
                                d,
                            ).name@ && (statuses@[q] == PENDING || statuses@[q] == FAILED));
                    let q = choose|q: int|
                        0 <= q < descs@.len() && (#[trigger] descs@[q].name@) == dep(
                            descs@,
                            i,
                            d,
                        ).name@ && (statuses@[q] == PENDING || statuses@[q] == FAILED);
                    assert(statuses@[q] == FAILED);
                    assert(listed_failed(failed@, q));
                },
            }
        }
        assert forall|j: int, d: int|
            0 <= j < order@.len() && 0 <= d < dep_count(descs@, order@[j] as int)
            implies #[trigger] dep_satisfied_at(descs@, order@, j, d) by {
            assert(dep_placed_ok(descs@, statuses@, order@, j, d));
            let pp = order@[j] as int;
            let dp = dep(descs@, pp, d);
            if dp.name@.len() > 0 {
                assert forall|q: int|
                    0 <= q < descs@.len() && (#[trigger] descs@[q].name@) == dp.name@ && placed(
                        order@,
                        q,
                    ) implies in_prefix(order@, q, j) by {
                    assert(statuses@[q] == PLACED);
                    assert(statuses@[q] != FAILED);
                }
            }
        }
    }
    LoadPlan { order, failed }
}

/// Law: when no candidate declares a dependency, nothing fails, every
/// candidate is in the plan, and the plan runs the `PRIORITY_FIRST` bucket
/// before `PRIORITY_DEFAULT` before `PRIORITY_LATER`, breaking ties inside
/// a bucket by discovery order — whatever the discovery order was.
pub proof fn lemma_priority_order_without_dependencies(
    descs: Seq<PluginInfo>,
    plan: LoadPlan,
    i: int,
)
    requires
        plan_partitions(descs, plan),
        plan.failed@.len() == 0,
        priority_sorted(descs, plan.order@),
        0 <= i < descs.len(),
    ensures
        placed(plan.order@, i),
        forall|k1: int, k2: int|
            0 <= k1 < k2 < plan.order@.len() ==> bucket(descs[plan.order@[k1] as int].priority)
                <= bucket(descs[plan.order@[k2] as int].priority),
{
    assert(!listed_failed(plan.failed@, i));
    assert forall|k1: int, k2: int|
        0 <= k1 < k2 < plan.order@.len() implies bucket(descs[plan.order@[k1] as int].priority)
        <= bucket(descs[plan.order@[k2] as int].priority) by {
        assert(key_lt(descs, plan.order@[k1] as int, plan.order@[k2] as int));
    }
}

/// Law: two plugins whose required edges run solely at each other can never
/// be ordered — the cycle is fatal for both. Against any plan that satisfies
/// the orderer's contract, neither plugin is placed, and both are reported
/// among the failures as members of a dependency cycle.
pub proof fn lemma_mutual_required_cycle(
    descs: Seq<PluginInfo>,
    plan: LoadPlan,
    a: int,
    b: int,
    da: int,
    db: int,
)
    requires
        names_ok(descs),
        plan_partitions(descs, plan),
        deps_respected(descs, plan.order@),
        forall|k: int|
            0 <= k < plan.failed@.len() ==> #[trigger] failure_entry_ok(descs, plan.failed@, k),
        0 <= a < descs.len(),
        0 <= b < descs.len(),
        a != b,
        0 <= da < dep_count(descs, a),
        required_dep(descs, a, da),
        dep(descs, a, da).name@ == descs[b].name@,
        0 <= db < dep_count(descs, b),
        required_dep(descs, b, db),
        dep(descs, b, db).name@ == descs[a].name@,
        forall|d: int|
            0 <= d < dep_count(descs, a) && #[trigger] required_dep(descs, a, d) ==> dep(
                descs,
                a,
                d,
            ).name@ == descs[b].name@,
        forall|d: int|
            0 <= d < dep_count(descs, b) && #[trigger] required_dep(descs, b, d) ==> dep(
                descs,
                b,
                d,
            ).name@ == descs[a].name@,
    ensures
        !placed(plan.order@, a),
        !placed(plan.order@, b),
        listed_failed(plan.failed@, a),
        listed_failed(plan.failed@, b),
        forall|k: int|
            0 <= k < plan.failed@.len() && (#[trigger] plan.failed@[k]).index == a
                ==> plan.failed@[k].error is DependencyCycle,
        forall|k: int|
            0 <= k < plan.failed@.len() && (#[trigger] plan.failed@[k]).index == b
                ==> plan.failed@[k].error is DependencyCycle,
{
    let order = plan.order@;
    if placed(order, a) && placed(order, b) {
        let ja = choose|k: int| 0 <= k < order.len() && #[trigger] order[k] == a;
        let jb = choose|k: int| 0 <= k < order.len() && #[trigger] order[k] == b;
        assert(dep_satisfied_at(descs, order, ja, da));
        let qa = choose|q: int|
            0 <= q < descs.len() && (#[trigger] descs[q].name@) == dep(descs, a, da).name@
                && in_prefix(order, q, ja);
        assert(qa == b) by {
            if qa != b {
                assert(descs[qa].name@ != descs[b].name@);
            }
        }
        let kb = choose|k: int| 0 <= k < ja && #[trigger] order[k] == b;
        assert(kb == jb) by {
            if kb != jb {
                assert(order[kb] != order[jb]);
            }
        }
        assert(jb < ja);
        assert(dep_satisfied_at(descs, order, jb, db));
        let qb = choose|q: int|
            0 <= q < descs.len() && (#[trigger] descs[q].name@) == dep(descs, b, db).name@
                && in_prefix(order, q, jb);
        assert(qb == a) by {
            if qb != a {
                assert(descs[qb].name@ != descs[a].name@);
            }
        }
        let ka = choose|k: int| 0 <= k < jb && #[trigger] order[k] == a;
        assert(ka == ja) by {
            if ka != ja {
                assert(order[ka] != order[ja]);
            }
        }
        assert(false);
    }
    if placed(order, a) {
        let ja = choose|k: int| 0 <= k < order.len() && #[trigger] order[k] == a;
        assert(dep_satisfied_at(descs, order, ja, da));
        let qa = choose|q: int|
            0 <= q < descs.len() && (#[trigger] descs[q].name@) == dep(descs, a, da).name@
                && in_prefix(order, q, ja);
        assert(qa == b) by {
            if qa != b {
                assert(descs[qa].name@ != descs[b].name@);
            }
        }
        let kb = choose|k: int| 0 <= k < ja && #[trigger] order[k] == b;
        assert(placed(order, b)) by {
            assert(order[kb] == b);
        }
        assert(false);
    }
    if placed(order, b) {
        let jb = choose|k: int| 0 <= k < order.len() && #[trigger] order[k] == b;
        assert(dep_satisfied_at(descs, order, jb, db));
        let qb = choose|q: int|
            0 <= q < descs.len() && (#[trigger] descs[q].name@) == dep(descs, b, db).name@
                && in_prefix(order, q, jb);
        assert(qb == a) by {
            if qb != a {
                assert(descs[qb].name@ != descs[a].name@);
            }
        }
        let ka = choose|k: int| 0 <= k < jb && #[trigger] order[k] == a;
        assert(placed(order, a)) by {
            assert(order[ka] == a);
        }
        assert(false);
    }
    // Neither entry can be a missing-dependency report: such a report is
    // grounded in earlier missing-dependency reports for every candidate of
    // the named dependency, and between two plugins naming only each other
    // that regress has no floor.
    let failed = plan.failed@;
    assert forall|k: int|
        0 <= k < failed.len() && (#[trigger] failed[k]).index == a
        implies failed[k].error is DependencyCycle by {
        match failed[k].error {
            LoadError::MissingRequiredDependency { name: nm } => {
                assert(failure_entry_ok(descs, failed, k));
                let dd = choose|dd: int|
                    0 <= dd < dep_count(descs, a) && #[trigger] required_dep(descs, a, dd) && dep(
                        descs,
                        a,
                        dd,
                    ).name@ == nm@ && (forall|q: int|
                        0 <= q < descs.len() && (#[trigger] descs[q].name@) == nm@
                            ==> exists|kk: int|
                            0 <= kk < k && (#[trigger] failed[kk]).index == q
                                && failed[kk].error is MissingRequiredDependency);
                assert(nm@ == descs[b].name@);
                let kb = choose|kk: int|
                    0 <= kk < k && (#[trigger] failed[kk]).index == b
                        && failed[kk].error is MissingRequiredDependency;
                assert(failure_entry_ok(descs, failed, kb));
                match failed[kb].error {
                    LoadError::MissingRequiredDependency { name: nm2 } => {
                        let dd2 = choose|dd2: int|
                            0 <= dd2 < dep_count(descs, b) && #[trigger] required_dep(
                                descs,
                                b,
                                dd2,
                            ) && dep(descs, b, dd2).name@ == nm2@ && (forall|q: int|
                                0 <= q < descs.len() && (#[trigger] descs[q].name@) == nm2@
                                    ==> exists|kk: int|
                                    0 <= kk < kb && (#[trigger] failed[kk]).index == q
                                        && failed[kk].error is MissingRequiredDependency);
                        assert(nm2@ == descs[a].name@);
                        let ka2 = choose|kk: int|
                            0 <= kk < kb && (#[trigger] failed[kk]).index == a
                                && failed[kk].error is MissingRequiredDependency;
                        assert(ka2 < k && failed[ka2].index == a && failed[k].index == a);
                        assert(false);
                    },
                    LoadError::DependencyCycle => {
                        assert(false);
                    },
                }
            },
            LoadError::DependencyCycle => {},
        }
    }
    assert forall|k: int|
        0 <= k < failed.len() && (#[trigger] failed[k]).index == b
        implies failed[k].error is DependencyCycle by {
        match failed[k].error {
            LoadError::MissingRequiredDependency { name: nm } => {
                assert(failure_entry_ok(descs, failed, k));
                let dd = choose|dd: int|
                    0 <= dd < dep_count(descs, b) && #[trigger] required_dep(descs, b, dd) && dep(
                        descs,
                        b,
                        dd,
                    ).name@ == nm@ && (forall|q: int|
                        0 <= q < descs.len() && (#[trigger] descs[q].name@) == nm@
                            ==> exists|kk: int|
                            0 <= kk < k && (#[trigger] failed[kk]).index == q
                                && failed[kk].error is MissingRequiredDependency);
                assert(nm@ == descs[a].name@);
                let ka = choose|kk: int|
                    0 <= kk < k && (#[trigger] failed[kk]).index == a
                        && failed[kk].error is MissingRequiredDependency;
                assert(failure_entry_ok(descs, failed, ka));
                match failed[ka].error {
                    LoadError::MissingRequiredDependency { name: nm2 } => {
                        let dd2 = choose|dd2: int|
                            0 <= dd2 < dep_count(descs, a) && #[trigger] required_dep(
                                descs,
                                a,
                                dd2,
                            ) && dep(descs, a, dd2).name@ == nm2@ && (forall|q: int|
                                0 <= q < descs.len() && (#[trigger] descs[q].name@) == nm2@
                                    ==> exists|kk: int|
                                    0 <= kk < ka && (#[trigger] failed[kk]).index == q
                                        && failed[kk].error is MissingRequiredDependency);
                        assert(nm2@ == descs[b].name@);
                        let kb2 = choose|kk: int|
                            0 <= kk < ka && (#[trigger] failed[kk]).index == b
                                && failed[kk].error is MissingRequiredDependency;
                        assert(kb2 < k && failed[kb2].index == b && failed[k].index == b);
                        assert(false);
                    },
                    LoadError::DependencyCycle => {
                        assert(false);
                    },
                }
            },
            LoadError::DependencyCycle => {},
        }
    }
}

/// The names of a plan's order, for initialization in sequence.
pub fn load_order_names(descs: &Vec<PluginInfo>, plan: &LoadPlan) -> (names: Vec<String>)
    requires
        forall|k: int| 0 <= k < plan.order@.len() ==> (#[trigger] plan.order@[k]) < descs@.len(),
    ensures
        names@.len() == plan.order@.len(),
        forall|k: int|
            0 <= k < names@.len() ==> (#[trigger] names@[k])@ == descs@[plan.order@[k] as int].name@,
{
    let mut names: Vec<String> = Vec::new();
    let mut k: usize = 0;
    while k < plan.order.len()
        invariant
            k <= plan.order@.len(),
            names@.len() == k,
            forall|kk: int|
                0 <= kk < plan.order@.len() ==> (#[trigger] plan.order@[kk]) < descs@.len(),
            forall|kk: int|
                0 <= kk < k ==> (#[trigger] names@[kk])@ == descs@[plan.order@[kk] as int].name@,
        decreases plan.order@.len() - k,
    {
        names.push(descs[plan.order[k]].name.clone());
        k = k + 1;
    }
    names
}

/// Every required dependency of `p` is among `loaded`.
pub open spec fn reqs_loaded(descs: Seq<PluginInfo>, p: int, loaded: Seq<usize>) -> bool {
    forall|d: int|
        0 <= d < dep_count(descs, p) && #[trigger] required_dep(descs, p, d) ==> exists|q: int|
            0 <= q < descs.len() && (#[trigger] descs[q].name@) == dep(descs, p, d).name@
                && placed(loaded, q)
}

/// Which of the first `j` planned plugins are loaded once their
/// initializers have reported: a plugin is loaded exactly when its own
/// initializer succeeded and every required dependency of it is loaded. An
/// initialization failure thus also fails the plugin's required dependents,
/// transitively.
pub open spec fn init_loaded(
    descs: Seq<PluginInfo>,
    order: Seq<usize>,
    results: Seq<bool>,
    j: int,
) -> Seq<usize>
    decreases j,
{
    if j <= 0 {
        Seq::empty()
    } else {
        let prev = init_loaded(descs, order, results, j - 1);
        if results[j - 1] && reqs_loaded(descs, order[j - 1] as int, prev) {
            prev.push(order[j - 1])
        } else {
            prev
        }
    }
}

/// Whether candidate `x` is among `loaded`.
fn contains_index(loaded: &Vec<usize>, x: usize) -> (r: bool)
    ensures
        r == placed(loaded@, x as int),
{
    let mut k: usize = 0;
    while k < loaded.len()
        invariant
            k <= loaded@.len(),
            forall|kk: int| 0 <= kk < k ==> (#[trigger] loaded@[kk]) != x,
        decreases loaded@.len() - k,
    {
        if loaded[k] == x {
            proof {
                assert((#[trigger] loaded@[k as int]) == x);
            }
            return true;
        }
        k = k + 1;
    }
    false
}

/// Whether every required dependency of `p` is among `loaded`.
fn reqs_loaded_exec(descs: &Vec<PluginInfo>, p: usize, loaded: &Vec<usize>) -> (r: bool)
    requires
        names_ok(descs@),
        p < descs@.len(),
    ensures
        r == reqs_loaded(descs@, p as int, loaded@),
{
    let deps = &descs[p].dependencies;
    let mut d: usize = 0;
    while d < deps.len()
        invariant
            names_ok(descs@),
            p < descs@.len(),
            deps@ == descs@[p as int].dependencies@,
            d <= deps@.len(),
            forall|dd: int|
                0 <= dd < d && #[trigger] required_dep(descs@, p as int, dd) ==> exists|q: int|
                    0 <= q < descs@.len() && (#[trigger] descs@[q].name@) == dep(
                        descs@,
                        p as int,
                        dd,
                    ).name@ && placed(loaded@, q),
        decreases deps@.len() - d,
    {
        let entry = &deps[d];
        if entry.kind == DEP_TYPE_REQUIRED && !entry.name.as_str().is_empty() {
            match find_plugin(descs, &entry.name) {
                None => {
                    proof {
                        assert(required_dep(descs@, p as int, d as int));
                        assert(!reqs_loaded(descs@, p as int, loaded@)) by {
                            if reqs_loaded(descs@, p as int, loaded@) {
                                let q = choose|q: int|
                                    0 <= q < descs@.len() && (#[trigger] descs@[q].name@) == dep(
                                        descs@,
                                        p as int,
                                        d as int,
                                    ).name@ && placed(loaded@, q);
                            }
                        }
                    }
                    return false;
                },
                Some(q) => {
                    if !contains_index(loaded, q) {
                        proof {
                            assert(required_dep(descs@, p as int, d as int));
                            assert forall|q2: int|
                                0 <= q2 < descs@.len() && descs@[q2].name@ == dep(
                                    descs@,
                                    p as int,
                                    d as int,
                                ).name@ implies q2 == q as int by {
                                if q2 != q as int {
                                    assert(descs@[q2].name@ != descs@[q as int].name@);
                                }
                            }
                            assert(!reqs_loaded(descs@, p as int, loaded@)) by {
                                if reqs_loaded(descs@, p as int, loaded@) {
                                    let q2 = choose|q2: int|
                                        0 <= q2 < descs@.len() && (#[trigger] descs@[q2].name@)
                                            == dep(descs@, p as int, d as int).name@ && placed(
                                            loaded@,
                                            q2,
                                        );
                                    assert(q2 == q as int);
                                }
                            }
                        }
                        return false;
                    }
                },
            }
        }
        d = d + 1;
    }
    true
}

/// Replays each planned initializer's verdict, in plan order, and returns
/// the plugins that are actually loaded: those whose initializer succeeded
/// and whose required dependencies all loaded — so one failure also fails
/// its required dependents, transitively. The host program performs each
/// initialization call and reports its outcome in `results`.
pub fn apply_init_results(
    descs: &Vec<PluginInfo>,
    order: &Vec<usize>,
    results: &Vec<bool>,
) -> (loaded: Vec<usize>)
    requires
        names_ok(descs@),
        results@.len() == order@.len(),
        forall|k: int| 0 <= k < order@.len() ==> (#[trigger] order@[k]) < descs@.len(),
    ensures
        loaded@ == init_loaded(descs@, order@, results@, order@.len() as int),
{
    let mut loaded: Vec<usize> = Vec::new();
    let mut j: usize = 0;
    while j < order.len()
        invariant
            names_ok(descs@),
            results@.len() == order@.len(),
            forall|k: int| 0 <= k < order@.len() ==> (#[trigger] order@[k]) < descs@.len(),
            j <= order@.len(),
            loaded@ == init_loaded(descs@, order@, results@, j as int),
        decreases order@.len() - j,
    {
        let p = order[j];
        if results[j] && reqs_loaded_exec(descs, p, &loaded) {
            loaded.push(p);
        }
        j = j + 1;
    }
    loaded
}

/// Unload order: the exact reverse of a load order (restricted, by the
/// caller, to the plugins still loaded).
pub fn unload_order(loaded: &Vec<usize>) -> (r: Vec<usize>)
    ensures
        r@ == loaded@.reverse(),
{
    let mut r: Vec<usize> = Vec::new();
    let mut k: usize = loaded.len();
    while k > 0
        invariant
            k <= loaded@.len(),
            r@.len() == loaded@.len() - k,
            forall|i: int| 0 <= i < r@.len() ==> r@[i] == loaded@[loaded@.len() - 1 - i],
        decreases k,
    {
        k = k - 1;
        r.push(loaded[k]);
    }
    proof {
        assert(r@ =~= loaded@.reverse());
    }
    r
}

} // verus!
