//! Plugin descriptors and their validation. A descriptor is the immutable
//! self-description a plugin exposes: name, version, the binary-interface
//! version it was built against, a priority bucket, and its dependencies.
//! The validator admits a descriptor into the candidate set or rejects it
//! with a reason, before any plugin code runs.

use crate::PRIORITY_DEFAULT;
use crate::PRIORITY_FIRST;
use crate::PRIORITY_LATER;
use vstd::prelude::*;

verus! {

/// One dependency entry: the name of another plugin, and whether it is
/// required (`DEP_TYPE_REQUIRED`) or optional. An entry with an empty name
/// is inert: the load orderer ignores it.
pub struct Dependency {
    pub name: String,
    pub kind: u8,
}

impl Clone for Dependency {
    fn clone(&self) -> (r: Self)
        ensures
            r == *self,
    {
        Dependency { name: self.name.clone(), kind: self.kind }
    }
}

/// A plugin's immutable self-description. `version` is opaque: it is never
/// parsed for ordering. `priority` is one of the three buckets; any other
/// value is read leniently as `PRIORITY_DEFAULT`.
pub struct PluginInfo {
    pub name: String,
    pub version: String,
    pub abi_version: u32,
    pub priority: i8,
    pub dependencies: Vec<Dependency>,
}

/// Why a descriptor was refused. The checks run in this order: binary
/// interface first, then the name.
#[derive(Clone, Copy, PartialEq, Eq, Structural, Debug)]
pub enum ValidateError {
    /// The descriptor was built against another interface version; the
    /// plugin is never initialized.
    AbiMismatch,
    /// The descriptor carries an empty name.
    EmptyName,
    /// An already-accepted descriptor carries the same name.
    DuplicateName,
}

/// The three priority buckets the host recognizes.
pub open spec fn recognized_priority(p: i8) -> bool {
    p == PRIORITY_FIRST || p == PRIORITY_DEFAULT || p == PRIORITY_LATER
}

/// The bucket a descriptor's priority value denotes: itself when it is one
/// of the three buckets, `PRIORITY_DEFAULT` otherwise.
pub open spec fn spec_normalize_priority(p: i8) -> i8 {
    if recognized_priority(p) {
        p
    } else {
        PRIORITY_DEFAULT
    }
}

/// Reads a descriptor's priority leniently: an unrecognized value is not a
/// fault, it simply means `PRIORITY_DEFAULT`.
pub fn normalize_priority(p: i8) -> (r: i8)
    ensures
        r == spec_normalize_priority(p),
{
    if p == PRIORITY_FIRST || p == PRIORITY_DEFAULT || p == PRIORITY_LATER {
        p
    } else {
        PRIORITY_DEFAULT
    }
}

/// Some descriptor in `accepted` already carries `name`.
pub open spec fn name_taken(accepted: Seq<PluginInfo>, name: Seq<char>) -> bool {
    exists|i: int| 0 <= i < accepted.len() && accepted[i].name@ == name
}

/// The validator's verdict on one descriptor against the set accepted so
/// far, checking in order: binary-interface version, then an empty name,
/// then a duplicate name. Dependency entries are not a reason to reject:
/// entries with empty names are ignored later, by the load orderer.
pub open spec fn spec_validate(
    info: PluginInfo,
    accepted: Seq<PluginInfo>,
    host_abi: u32,
) -> Result<(), ValidateError> {
    if info.abi_version != host_abi {
        Err(ValidateError::AbiMismatch)
    } else if info.name@.len() == 0 {
        Err(ValidateError::EmptyName)
    } else if name_taken(accepted, info.name@) {
        Err(ValidateError::DuplicateName)
    } else {
        Ok(())
    }
}

/// Admits or rejects one descriptor, exactly as `spec_validate` rules.
pub fn validate_descriptor(info: &PluginInfo, accepted: &Vec<PluginInfo>, host_abi: u32) -> (v:
    Result<(), ValidateError>)
    ensures
        v == spec_validate(*info, accepted@, host_abi),
{
    if info.abi_version != host_abi {
        return Err(ValidateError::AbiMismatch);
    }
    if info.name.as_str().is_empty() {
        return Err(ValidateError::EmptyName);
    }
    let mut i: usize = 0;
    while i < accepted.len()
        invariant
            i <= accepted@.len(),
            info.abi_version == host_abi,
            info.name@.len() > 0,
            forall|j: int| 0 <= j < i ==> accepted@[j].name@ != info.name@,
        decreases accepted@.len() - i,
    {
        if accepted[i].name == info.name {
            proof {
                assert(accepted@[i as int].name@ == info.name@);
            }
            return Err(ValidateError::DuplicateName);
        }
        i = i + 1;
    }
    Ok(())
}

/// One rejected descriptor: its position in the discovery pass, and why.
pub struct Rejection {
    pub index: usize,
    pub error: ValidateError,
}

/// The candidate set a discovery pass admits: each descriptor validated, in
/// discovery order, against those accepted before it.
pub open spec fn spec_accepted(descs: Seq<PluginInfo>, host_abi: u32) -> Seq<PluginInfo>
    decreases descs.len(),
{
    if descs.len() == 0 {
        Seq::empty()
    } else {
        let prev = spec_accepted(descs.drop_last(), host_abi);
        if spec_validate(descs.last(), prev, host_abi) is Ok {
            prev.push(descs.last())
        } else {
            prev
        }
    }
}

/// The rejections a discovery pass reports, each carrying its descriptor's
/// discovery position and the validator's reason.
pub open spec fn spec_rejections(descs: Seq<PluginInfo>, host_abi: u32) -> Seq<Rejection>
    decreases descs.len(),
{
    if descs.len() == 0 {
        Seq::empty()
    } else {
        let prev = spec_rejections(descs.drop_last(), host_abi);
        match spec_validate(descs.last(), spec_accepted(descs.drop_last(), host_abi), host_abi) {
            Ok(_) => prev,
            Err(e) => prev.push(Rejection { index: (descs.len() - 1) as usize, error: e }),
        }
    }
}

/// The outcome of a discovery pass: the descriptors admitted into the
/// candidate set, in discovery order, and the rejected ones with reasons.
pub struct Admission {
    pub accepted: Vec<PluginInfo>,
    pub rejected: Vec<Rejection>,
}

/// Runs the validator over a discovery pass. The accepted descriptors all
/// declare the host's binary-interface version and carry non-empty, mutually
/// distinct names — exactly what the load orderer requires — and keep their
/// discovery order; every other descriptor is rejected with its reason.
pub fn admit_descriptors(descs: Vec<PluginInfo>, host_abi: u32) -> (adm: Admission)
    ensures
        adm.accepted@ == spec_accepted(descs@, host_abi),
        adm.rejected@ == spec_rejections(descs@, host_abi),
        forall|j: int|
            0 <= j < adm.accepted@.len() ==> #[trigger] adm.accepted@[j].abi_version == host_abi,
        forall|j: int| 0 <= j < adm.accepted@.len() ==> #[trigger] adm.accepted@[j].name@.len() > 0,
        forall|i: int, j: int|
            0 <= i < j < adm.accepted@.len() ==> adm.accepted@[i].name@ != adm.accepted@[j].name@,
        adm.accepted@.len() + adm.rejected@.len() == descs@.len(),
{
    let ghost all = descs@;
    let mut remaining = descs;
    let mut accepted: Vec<PluginInfo> = Vec::new();
    let mut rejected: Vec<Rejection> = Vec::new();
    let total = remaining.len();
    let mut index: usize = 0;
    while remaining.len() > 0
        invariant
            all.len() == total,
            index + remaining@.len() == total,
            remaining@ == all.skip(index as int),
            accepted@ == spec_accepted(all.take(index as int), host_abi),
            rejected@ == spec_rejections(all.take(index as int), host_abi),
            accepted@.len() + rejected@.len() == index,
            forall|j: int|
                0 <= j < accepted@.len() ==> #[trigger] accepted@[j].abi_version == host_abi,
            forall|j: int| 0 <= j < accepted@.len() ==> #[trigger] accepted@[j].name@.len() > 0,
            forall|i: int, j: int|
                0 <= i < j < accepted@.len() ==> accepted@[i].name@ != accepted@[j].name@,
        decreases remaining@.len(),
    {
        let info = remaining.remove(0);
        proof {
            assert(info == all[index as int]);
            assert(remaining@ =~= all.skip(index + 1));
            assert(all.take(index + 1).drop_last() =~= all.take(index as int));
            assert(all.take(index + 1).last() == all[index as int]);
        }
        let ghost before = accepted@;
        match validate_descriptor(&info, &accepted, host_abi) {
            Ok(()) => {
                let ghost info_name = info.name@;
                proof {
                    assert(!name_taken(before, info_name));
                }
                accepted.push(info);
                proof {
                    assert(forall|i: int| 0 <= i < before.len() ==> accepted@[i] == before[i]);
                    assert forall|i: int, j: int|
                        0 <= i < j < accepted@.len() implies accepted@[i].name@
                        != accepted@[j].name@ by {
                        if j == accepted@.len() - 1 {
                            assert(before[i].name@ != info_name);
                        }
                    }
                }
            },
            Err(e) => {
                rejected.push(Rejection { index, error: e });
            },
        }
        index = index + 1;
    }
    proof {
        assert(all.take(total as int) =~= all);
    }
    Admission { accepted, rejected }
}

} // verus!
