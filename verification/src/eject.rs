//! Safe removal of a drive.
//!
//! Ejection follows a fixed sequence: lock and dismount each volume of the
//! device in turn, locate the device node of the drive's volume, locate that
//! node's parent (the physical device), and ask the plug-and-play manager to
//! eject the parent, so that every partition of a multi-partition device is
//! torn down before the device goes. The caller performs each step with the
//! operating system and reports how it went; an `Ejection` decides what comes
//! next and how the attempt ends.

use vstd::prelude::*;
use crate::drives::{RemovableDrive, first_zero_u16, string_views};
use crate::commands::{mount_points_match, same_mount_point};

verus! {

/// The types of error that could happen on ejection.
#[derive(Debug, Clone, Copy, PartialEq, Eq, Structural)]
pub enum EjectError {
    LockFailed,
    DismountFailed,
    EjectFailed,
    DeviceNotFound,
}

/// The state of an ejection: the step the caller must perform next, or how
/// the ejection ended.
#[derive(Debug, Clone, Copy, PartialEq, Eq, Structural)]
pub enum EjectStep {
    /// Lock the volume with this index for exclusive access.
    LockVolume(usize),
    /// Dismount the locked volume with this index.
    DismountVolume(usize),
    /// Locate the device node of the drive's volume.
    LocateDevice,
    /// Locate the parent of the given device node.
    LocateParent(u32),
    /// Request ejection of the given device node.
    RequestEject(u32),
    /// The device was ejected.
    Ejected,
    /// The ejection stopped with an error.
    Failed(EjectError),
}

/// What the caller reports after performing a step: the operation succeeded,
/// failed, or (for the locating steps) found the given device node.
#[derive(Debug, Clone, Copy, PartialEq, Eq, Structural)]
pub enum StepOutcome {
    Succeeded,
    Failed,
    Found(u32),
}

/// Whether the ejection has ended.
pub open spec fn is_finished(step: EjectStep) -> bool {
    step is Ejected || step is Failed
}

/// Whether the volume index of a step is one of the `n` volumes.
pub open spec fn step_in_range(n: nat, step: EjectStep) -> bool {
    match step {
        EjectStep::LockVolume(i) => i < n,
        EjectStep::DismountVolume(i) => i < n,
        _ => true,
    }
}

/// The state that follows `step` when the caller reports `outcome`, for a
/// device with `n` volumes.
pub open spec fn next_step(n: nat, step: EjectStep, outcome: StepOutcome) -> EjectStep {
    match step {
        EjectStep::LockVolume(i) => if outcome == StepOutcome::Succeeded {
            EjectStep::DismountVolume(i)
        } else {
            EjectStep::Failed(EjectError::LockFailed)
        },
        EjectStep::DismountVolume(i) => if outcome == StepOutcome::Succeeded {
            if i + 1 < n {
                EjectStep::LockVolume((i + 1) as usize)
            } else {
                EjectStep::LocateDevice
            }
        } else {
            EjectStep::Failed(EjectError::DismountFailed)
        },
        EjectStep::LocateDevice => match outcome {
            StepOutcome::Found(node) => EjectStep::LocateParent(node),
            _ => EjectStep::Failed(EjectError::DeviceNotFound),
        },
        EjectStep::LocateParent(_) => match outcome {
            StepOutcome::Found(parent) => EjectStep::RequestEject(parent),
            _ => EjectStep::Failed(EjectError::DeviceNotFound),
        },
        EjectStep::RequestEject(_) => if outcome == StepOutcome::Succeeded {
            EjectStep::Ejected
        } else {
            EjectStep::Failed(EjectError::EjectFailed)
        },
        EjectStep::Ejected => EjectStep::Ejected,
        EjectStep::Failed(e) => EjectStep::Failed(e),
    }
}

/// Locks the volume: the outcome of the lock request as a result.
pub fn lock_volume(locked: bool) -> (r: Result<(), EjectError>)
    ensures
        r == (if locked {
            Ok::<(), EjectError>(())
        } else {
            Err(EjectError::LockFailed)
        }),
{
    if locked {
        Ok(())
    } else {
        Err(EjectError::LockFailed)
    }
}

/// Dismounts the volume: the outcome of the dismount request as a result.
pub fn dismount_volume(dismounted: bool) -> (r: Result<(), EjectError>)
    ensures
        r == (if dismounted {
            Ok::<(), EjectError>(())
        } else {
            Err(EjectError::DismountFailed)
        }),
{
    if dismounted {
        Ok(())
    } else {
        Err(EjectError::DismountFailed)
    }
}

/// The device node of the volume, if one was found.
pub fn get_device_node(found: Option<u32>) -> (r: Result<u32, EjectError>)
    ensures
        r == (match found {
            Some(node) => Ok::<u32, EjectError>(node),
            None => Err(EjectError::DeviceNotFound),
        }),
{
    match found {
        Some(node) => Ok(node),
        None => Err(EjectError::DeviceNotFound),
    }
}

/// The parent of a device node, if one was found.
pub fn get_parent_node(found: Option<u32>) -> (r: Result<u32, EjectError>)
    ensures
        r == (match found {
            Some(node) => Ok::<u32, EjectError>(node),
            None => Err(EjectError::DeviceNotFound),
        }),
{
    match found {
        Some(node) => Ok(node),
        None => Err(EjectError::DeviceNotFound),
    }
}

/// The answer of the plug-and-play manager to an eject request as a result.
pub fn request_eject(accepted: bool) -> (r: Result<(), EjectError>)
    ensures
        r == (if accepted {
            Ok::<(), EjectError>(())
        } else {
            Err(EjectError::EjectFailed)
        }),
{
    if accepted {
        Ok(())
    } else {
        Err(EjectError::EjectFailed)
    }
}

fn node_of(outcome: StepOutcome) -> (node: Option<u32>)
    ensures
        node == (match outcome {
            StepOutcome::Found(n) => Some(n),
            _ => None::<u32>,
        }),
{
    match outcome {
        StepOutcome::Found(n) => Some(n),
        _ => None,
    }
}

/// The first entry of a list of NUL-separated wide strings (as the device
/// interface list is returned), with its terminating NUL; None when the list
/// is empty or its first entry is not terminated.
pub open spec fn first_entry(list: Seq<u16>) -> Option<Seq<u16>> {
    let end = first_zero_u16(list, 0);
    if 0 < end < list.len() {
        Some(list.take(end + 1))
    } else {
        None
    }
}

/// The first entry of an interface list is a prefix of the list that ends
/// with its first NUL and holds no other zero unit, and is not empty.
pub proof fn lemma_first_entry_exact(list: Seq<u16>)
    ensures
        first_entry(list) matches Some(e) ==> {
            &&& e.len() >= 2
            &&& e == list.take(e.len() as int)
            &&& e.last() == 0u16
            &&& forall|k: int| 0 <= k < e.len() - 1 ==> #[trigger] e[k] != 0u16
        },
        first_entry(list) is None ==> (list.len() == 0 || list[0] == 0u16 || forall|k: int|
            0 <= k < list.len() ==> #[trigger] list[k] != 0u16),
{
    lemma_first_zero_scan(list, 0);
}

proof fn lemma_first_zero_scan(s: Seq<u16>, i: int)
    requires
        0 <= i <= s.len(),
    ensures
        i <= first_zero_u16(s, i) <= s.len(),
        first_zero_u16(s, i) < s.len() ==> s[first_zero_u16(s, i)] == 0u16,
        forall|k: int| i <= k < first_zero_u16(s, i) ==> #[trigger] s[k] != 0u16,
    decreases s.len() - i,
{
    if i < s.len() && s[i] != 0u16 {
        lemma_first_zero_scan(s, i + 1);
    }
}

/// Returns the first device interface path of a NUL-separated interface list,
/// NUL-terminated, ready to be passed to the device-node lookup.
pub fn first_interface_path(list: &[u16]) -> (path: Option<Vec<u16>>)
    ensures
        path matches Some(p) ==> first_entry(list@) == Some(p@),
        path is None ==> first_entry(list@) is None,
{
    let n: usize = list.len();
    let mut end: usize = 0;
    while end < n && list[end] != 0
        invariant
            n == list@.len(),
            end <= n,
            first_zero_u16(list@, 0) == first_zero_u16(list@, end as int),
        decreases n - end,
    {
        end = end + 1;
    }
    if end == 0 || end >= n {
        return None;
    }
    let mut path: Vec<u16> = Vec::new();
    let mut k: usize = 0;
    while k <= end
        invariant
            n == list@.len(),
            end < n,
            k <= end + 1,
            path@ == list@.take(k as int),
        decreases end + 1 - k,
    {
        path.push(list[k]);
        assert(path@ =~= list@.take(k + 1));
        k = k + 1;
    }
    Some(path)
}

/// The volumes of a device other than the drive's own volume `own`, in order.
pub open spec fn other_volumes(volumes: Seq<Seq<char>>, own: Seq<char>) -> Seq<Seq<char>>
    decreases volumes.len(),
{
    if volumes.len() == 0 {
        Seq::empty()
    } else if same_mount_point(volumes.last(), own) {
        other_volumes(volumes.drop_last(), own)
    } else {
        other_volumes(volumes.drop_last(), own).push(volumes.last())
    }
}

/// The other volumes are the device volumes that do not name the drive's
/// own volume, in their order: no volume of the device is left out.
pub proof fn lemma_other_volumes_filter(volumes: Seq<Seq<char>>, own: Seq<char>)
    ensures
        other_volumes(volumes, own) == volumes.filter(|v: Seq<char>| !same_mount_point(v, own)),
    decreases volumes.len(),
{
    reveal_with_fuel(Seq::<_>::filter, 1);
    if volumes.len() > 0 {
        lemma_other_volumes_filter(volumes.drop_last(), own);
    }
}

/// Every volume of the device is torn down: each one names the same mount
/// point as the drive's own volume or as one of the other volumes, and every
/// other volume is a volume of the device that differs from the drive's own.
pub proof fn lemma_ejection_covers_device(volumes: Seq<Seq<char>>, own: Seq<char>)
    ensures
        forall|i: int|
            0 <= i < volumes.len() ==> exists|j: int|
                0 <= j < (seq![own] + other_volumes(volumes, own)).len() && same_mount_point(
                    #[trigger] volumes[i],
                    (seq![own] + other_volumes(volumes, own))[j],
                ),
        forall|j: int|
            0 <= j < other_volumes(volumes, own).len() ==> volumes.contains(
                #[trigger] other_volumes(volumes, own)[j],
            ) && !same_mount_point(other_volumes(volumes, own)[j], own),
        other_volumes(volumes, own).len() <= volumes.len(),
    decreases volumes.len(),
{
    if volumes.len() > 0 {
        let prev = volumes.drop_last();
        lemma_ejection_covers_device(prev, own);
        let all = seq![own] + other_volumes(volumes, own);
        let pall = seq![own] + other_volumes(prev, own);
        assert forall|i: int| 0 <= i < volumes.len() implies exists|j: int|
            0 <= j < all.len() && same_mount_point(#[trigger] volumes[i], all[j]) by {
            if same_mount_point(volumes[i], own) {
                assert(all[0] == own);
            } else if i == volumes.len() - 1 {
                assert(all[all.len() - 1] == volumes[i]);
            } else {
                assert(volumes[i] == prev[i]);
                let j = choose|j: int| 0 <= j < pall.len() && same_mount_point(prev[i], pall[j]);
                assert(all[j] == pall[j]);
            }
        }
        assert forall|j: int| 0 <= j < other_volumes(volumes, own).len() implies volumes.contains(
            #[trigger] other_volumes(volumes, own)[j],
        ) && !same_mount_point(other_volumes(volumes, own)[j], own) by {
            let o = other_volumes(volumes, own);
            let po = other_volumes(prev, own);
            if j < po.len() {
                assert(o[j] == po[j]);
                let k = choose|k: int| 0 <= k < prev.len() && prev[k] == po[j];
                assert(volumes[k] == prev[k]);
            } else {
                assert(o[j] == volumes.last());
                assert(volumes[volumes.len() - 1] == volumes.last());
            }
        }
    }
}

/// A volume of a logical drive and the number of the physical device it
/// lies on, when the system reported one.
pub struct VolumeDevice {
    pub mount_point: String,
    pub device_number: Option<u32>,
}

/// The mount points of the volumes that lie on the device `device`, in order.
pub open spec fn volumes_on(volumes: Seq<VolumeDevice>, device: u32) -> Seq<Seq<char>>
    decreases volumes.len(),
{
    if volumes.len() == 0 {
        Seq::empty()
    } else if volumes.last().device_number == Some(device) {
        volumes_on(volumes.drop_last(), device).push(volumes.last().mount_point@)
    } else {
        volumes_on(volumes.drop_last(), device)
    }
}

/// The volumes on a device are exactly the volumes whose device number is
/// that device's, in their order.
pub proof fn lemma_volumes_on_filter(volumes: Seq<VolumeDevice>, device: u32)
    ensures
        volumes_on(volumes, device) == volumes.filter(
            |v: VolumeDevice| v.device_number == Some(device),
        ).map_values(|v: VolumeDevice| v.mount_point@),
    decreases volumes.len(),
{
    reveal_with_fuel(Seq::<_>::filter, 1);
    if volumes.len() > 0 {
        lemma_volumes_on_filter(volumes.drop_last(), device);
        let f = volumes.drop_last().filter(|v: VolumeDevice| v.device_number == Some(device));
        let g = |v: VolumeDevice| v.mount_point@;
        if volumes.last().device_number == Some(device) {
            assert(f.push(volumes.last()).map_values(g) =~= f.map_values(g).push(
                volumes.last().mount_point@,
            ));
        }
    }
}

/// Returns the mount points of the volumes that lie on the physical device
/// numbered `device`.
pub fn volumes_on_device(volumes: &Vec<VolumeDevice>, device: u32) -> (on_device: Vec<String>)
    ensures
        string_views(on_device@) == volumes_on(volumes@, device),
{
    let mut out: Vec<String> = Vec::new();
    let mut i: usize = 0;
    while i < volumes.len()
        invariant
            i <= volumes@.len(),
            string_views(out@) == volumes_on(volumes@.take(i as int), device),
        decreases volumes@.len() - i,
    {
        assert(volumes@.take(i + 1).drop_last() =~= volumes@.take(i as int));
        assert(volumes@.take(i + 1).last() == volumes@[i as int]);
        if volumes[i].device_number == Some(device) {
            let ghost prev = out@;
            out.push(volumes[i].mount_point.clone());
            assert(string_views(out@) =~= string_views(prev).push(volumes@[i as int].mount_point@));
        }
        i = i + 1;
    }
    assert(volumes@.take(volumes@.len() as int) =~= volumes@);
    out
}

/// An ejection in progress for the drive mounted at `mount_point`, whose
/// device holds the volumes `volumes` (the drive's own volume first).
pub struct Ejection {
    pub mount_point: String,
    pub volumes: Vec<String>,
    pub step: EjectStep,
}

impl Ejection {
    /// The ejection is well formed: there is at least one volume, and the
    /// current step names one of them.
    pub open spec fn wf(&self) -> bool {
        &&& self.volumes@.len() > 0
        &&& step_in_range(self.volumes@.len(), self.step)
    }
}

/// Ejects the device leveraging Windows' PnP manager: starts the ejection of
/// `drive`, whose device holds the volumes `device_volumes`. The drive's own
/// volume is torn down first, then every other volume of the device, each
/// locked and then dismounted.
pub fn eject_drive(drive: &RemovableDrive, device_volumes: &Vec<String>) -> (ejection: Ejection)
    ensures
        ejection.wf(),
        ejection.mount_point@ == drive.mount_point@,
        string_views(ejection.volumes@) == seq![drive.mount_point@] + other_volumes(
            string_views(device_volumes@),
            drive.mount_point@,
        ),
        ejection.step == EjectStep::LockVolume(0),
{
    let own = drive.mount_point.as_str();
    let mut volumes: Vec<String> = Vec::new();
    volumes.push(drive.mount_point.clone());
    let ghost dv = string_views(device_volumes@);
    let mut i: usize = 0;
    while i < device_volumes.len()
        invariant
            i <= device_volumes@.len(),
            dv == string_views(device_volumes@),
            own@ == drive.mount_point@,
            string_views(volumes@) == seq![own@] + other_volumes(dv.take(i as int), own@),
        decreases device_volumes@.len() - i,
    {
        assert(dv.take(i + 1).drop_last() =~= dv.take(i as int));
        assert(dv.take(i + 1).last() == device_volumes@[i as int]@);
        if !mount_points_match(device_volumes[i].as_str(), own) {
            let ghost prev = volumes@;
            volumes.push(device_volumes[i].clone());
            assert(string_views(volumes@) =~= string_views(prev).push(device_volumes@[i as int]@));
            assert(seq![own@] + other_volumes(dv.take(i + 1), own@) =~= (seq![own@]
                + other_volumes(dv.take(i as int), own@)).push(device_volumes@[i as int]@));
        }
        i = i + 1;
    }
    assert(dv.take(device_volumes@.len() as int) =~= dv);
    Ejection { mount_point: drive.mount_point.clone(), volumes, step: EjectStep::LockVolume(0) }
}

impl Ejection {
    /// Records the outcome of the current step and moves to the next one.
    pub fn advance(&mut self, outcome: StepOutcome)
        requires
            old(self).wf(),
        ensures
            final(self).wf(),
            final(self).step == next_step(old(self).volumes@.len(), old(self).step, outcome),
            final(self).mount_point == old(self).mount_point,
            final(self).volumes == old(self).volumes,
    {
        let succeeded = outcome == StepOutcome::Succeeded;
        let n: usize = self.volumes.len();
        let next = match self.step {
            EjectStep::LockVolume(i) => match lock_volume(succeeded) {
                Ok(()) => EjectStep::DismountVolume(i),
                Err(e) => EjectStep::Failed(e),
            },
            EjectStep::DismountVolume(i) => match dismount_volume(succeeded) {
                Ok(()) => if i + 1 < n {
                    EjectStep::LockVolume(i + 1)
                } else {
                    EjectStep::LocateDevice
                },
                Err(e) => EjectStep::Failed(e),
            },
            EjectStep::LocateDevice => match get_device_node(node_of(outcome)) {
                Ok(node) => EjectStep::LocateParent(node),
                Err(e) => EjectStep::Failed(e),
            },
            EjectStep::LocateParent(_) => match get_parent_node(node_of(outcome)) {
                Ok(parent) => EjectStep::RequestEject(parent),
                Err(e) => EjectStep::Failed(e),
            },
            EjectStep::RequestEject(_) => match request_eject(succeeded) {
                Ok(()) => EjectStep::Ejected,
                Err(e) => EjectStep::Failed(e),
            },
            EjectStep::Ejected => EjectStep::Ejected,
            EjectStep::Failed(e) => EjectStep::Failed(e),
        };
        self.step = next;
    }

    /// How the ejection ended, or None while steps remain.
    pub fn result(&self) -> (r: Option<Result<(), EjectError>>)
        ensures
            r == (match self.step {
                EjectStep::Ejected => Some(Ok::<(), EjectError>(())),
                EjectStep::Failed(e) => Some(Err(e)),
                _ => None,
            }),
    {
        match self.step {
            EjectStep::Ejected => Some(Ok(())),
            EjectStep::Failed(e) => Some(Err(e)),
            _ => None,
        }
    }
}

// ---------------------------------------------------------------------------
// Properties of the ejection sequence
// ---------------------------------------------------------------------------

/// The state reached from the start after the given outcomes, in order, for
/// a device with `n` volumes.
pub open spec fn run_steps(n: nat, outcomes: Seq<StepOutcome>) -> EjectStep
    decreases outcomes.len(),
{
    if outcomes.len() == 0 {
        EjectStep::LockVolume(0)
    } else {
        next_step(n, run_steps(n, outcomes.drop_last()), outcomes.last())
    }
}

/// Whether `outcome` counts as success for the report at position `k`: the
/// reports `2i` and `2i + 1` answer the lock and the dismount of volume `i`,
/// the reports `2n` and `2n + 1` the two locating steps (which must find a
/// node), and the report `2n + 2` the eject request.
pub open spec fn accepted_at(n: nat, k: int, outcome: StepOutcome) -> bool {
    if k == 2 * (n as int) || k == 2 * (n as int) + 1 {
        outcome is Found
    } else {
        outcome == StepOutcome::Succeeded
    }
}

/// The error with which the step at position `k` fails.
pub open spec fn error_at(n: nat, k: int) -> EjectError {
    if k < 2 * (n as int) {
        if k % 2 == 0 {
            EjectError::LockFailed
        } else {
            EjectError::DismountFailed
        }
    } else if k == 2 * (n as int) + 2 {
        EjectError::EjectFailed
    } else {
        EjectError::DeviceNotFound
    }
}

/// The state after the accepted reports `outcomes`.
pub open spec fn step_after(n: nat, outcomes: Seq<StepOutcome>) -> EjectStep {
    let k = outcomes.len() as int;
    if k < 2 * (n as int) {
        if k % 2 == 0 {
            EjectStep::LockVolume((k / 2) as usize)
        } else {
            EjectStep::DismountVolume((k / 2) as usize)
        }
    } else if k == 2 * (n as int) {
        EjectStep::LocateDevice
    } else if k == 2 * (n as int) + 1 {
        EjectStep::LocateParent(outcomes[2 * (n as int)]->Found_0)
    } else if k == 2 * (n as int) + 2 {
        EjectStep::RequestEject(outcomes[2 * (n as int) + 1]->Found_0)
    } else {
        EjectStep::Ejected
    }
}

/// Once an ejection has ended, further reports change nothing.
pub proof fn lemma_finished_is_final(n: nat, step: EjectStep, outcome: StepOutcome)
    requires
        is_finished(step),
    ensures
        next_step(n, step, outcome) == step,
{
}

/// While every report so far was accepted, the ejection is at the step after
/// them; the first refused report ends it with that step's error.
#[verifier::spinoff_prover]
#[verifier::rlimit(40)]
pub proof fn lemma_run_steps(n: nat, outcomes: Seq<StepOutcome>)
    requires
        0 < n <= usize::MAX,
    ensures
        (forall|k: int| 0 <= k < outcomes.len() ==> accepted_at(n, k, #[trigger] outcomes[k]))
            ==> run_steps(n, outcomes) == step_after(n, outcomes),
        forall|j: int|
            0 <= j < outcomes.len() && j < 2 * (n as int) + 3 && !accepted_at(n, j, #[trigger] outcomes[j])
                && (forall|k: int| 0 <= k < j ==> accepted_at(n, k, #[trigger] outcomes[k]))
                ==> run_steps(n, outcomes) == EjectStep::Failed(error_at(n, j)),
    decreases outcomes.len(),
{
    if outcomes.len() > 0 {
        let prev = outcomes.drop_last();
        lemma_run_steps(n, prev);
        let m = outcomes.len() as int;
        let last = outcomes[m - 1];
        assert forall|k: int| 0 <= k < prev.len() implies prev[k] == outcomes[k] by {}
        if forall|k: int| 0 <= k < outcomes.len() ==> accepted_at(n, k, #[trigger] outcomes[k]) {
            assert forall|k: int| 0 <= k < prev.len() implies accepted_at(n, k, #[trigger] prev[k]) by {
                assert(prev[k] == outcomes[k]);
            }
            assert(accepted_at(n, m - 1, last));
            let t = m - 1;
            assert(run_steps(n, prev) == step_after(n, prev));
            if t < 2 * (n as int) {
                let i = t / 2;
                if t % 2 == 0 {
                    assert(m % 2 == 1 && m / 2 == i);
                } else {
                    assert(m % 2 == 0 && m / 2 == i + 1);
                }
            } else if t == 2 * (n as int) + 1 {
                assert(prev[2 * (n as int)] == outcomes[2 * (n as int)]);
            }
        }
        assert forall|j: int|
            0 <= j < outcomes.len() && j < 2 * (n as int) + 3 && !accepted_at(n, j, #[trigger] outcomes[j])
                && (forall|k: int| 0 <= k < j ==> accepted_at(n, k, #[trigger] outcomes[k]))
            implies run_steps(n, outcomes) == EjectStep::Failed(error_at(n, j)) by {
            if j < m - 1 {
                assert(prev[j] == outcomes[j]);
                assert forall|k: int| 0 <= k < j implies accepted_at(n, k, #[trigger] prev[k]) by {
                    assert(prev[k] == outcomes[k]);
                }
            } else {
                assert forall|k: int| 0 <= k < prev.len() implies accepted_at(n, k, #[trigger] prev[k]) by {
                    assert(prev[k] == outcomes[k]);
                }
                assert(run_steps(n, prev) == step_after(n, prev));
                let t = m - 1;
                if t < 2 * (n as int) {
                    if t % 2 == 0 {
                    } else {
                    }
                }
            }
        }
    }
}

/// The first refused report among the first `j + 1`, given that report `j`
/// was refused.
proof fn lemma_first_refused(n: nat, outcomes: Seq<StepOutcome>, j: int) -> (first: int)
    requires
        0 <= j < outcomes.len(),
        !accepted_at(n, j, outcomes[j]),
    ensures
        0 <= first <= j,
        !accepted_at(n, first, outcomes[first]),
        forall|k: int| 0 <= k < first ==> accepted_at(n, k, #[trigger] outcomes[k]),
    decreases j,
{
    if forall|k: int| 0 <= k < j ==> accepted_at(n, k, #[trigger] outcomes[k]) {
        j
    } else {
        let i = choose|i: int| 0 <= i < j && !accepted_at(n, i, #[trigger] outcomes[i]);
        lemma_first_refused(n, outcomes, i)
    }
}

/// Every report among the first `m` is accepted when the ejection has reached
/// the eject request or succeeded.
proof fn lemma_accepted_before_request(n: nat, outcomes: Seq<StepOutcome>, m: int)
    requires
        0 < n <= usize::MAX,
        run_steps(n, outcomes) is RequestEject || run_steps(n, outcomes) == EjectStep::Ejected,
        0 <= m <= outcomes.len(),
        m <= 2 * (n as int) + 3,
    ensures
        forall|k: int| 0 <= k < m ==> accepted_at(n, k, #[trigger] outcomes[k]),
{
    lemma_run_steps(n, outcomes);
    assert forall|k: int| 0 <= k < m implies accepted_at(n, k, #[trigger] outcomes[k]) by {
        if !accepted_at(n, k, outcomes[k]) {
            let first = lemma_first_refused(n, outcomes, k);
            assert(run_steps(n, outcomes) == EjectStep::Failed(error_at(n, first)));
        }
    }
}

/// An eject request is made, and an ejection succeeds, only after every
/// volume of the device was locked and then dismounted: the reports at
/// positions `2i` and `2i + 1` answered the lock and the dismount of volume
/// `i` and both succeeded, all before the request at position `2n + 2`. The
/// request goes to the parent of the device node that was found.
pub proof fn lemma_eject_only_after_teardown(n: nat, outcomes: Seq<StepOutcome>)
    requires
        0 < n <= usize::MAX,
        run_steps(n, outcomes) is RequestEject || run_steps(n, outcomes) == EjectStep::Ejected,
    ensures
        outcomes.len() >= 2 * (n as int) + 2,
        forall|i: int|
            0 <= i < n ==> {
                &&& run_steps(n, outcomes.take(2 * i)) == EjectStep::LockVolume(i as usize)
                &&& #[trigger] outcomes[2 * i] == StepOutcome::Succeeded
                &&& run_steps(n, outcomes.take(2 * i + 1)) == EjectStep::DismountVolume(i as usize)
                &&& outcomes[2 * i + 1] == StepOutcome::Succeeded
            },
        outcomes[2 * (n as int)] is Found,
        outcomes[2 * (n as int) + 1] is Found,
        run_steps(n, outcomes.take(2 * (n as int) + 2)) == EjectStep::RequestEject(
            outcomes[2 * (n as int) + 1]->Found_0,
        ),
        run_steps(n, outcomes) is RequestEject ==> outcomes.len() == 2 * (n as int) + 2,
        run_steps(n, outcomes) == EjectStep::Ejected ==> outcomes[2 * (n as int) + 2]
            == StepOutcome::Succeeded,
{
    let len = outcomes.len() as int;
    let m = if len <= 2 * (n as int) + 3 {
        len
    } else {
        2 * (n as int) + 3
    };
    lemma_accepted_before_request(n, outcomes, m);
    lemma_run_steps(n, outcomes);
    if len < 2 * (n as int) + 3 {
        assert(run_steps(n, outcomes) == step_after(n, outcomes));
    }
    assert(len >= 2 * (n as int) + 2);
    assert forall|p: int| 0 <= p <= 2 * (n as int) + 2 implies run_steps(n, #[trigger] outcomes.take(p))
        == step_after(n, outcomes.take(p)) by {
        let t = outcomes.take(p);
        lemma_run_steps(n, t);
        assert forall|k: int| 0 <= k < t.len() implies accepted_at(n, k, #[trigger] t[k]) by {
            assert(t[k] == outcomes[k]);
        }
    }
    assert forall|i: int| 0 <= i < n implies {
        &&& run_steps(n, outcomes.take(2 * i)) == EjectStep::LockVolume(i as usize)
        &&& #[trigger] outcomes[2 * i] == StepOutcome::Succeeded
        &&& run_steps(n, outcomes.take(2 * i + 1)) == EjectStep::DismountVolume(i as usize)
        &&& outcomes[2 * i + 1] == StepOutcome::Succeeded
    } by {
        assert(run_steps(n, outcomes.take(2 * i)) == step_after(n, outcomes.take(2 * i)));
        assert(run_steps(n, outcomes.take(2 * i + 1)) == step_after(n, outcomes.take(2 * i + 1)));
        assert((2 * i) % 2 == 0 && (2 * i) / 2 == i);
        assert((2 * i + 1) % 2 == 1 && (2 * i + 1) / 2 == i);
        assert(accepted_at(n, 2 * i, outcomes[2 * i]));
        assert(accepted_at(n, 2 * i + 1, outcomes[2 * i + 1]));
    }
    assert(accepted_at(n, 2 * (n as int), outcomes[2 * (n as int)]));
    assert(accepted_at(n, 2 * (n as int) + 1, outcomes[2 * (n as int) + 1]));
    let t = outcomes.take(2 * (n as int) + 2);
    assert(run_steps(n, t) == step_after(n, t));
    assert(t[2 * (n as int) + 1] == outcomes[2 * (n as int) + 1]);
    if run_steps(n, outcomes) == EjectStep::Ejected {
        if len == 2 * (n as int) + 2 {
            assert(outcomes =~= t);
        }
        assert(accepted_at(n, 2 * (n as int) + 2, outcomes[2 * (n as int) + 2]));
    }
    if run_steps(n, outcomes) is RequestEject {
        if len > 2 * (n as int) + 2 {
            let u = outcomes.take(2 * (n as int) + 3);
            assert(run_steps(n, u) == step_after(n, u)) by {
                lemma_run_steps(n, u);
                assert forall|k: int| 0 <= k < u.len() implies accepted_at(n, k, #[trigger] u[k]) by {
                    assert(u[k] == outcomes[k]);
                }
            }
            lemma_stays_finished(n, outcomes, 2 * (n as int) + 3);
        }
    }
}

/// After a finished state, later reports keep the ejection finished.
proof fn lemma_stays_finished(n: nat, outcomes: Seq<StepOutcome>, p: int)
    requires
        0 <= p <= outcomes.len(),
        is_finished(run_steps(n, outcomes.take(p))),
    ensures
        run_steps(n, outcomes) == run_steps(n, outcomes.take(p)),
    decreases outcomes.len() - p,
{
    if p == outcomes.len() {
        assert(outcomes.take(p) =~= outcomes);
    } else {
        let q = outcomes.take(p + 1);
        assert(q.drop_last() =~= outcomes.take(p));
        assert(run_steps(n, q) == run_steps(n, outcomes.take(p)));
        lemma_stays_finished(n, outcomes, p + 1);
    }
}

/// An ejection of a device with `n` volumes, after exactly `2n + 3` reports,
/// ends in success exactly when every report was accepted.
pub proof fn lemma_ejected_iff_all_steps_succeed(n: nat, outcomes: Seq<StepOutcome>)
    requires
        0 < n <= usize::MAX,
        outcomes.len() == 2 * (n as int) + 3,
    ensures
        run_steps(n, outcomes) == EjectStep::Ejected <==> (forall|k: int|
            0 <= k < outcomes.len() ==> accepted_at(n, k, #[trigger] outcomes[k])),
{
    lemma_run_steps(n, outcomes);
    if !(forall|k: int| 0 <= k < outcomes.len() ==> accepted_at(n, k, #[trigger] outcomes[k])) {
        let j = choose|j: int| 0 <= j < outcomes.len() && !accepted_at(n, j, #[trigger] outcomes[j]);
        let first = lemma_first_refused(n, outcomes, j);
        assert(run_steps(n, outcomes) == EjectStep::Failed(error_at(n, first)));
    }
}

} // verus!
