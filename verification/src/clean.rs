//! Removing loopback devices, and making the processes that hold them let go.
use vstd::prelude::*;

use crate::error::CamShimError;
use crate::loopback::{
    busy_reason, busy_text, is_busy, is_busy_error, is_cam_shim_daemon_cmdline, is_cam_shim_loopback,
    is_daemon_cmdline, is_gone, is_gone_error, is_own_name, DeviceHolder, LoopbackDeviceInfo,
};
use crate::order::{
    as_positions, lemma_order_of_items, sorted_by, stable_order, Descending,
};
use crate::split::{lemma_filter_nothing, lemma_filter_step};
use crate::sys::{kill_signal, terminate_signal};
use crate::text::{concat2, concat4, str_eq, texts};

verus! {

broadcast use crate::text::group_texts;

/// A holder that was made to let go, and how.
#[derive(Debug)]
pub struct HolderRelease {
    pub holder: DeviceHolder,
    pub signal: String,
}

impl Clone for HolderRelease {
    fn clone(&self) -> (r: Self)
        ensures
            r == *self,
    {
        HolderRelease { holder: self.holder.clone(), signal: self.signal.clone() }
    }
}

/// The releases of one device.
#[derive(Debug)]
pub struct ForceReleaseEntry {
    pub device_path: String,
    pub releases: Vec<HolderRelease>,
}

/// A device that was not removed, and why.
#[derive(Debug)]
pub struct CleanFailure {
    pub path: String,
    pub reason: String,
    pub holders: Vec<DeviceHolder>,
}

/// What a cleaning did.
#[derive(Debug)]
pub struct CleanReport {
    pub removed: Vec<String>,
    pub failed: Vec<CleanFailure>,
    pub skipped: Vec<String>,
    pub force_releases: Vec<ForceReleaseEntry>,
}

impl Default for CleanReport {
    fn default() -> (r: Self)
        ensures
            r.removed@.len() == 0,
            r.failed@.len() == 0,
            r.skipped@.len() == 0,
            r.force_releases@.len() == 0,
    {
        CleanReport {
            removed: Vec::new(),
            failed: Vec::new(),
            skipped: Vec::new(),
            force_releases: Vec::new(),
        }
    }
}

/// A process of the system: its number and its command line, where that can be read.
#[derive(Debug)]
pub struct ProcessCmdline {
    pub pid: u32,
    pub cmdline: Option<Vec<u8>>,
}

/// A process is another run of this program that keeps a camera busy.
pub open spec fn is_other_daemon(own_pid: u32) -> spec_fn(ProcessCmdline) -> bool {
    |process: ProcessCmdline|
        process.pid != own_pid && (process.cmdline matches Some(cmdline) && is_daemon_cmdline(
            cmdline@,
        ))
}

/// The numbers of processes.
pub open spec fn process_pids(processes: Seq<ProcessCmdline>) -> Seq<u32> {
    processes.map_values(|process: ProcessCmdline| process.pid)
}

/// The processes that are asked to end before a forced cleaning, by number.
pub fn stop_cam_shim_processes(processes: &Vec<ProcessCmdline>, own_pid: u32) -> (r: Vec<u32>)
    ensures
        r@ == process_pids(processes@.filter(is_other_daemon(own_pid))),
{
    let mut pids: Vec<u32> = Vec::new();
    let ghost p = is_other_daemon(own_pid);
    let mut i: usize = 0;
    proof {
        lemma_filter_nothing(processes@, p);
        assert(process_pids(processes@.take(0).filter(p)) =~= Seq::<u32>::empty());
    }
    while i < processes.len()
        invariant
            i <= processes@.len(),
            p == is_other_daemon(own_pid),
            pids@ == process_pids(processes@.take(i as int).filter(p)),
        decreases processes@.len() - i,
    {
        let ghost seen = processes@.take(i as int).filter(p);
        let ghost process = processes@[i as int];
        let mut stop = false;
        if processes[i].pid != own_pid {
            if let Some(cmdline) = &processes[i].cmdline {
                stop = is_cam_shim_daemon_cmdline(cmdline.as_slice());
            }
        }
        proof {
            assert(stop == p(process));
            lemma_filter_step(processes@, p, i as int);
            assert(process_pids(seen.push(process)) =~= process_pids(seen).push(process.pid));
        }
        if stop {
            pids.push(processes[i].pid);
        }
        i += 1;
    }
    assert(processes@.take(i as int) =~= processes@);
    pids
}

/// The processes that are asked to end are the other runs of this program that keep a camera busy: none
/// is left out, this process is not among them, and neither is any other.
pub proof fn lemma_daemons_are_stopped(processes: Seq<ProcessCmdline>, own_pid: u32, pids: Seq<u32>)
    requires
        pids == process_pids(processes.filter(is_other_daemon(own_pid))),
    ensures
        forall|i: int|
            0 <= i < processes.len() && (#[trigger] processes[i]).pid != own_pid && (
            processes[i].cmdline matches Some(cmdline) && is_daemon_cmdline(cmdline@))
                ==> pids.contains(processes[i].pid),
        !pids.contains(own_pid),
        forall|pid: u32| #[trigger]
            pids.contains(pid) ==> exists|i: int|
                0 <= i < processes.len() && (#[trigger] processes[i]).pid == pid && (
                processes[i].cmdline matches Some(cmdline) && is_daemon_cmdline(cmdline@)),
{
    let p = is_other_daemon(own_pid);
    let kept = processes.filter(p);
    assert forall|i: int|
        0 <= i < processes.len() && (#[trigger] processes[i]).pid != own_pid && (
        processes[i].cmdline matches Some(cmdline) && is_daemon_cmdline(
            cmdline@,
        )) implies pids.contains(processes[i].pid) by {
        assert(p(processes[i]));
        assert(processes.contains(processes[i]));
        crate::split::lemma_filter_members(processes, p, processes[i]);
        let k = choose|k: int| 0 <= k < kept.len() && kept[k] == processes[i];
        assert(pids[k] == processes[i].pid);
    }
    assert forall|pid: u32| #[trigger] pids.contains(pid) implies pid != own_pid && exists|i: int|
        0 <= i < processes.len() && (#[trigger] processes[i]).pid == pid && (
        processes[i].cmdline matches Some(cmdline) && is_daemon_cmdline(cmdline@)) by {
        let k = choose|k: int| 0 <= k < pids.len() && pids[k] == pid;
        assert(kept.contains(kept[k]));
        crate::split::lemma_filter_members(processes, p, kept[k]);
        let i = choose|i: int| 0 <= i < processes.len() && processes[i] == kept[k];
        assert(processes[i].pid == pid);
    }
}

/// How far a release has come: holders are first asked to end, then ended, and what is left is
/// handed to `fuser`.
#[derive(Debug, Clone, Copy, PartialEq, Eq, Structural)]
pub enum ReleasePhase {
    Terminate,
    Kill,
    Fuser,
    Done,
}

/// The release of one device.
#[derive(Debug)]
pub struct ReleaseRun {
    pub own_pid: u32,
    pub phase: ReleasePhase,
    pub releases: Vec<HolderRelease>,
}

/// Holders other than the given process.
pub open spec fn is_other(own_pid: u32) -> spec_fn(DeviceHolder) -> bool {
    |holder: DeviceHolder| holder.pid != own_pid
}

/// All of the holders are the given process.
pub open spec fn only_own(holders: Seq<DeviceHolder>, own_pid: u32) -> bool {
    forall|i: int| 0 <= i < holders.len() ==> (#[trigger] holders[i]).pid == own_pid
}

/// The name of the signal of a phase.
pub open spec fn signal_name(phase: ReleasePhase) -> Seq<char> {
    match phase {
        ReleasePhase::Terminate => "SIGTERM"@,
        ReleasePhase::Kill => "SIGKILL"@,
        _ => "fuser SIGTERM"@,
    }
}

/// The releases name the holders, in order, with the signal of the phase.
pub open spec fn records(
    releases: Seq<HolderRelease>,
    holders: Seq<DeviceHolder>,
    phase: ReleasePhase,
) -> bool {
    &&& releases.len() == holders.len()
    &&& forall|i: int|
        0 <= i < releases.len() ==> (#[trigger] releases[i]).holder == holders[i]
            && releases[i].signal@ == signal_name(phase)
}

/// No release is of the given process.
pub open spec fn spares(releases: Seq<HolderRelease>, own_pid: u32) -> bool {
    forall|i: int| 0 <= i < releases.len() ==> (#[trigger] releases[i]).holder.pid != own_pid
}

/// Starts to make the holders of a device let go. This process is not among those that have to.
pub fn release_device_holders(own_pid: u32) -> (r: ReleaseRun)
    ensures
        r.own_pid == own_pid,
        r.phase == ReleasePhase::Terminate,
        r.releases@.len() == 0,
        spares(r.releases@, own_pid),
{
    ReleaseRun { own_pid, phase: ReleasePhase::Terminate, releases: Vec::new() }
}

/// The signal that holders get in a phase.
pub open spec fn signal_of(phase: ReleasePhase) -> i32 {
    if phase == ReleasePhase::Kill {
        9
    } else {
        15
    }
}

/// The phase after a pass over the holders.
pub open spec fn phase_after(
    phase: ReleasePhase,
    holders: Seq<DeviceHolder>,
    own_pid: u32,
) -> ReleasePhase {
    match phase {
        ReleasePhase::Terminate => if only_own(holders, own_pid) {
            ReleasePhase::Fuser
        } else {
            ReleasePhase::Kill
        },
        ReleasePhase::Kill => ReleasePhase::Fuser,
        phase => phase,
    }
}

/// `fuser` is run on the device.
pub open spec fn runs_fuser(available: bool, holders: Seq<DeviceHolder>, own_pid: u32) -> bool {
    available && !only_own(holders, own_pid)
}

/// Holders are asked to end before any of them is ended, by signal 15 and then 9. They are ended
/// exactly when some other process still holds the device after it was asked, and `fuser` is run
/// exactly when it is available and some other process holds the device even then.
pub proof fn lemma_release_escalates(holders: Seq<DeviceHolder>, own_pid: u32, available: bool)
    ensures
        signal_of(ReleasePhase::Terminate) == 15,
        signal_of(ReleasePhase::Kill) == 9,
        phase_after(ReleasePhase::Terminate, holders, own_pid) == ReleasePhase::Kill <==> exists|
            i: int,
        | 0 <= i < holders.len() && (#[trigger] holders[i]).pid != own_pid,
        phase_after(ReleasePhase::Terminate, holders, own_pid) == ReleasePhase::Kill || phase_after(
            ReleasePhase::Terminate,
            holders,
            own_pid,
        ) == ReleasePhase::Fuser,
        phase_after(ReleasePhase::Kill, holders, own_pid) == ReleasePhase::Fuser,
        runs_fuser(available, holders, own_pid) <==> available && exists|i: int|
            0 <= i < holders.len() && (#[trigger] holders[i]).pid != own_pid,
{
}

/// The processes that get a signal are the holders of the device other than this process, and each of
/// them is recorded with the signal.
pub proof fn lemma_holders_are_signalled(
    holders: Seq<DeviceHolder>,
    own_pid: u32,
    phase: ReleasePhase,
    pids: Seq<u32>,
    new: Seq<HolderRelease>,
)
    requires
        phase == ReleasePhase::Terminate || phase == ReleasePhase::Kill,
        pids == crate::holders::holder_pids(holders.filter(is_other(own_pid))),
        records(new, holders.filter(is_other(own_pid)), phase),
    ensures
        forall|i: int|
            0 <= i < holders.len() && (#[trigger] holders[i]).pid != own_pid ==> pids.contains(
                holders[i].pid,
            ) && exists|k: int|
                0 <= k < new.len() && (#[trigger] new[k]).holder == holders[i] && new[k].signal@
                    == if phase == ReleasePhase::Terminate {
                    "SIGTERM"@
                } else {
                    "SIGKILL"@
                },
        !pids.contains(own_pid),
        forall|pid: u32| #[trigger]
            pids.contains(pid) ==> exists|i: int|
                0 <= i < holders.len() && (#[trigger] holders[i]).pid == pid,
{
    let p = is_other(own_pid);
    let kept = holders.filter(p);
    assert forall|i: int|
        0 <= i < holders.len() && (#[trigger] holders[i]).pid != own_pid implies pids.contains(
        holders[i].pid,
    ) && exists|k: int|
        0 <= k < new.len() && (#[trigger] new[k]).holder == holders[i] && new[k].signal@ == if phase
            == ReleasePhase::Terminate {
            "SIGTERM"@
        } else {
            "SIGKILL"@
        } by {
        assert(p(holders[i]));
        assert(holders.contains(holders[i]));
        crate::split::lemma_filter_members(holders, p, holders[i]);
        let k = choose|k: int| 0 <= k < kept.len() && kept[k] == holders[i];
        assert(pids[k] == holders[i].pid);
        assert(new[k].holder == holders[i]);
    }
    assert forall|pid: u32| #[trigger] pids.contains(pid) implies pid != own_pid && exists|i: int|
        0 <= i < holders.len() && (#[trigger] holders[i]).pid == pid by {
        let k = choose|k: int| 0 <= k < pids.len() && pids[k] == pid;
        assert(kept.contains(kept[k]));
        crate::split::lemma_filter_members(holders, p, kept[k]);
        let i = choose|i: int| 0 <= i < holders.len() && holders[i] == kept[k];
        assert(holders[i].pid == pid);
    }
}

impl ReleaseRun {
    /// The signal that holders get in this phase.
    pub fn signal(&self) -> (r: i32)
        ensures
            r == signal_of(self.phase),
            r == if self.phase == ReleasePhase::Kill {
                9i32
            } else {
                15i32
            },
    {
        match self.phase {
            ReleasePhase::Kill => kill_signal(),
            _ => terminate_signal(),
        }
    }

    /// Picks the processes to signal: every holder but this process. Each is recorded.
    pub fn signal_holders(&mut self, holders: &Vec<DeviceHolder>) -> (r: Vec<u32>)
        requires
            old(self).phase == ReleasePhase::Terminate || old(self).phase == ReleasePhase::Kill,
            spares(old(self).releases@, old(self).own_pid),
        ensures
            r@ == crate::holders::holder_pids(holders@.filter(is_other(old(self).own_pid))),
            !r@.contains(old(self).own_pid),
            final(self).own_pid == old(self).own_pid,
            final(self).phase == old(self).phase,
            exists|new: Seq<HolderRelease>|
                final(self).releases@ == old(self).releases@ + new && #[trigger] records(
                    new,
                    holders@.filter(is_other(old(self).own_pid)),
                    old(self).phase,
                ),
            spares(final(self).releases@, old(self).own_pid),
    {
        let ghost own = self.own_pid;
        let ghost p = is_other(own);
        let ghost was = self.releases@;
        let mut pids: Vec<u32> = Vec::new();
        let mut new: Vec<HolderRelease> = Vec::new();
        let mut i: usize = 0;
        proof {
            lemma_filter_nothing(holders@, p);
        }
        while i < holders.len()
            invariant
                i <= holders@.len(),
                own == self.own_pid,
                self.releases@ == was,
                self.phase == old(self).phase,
                p == is_other(own),
                old(self).phase == ReleasePhase::Terminate || old(self).phase
                    == ReleasePhase::Kill,
                pids@ == crate::holders::holder_pids(holders@.take(i as int).filter(p)),
                !pids@.contains(own),
                records(new@, holders@.take(i as int).filter(p), self.phase),
                spares(new@, own),
            decreases holders@.len() - i,
        {
            let ghost seen = holders@.take(i as int).filter(p);
            let ghost holder = holders@[i as int];
            let ghost listed = new@;
            let ghost known = pids@;
            proof {
                lemma_filter_step(holders@, p, i as int);
                assert(crate::holders::holder_pids(seen.push(holder))
                    =~= crate::holders::holder_pids(seen).push(holder.pid));
            }
            if holders[i].pid != self.own_pid {
                let signal = match self.phase {
                    ReleasePhase::Kill => "SIGKILL".to_string(),
                    _ => "SIGTERM".to_string(),
                };
                pids.push(holders[i].pid);
                new.push(HolderRelease { holder: holders[i].clone(), signal });
                proof {
                    crate::order::lemma_push_contains(known, holder.pid, own);
                    assert(records(new@, seen.push(holder), self.phase)) by {
                        assert forall|k: int| 0 <= k < new@.len() implies (
                        #[trigger] new@[k]).holder == seen.push(holder)[k] && new@[k].signal@
                            == signal_name(self.phase) by {
                            if k < listed.len() {
                                assert(listed[k].holder == seen[k]);
                            }
                        }
                    }
                }
            }
            i += 1;
        }
        assert(holders@.take(i as int) =~= holders@);
        let ghost added = new@;
        self.releases.append(&mut new);
        assert(self.releases@ =~= was + added);
        pids
    }

    /// The phase after a pass, given who holds the device now.
    pub fn pass_done(&mut self, holders: &Vec<DeviceHolder>)
        ensures
            final(self).own_pid == old(self).own_pid,
            final(self).releases == old(self).releases,
            final(self).phase == phase_after(old(self).phase, holders@, old(self).own_pid),
            final(self).phase == match old(self).phase {
                ReleasePhase::Terminate => if only_own(holders@, old(self).own_pid) {
                    ReleasePhase::Fuser
                } else {
                    ReleasePhase::Kill
                },
                ReleasePhase::Kill => ReleasePhase::Fuser,
                phase => phase,
            },
    {
        match self.phase {
            ReleasePhase::Terminate => {
                let mut i: usize = 0;
                let mut all_own = true;
                while i < holders.len()
                    invariant
                        i <= holders@.len(),
                        all_own <==> only_own(holders@.take(i as int), self.own_pid),
                    decreases holders@.len() - i,
                {
                    proof {
                        let seen = holders@.take(i as int);
                        let more = holders@.take(i + 1);
                        assert forall|k: int| 0 <= k < seen.len() implies seen[k] == more[k] by {}
                        if only_own(more, self.own_pid) {
                            assert forall|k: int| 0 <= k < seen.len() implies (
                            #[trigger] seen[k]).pid == self.own_pid by {
                                assert(more[k].pid == self.own_pid);
                            }
                            assert(more[i as int].pid == self.own_pid);
                        }
                    }
                    if holders[i].pid != self.own_pid {
                        all_own = false;
                    }
                    i += 1;
                }
                assert(holders@.take(i as int) =~= holders@);
                self.phase = if all_own {
                    ReleasePhase::Fuser
                } else {
                    ReleasePhase::Kill
                };
            },
            ReleasePhase::Kill => {
                self.phase = ReleasePhase::Fuser;
            },
            _ => {},
        }
    }

    /// Ends the release. Whether `fuser` is to be run on the device: where it is available and some
    /// other process still holds the device. The first such holder is recorded.
    pub fn finish(&mut self, holders: &Vec<DeviceHolder>, available: bool) -> (r: bool)
        requires
            spares(old(self).releases@, old(self).own_pid),
        ensures
            r == runs_fuser(available, holders@, old(self).own_pid),
            r == (available && !only_own(holders@, old(self).own_pid)),
            final(self).own_pid == old(self).own_pid,
            final(self).phase == ReleasePhase::Done,
            !r ==> final(self).releases == old(self).releases,
            r ==> exists|release: HolderRelease|
                {
                    &&& final(self).releases@ == #[trigger] old(self).releases@.push(release)
                    &&& release.holder == holders@.filter(is_other(old(self).own_pid))[0]
                    &&& release.signal@ == "fuser SIGTERM"@
                },
            spares(final(self).releases@, old(self).own_pid),
    {
        self.phase = ReleasePhase::Done;
        if !available {
            return false;
        }
        let ghost p = is_other(self.own_pid);
        let mut i: usize = 0;
        proof {
            lemma_filter_nothing(holders@, p);
        }
        while i < holders.len()
            invariant
                i <= holders@.len(),
                available,
                p == is_other(self.own_pid),
                self.phase == ReleasePhase::Done,
                self.own_pid == old(self).own_pid,
                self.releases == old(self).releases,
                spares(self.releases@, self.own_pid),
                forall|j: int| 0 <= j < i ==> (#[trigger] holders@[j]).pid == self.own_pid,
                holders@.take(i as int).filter(p).len() == 0,
            decreases holders@.len() - i,
        {
            proof {
                lemma_filter_step(holders@, p, i as int);
            }
            if holders[i].pid != self.own_pid {
                let release = HolderRelease {
                    holder: holders[i].clone(),
                    signal: "fuser SIGTERM".to_string(),
                };
                proof {
                    let head = holders@.take(i + 1);
                    let tail = holders@.skip(i + 1);
                    assert(holders@ =~= head + tail);
                    Seq::filter_distributes_over_add(head, tail, p);
                    assert(holders@.filter(p)[0] == holders@[i as int]);
                    assert(release.holder == holders@[i as int]);
                }
                self.releases.push(release);
                assert(self.releases@ == old(self).releases@.push(release));
                return true;
            }
            i += 1;
        }
        false
    }
}

/// How far a cleaning has come.
#[derive(Debug, Clone, Copy, PartialEq, Eq, Structural)]
pub enum CleanPhase {
    /// The daemons of this program are to be stopped.
    StopDaemons,
    /// The loopback devices are to be listed.
    List,
    /// The holders of the device are to be made to let go.
    FirstRelease,
    /// The device is to be removed.
    FirstRemove,
    /// The device was busy: its holders are to be made to let go once more.
    SecondRelease,
    /// The device is to be removed, after a pause.
    SecondRemove,
    /// No device is left.
    Finished,
}

/// A cleaning of the loopback devices of the system.
#[derive(Debug)]
pub struct CleanRun {
    pub all: bool,
    pub force: bool,
    /// The devices, the one with the highest number first.
    pub devices: Vec<LoopbackDeviceInfo>,
    pub at: usize,
    pub phase: CleanPhase,
    pub report: CleanReport,
}

/// Devices with a higher number come first.
pub open spec fn higher_first() -> spec_fn(LoopbackDeviceInfo, LoopbackDeviceInfo) -> bool {
    |a: LoopbackDeviceInfo, b: LoopbackDeviceInfo| a.index > b.index
}

/// The devices that a cleaning may remove: those of this program, or all.
pub open spec fn selected(all: bool) -> spec_fn(LoopbackDeviceInfo) -> bool {
    |device: LoopbackDeviceInfo| all || is_own_name(device.name@)
}

/// The devices that a cleaning leaves alone.
pub open spec fn spared(all: bool) -> spec_fn(LoopbackDeviceInfo) -> bool {
    |device: LoopbackDeviceInfo| !all && !is_own_name(device.name@)
}

/// A device as the report names it.
pub open spec fn device_text(device: LoopbackDeviceInfo) -> Seq<char> {
    device.path@ + " ("@ + device.name@ + ")"@
}

/// A device that was gone before it could be removed, as the report names it.
pub open spec fn gone_text(device: LoopbackDeviceInfo) -> Seq<char> {
    device_text(device) + " [already gone]"@
}

/// Devices as the report names them.
pub open spec fn device_texts(devices: Seq<LoopbackDeviceInfo>) -> Seq<Seq<char>> {
    devices.map_values(|device: LoopbackDeviceInfo| device_text(device))
}

/// The position of the next device to clean, from position `from` on.
pub open spec fn next_selected(
    devices: Seq<LoopbackDeviceInfo>,
    all: bool,
    from: int,
) -> int
    decreases devices.len() - from,
{
    if from < 0 || from >= devices.len() || selected(all)(devices[from]) {
        from
    } else {
        next_selected(devices, all, from + 1)
    }
}

/// Why a device was not removed, if it was not.
pub open spec fn failure_reason(
    path: Seq<char>,
    result: Result<(), CamShimError>,
    registered: bool,
    holders: Seq<DeviceHolder>,
) -> Option<Seq<char>> {
    match result {
        Ok(()) => if registered {
            Some("device still registered after remove"@)
        } else {
            None
        },
        Err(err) => if is_busy(err) {
            Some(busy_text(path, holders))
        } else if is_gone(err) && !registered {
            None
        } else {
            Some(err.text())
        },
    }
}

/// A removed device as the report names it.
pub open spec fn removed_text(device: LoopbackDeviceInfo, result: Result<(), CamShimError>) -> Seq<
    char,
> {
    if result is Ok {
        device_text(device)
    } else {
        gone_text(device)
    }
}

/// The outcome of a removal is added to the report.
pub open spec fn outcome_noted(
    before: CleanReport,
    after: CleanReport,
    device: LoopbackDeviceInfo,
    result: Result<(), CamShimError>,
    registered: bool,
    holders: Seq<DeviceHolder>,
) -> bool {
    match failure_reason(device.path@, result, registered, holders) {
        None => {
            &&& texts(after.removed@) == texts(before.removed@).push(removed_text(device, result))
            &&& after.failed == before.failed
        },
        Some(reason) => {
            &&& after.removed == before.removed
            &&& after.failed@.len() == before.failed@.len() + 1
            &&& after.failed@.drop_last() == before.failed@
            &&& after.failed@.last().path@ == device.path@
            &&& after.failed@.last().reason@ == reason
            &&& after.failed@.last().holders@ == holders
        },
    }
}

/// A device counts as removed where its removal succeeded and the system lists it no more, or where it
/// was gone and is not listed; in every other case it counts as failed, under its path and with its
/// holders.
pub proof fn lemma_removal_outcome(
    before: CleanReport,
    after: CleanReport,
    device: LoopbackDeviceInfo,
    result: Result<(), CamShimError>,
    registered: bool,
    holders: Seq<DeviceHolder>,
)
    requires
        outcome_noted(before, after, device, result, registered, holders),
    ensures
        result is Ok && !registered ==> after.failed == before.failed && texts(after.removed@)
            == texts(before.removed@).push(device.path@ + " ("@ + device.name@ + ")"@),
        (result matches Err(CamShimError::Io(failure)) && failure.os_code == Some(19i32))
            && !registered ==> after.failed == before.failed && texts(after.removed@) == texts(
            before.removed@,
        ).push(device.path@ + " ("@ + device.name@ + ")"@ + " [already gone]"@),
        registered || (result is Err && !(result matches Err(CamShimError::Io(failure))
            && failure.os_code == Some(19i32))) ==> after.removed == before.removed
            && after.failed@.len() == before.failed@.len() + 1 && after.failed@.drop_last()
            == before.failed@ && after.failed@.last().path@ == device.path@
            && after.failed@.last().holders@ == holders,
        result is Ok && registered ==> after.failed@.last().reason@
            == "device still registered after remove"@,
        (result matches Err(CamShimError::Io(failure)) && failure.os_code == Some(16i32))
            ==> device.path@.is_prefix_of(after.failed@.last().reason@),
{
    if result matches Err(CamShimError::Io(failure)) && failure.os_code == Some(16i32) {
        let reason = busy_text(device.path@, holders);
        if holders.len() == 0 {
        } else {
            let rest = " is held open by "@ + crate::loopback::holder_list(holders)
                + " — close those apps or run `cam-shim clean --force`"@;
            assert(reason =~= device.path@ + rest);
        }
        assert(device.path@.is_prefix_of(reason));
    }
}

/// A device is among those that could not be removed.
pub open spec fn has_failure(failed: Seq<CleanFailure>, path: Seq<char>) -> bool {
    exists|k: int| 0 <= k < failed.len() && (#[trigger] failed[k]).path@ == path
}

/// What became of a device is reported: it was removed, it was gone, or it could not be removed.
pub open spec fn is_accounted_for(
    device: LoopbackDeviceInfo,
    removed: Seq<Seq<char>>,
    failed: Seq<CleanFailure>,
) -> bool {
    ||| has_failure(failed, device.path@)
    ||| removed.contains(device_text(device))
    ||| removed.contains(gone_text(device))
}

/// A line names one of the given devices that may be removed, as removed or gone.
pub open spec fn names_removed(devices: Seq<LoopbackDeviceInfo>, all: bool, line: Seq<char>) -> bool {
    exists|i: int|
        0 <= i < devices.len() && selected(all)(#[trigger] devices[i]) && (line == device_text(
            devices[i],
        ) || line == gone_text(devices[i]))
}

/// A path is that of one of the given devices that may be removed.
pub open spec fn names_selected(devices: Seq<LoopbackDeviceInfo>, all: bool, path: Seq<char>) -> bool {
    exists|i: int|
        0 <= i < devices.len() && selected(all)(#[trigger] devices[i]) && path == devices[i].path@
}

/// The outcomes are those of the devices that may be removed: of each of them what became of it is
/// reported, and of no other device.
pub open spec fn outcomes_match(
    devices: Seq<LoopbackDeviceInfo>,
    all: bool,
    removed: Seq<Seq<char>>,
    failed: Seq<CleanFailure>,
) -> bool {
    &&& forall|i: int|
        0 <= i < devices.len() && selected(all)(#[trigger] devices[i]) ==> is_accounted_for(
            devices[i],
            removed,
            failed,
        )
    &&& forall|k: int|
        0 <= k < removed.len() ==> names_removed(devices, all, #[trigger] removed[k])
    &&& forall|k: int|
        0 <= k < failed.len() ==> names_selected(devices, all, (#[trigger] failed[k]).path@)
    &&& removed.len() + failed.len() == devices.filter(selected(all)).len()
}

/// One device more that is left alone changes nothing.
proof fn lemma_outcomes_pass_by(
    devices: Seq<LoopbackDeviceInfo>,
    all: bool,
    at: int,
    removed: Seq<Seq<char>>,
    failed: Seq<CleanFailure>,
)
    requires
        0 <= at < devices.len(),
        !selected(all)(devices[at]),
        outcomes_match(devices.take(at), all, removed, failed),
    ensures
        outcomes_match(devices.take(at + 1), all, removed, failed),
{
    let seen = devices.take(at);
    let more = devices.take(at + 1);
    lemma_filter_step(devices, selected(all), at);
    lemma_names_stay(devices, all, at, removed, failed);
    assert forall|i: int| 0 <= i < more.len() && selected(all)(
        #[trigger] more[i],
    ) implies is_accounted_for(more[i], removed, failed) by {
        assert(more[i] == devices[i]);
        assert(more[i] == seen[i]);
    }
}

/// What names one of the first devices names one of the first and the next.
proof fn lemma_names_stay(
    devices: Seq<LoopbackDeviceInfo>,
    all: bool,
    at: int,
    removed: Seq<Seq<char>>,
    failed: Seq<CleanFailure>,
)
    requires
        0 <= at < devices.len(),
        outcomes_match(devices.take(at), all, removed, failed),
    ensures
        forall|k: int|
            0 <= k < removed.len() ==> names_removed(
                devices.take(at + 1),
                all,
                #[trigger] removed[k],
            ),
        forall|k: int|
            0 <= k < failed.len() ==> names_selected(
                devices.take(at + 1),
                all,
                (#[trigger] failed[k]).path@,
            ),
{
    let seen = devices.take(at);
    let more = devices.take(at + 1);
    assert forall|k: int| 0 <= k < removed.len() implies names_removed(
        more,
        all,
        #[trigger] removed[k],
    ) by {
        assert(names_removed(seen, all, removed[k]));
        let i = choose|i: int|
            0 <= i < seen.len() && selected(all)(#[trigger] seen[i]) && (removed[k] == device_text(
                seen[i],
            ) || removed[k] == gone_text(seen[i]));
        assert(more[i] == seen[i]);
    }
    assert forall|k: int| 0 <= k < failed.len() implies names_selected(
        more,
        all,
        (#[trigger] failed[k]).path@,
    ) by {
        assert(names_selected(seen, all, failed[k].path@));
        let i = choose|i: int|
            0 <= i < seen.len() && selected(all)(#[trigger] seen[i]) && failed[k].path@
                == seen[i].path@;
        assert(more[i] == seen[i]);
    }
}

/// The outcome of the next device, added to those of the devices before it.
proof fn lemma_outcomes_step(
    devices: Seq<LoopbackDeviceInfo>,
    all: bool,
    at: int,
    before: CleanReport,
    after: CleanReport,
    result: Result<(), CamShimError>,
    registered: bool,
    holders: Seq<DeviceHolder>,
)
    requires
        0 <= at < devices.len(),
        selected(all)(devices[at]),
        outcomes_match(devices.take(at), all, texts(before.removed@), before.failed@),
        outcome_noted(before, after, devices[at], result, registered, holders),
    ensures
        outcomes_match(devices.take(at + 1), all, texts(after.removed@), after.failed@),
{
    let device = devices[at];
    let seen = devices.take(at);
    let more = devices.take(at + 1);
    let was = texts(before.removed@);
    let removed = texts(after.removed@);
    let failed = after.failed@;
    lemma_filter_step(devices, selected(all), at);
    lemma_names_stay(devices, all, at, was, before.failed@);
    assert(more[at] == device);
    let gone = failure_reason(device.path@, result, registered, holders) is None;
    if gone {
        assert(removed == was.push(removed_text(device, result)));
        assert(removed[was.len() as int] == removed_text(device, result));
        assert forall|line: Seq<char>| was.contains(line) implies #[trigger] removed.contains(
            line,
        ) by {
            crate::order::lemma_push_contains(was, removed_text(device, result), line);
        }
        assert(removed.contains(removed_text(device, result)));
    } else {
        assert(removed == was);
        assert(failed.drop_last() == before.failed@);
        assert(failed[failed.len() - 1] == failed.last());
        assert(has_failure(failed, device.path@));
    }
    assert forall|path: Seq<char>| has_failure(
        before.failed@,
        path,
    ) implies #[trigger] has_failure(failed, path) by {
        let k = choose|k: int|
            0 <= k < before.failed@.len() && (#[trigger] before.failed@[k]).path@ == path;
        assert(failed[k] == before.failed@[k]);
    }
    assert forall|i: int| 0 <= i < more.len() && selected(all)(
        #[trigger] more[i],
    ) implies is_accounted_for(more[i], removed, failed) by {
        if i < at {
            assert(more[i] == seen[i]);
            assert(is_accounted_for(seen[i], was, before.failed@));
        }
    }
    assert forall|k: int| 0 <= k < removed.len() implies names_removed(
        more,
        all,
        #[trigger] removed[k],
    ) by {
        if k < was.len() {
            assert(removed[k] == was[k]);
        }
    }
    assert forall|k: int| 0 <= k < failed.len() implies names_selected(
        more,
        all,
        (#[trigger] failed[k]).path@,
    ) by {
        if k < before.failed@.len() {
            assert(failed[k] == before.failed@[k]);
        }
    }
}

/// Entries for a device, as a predicate.
pub open spec fn is_entry_for(path: Seq<char>) -> spec_fn(ForceReleaseEntry) -> bool {
    |entry: ForceReleaseEntry| entry.device_path@ == path
}

/// The position of the first entry for a device, or the number of entries.
pub open spec fn entry_for(entries: Seq<ForceReleaseEntry>, path: Seq<char>) -> int {
    crate::split::first_where(entries, is_entry_for(path))
}

/// Releases of a device are added to the entries: to the first entry for the device if `merge` is
/// set and there is one, else as an entry of their own.
pub open spec fn releases_noted(
    before: Seq<ForceReleaseEntry>,
    after: Seq<ForceReleaseEntry>,
    path: Seq<char>,
    releases: Seq<HolderRelease>,
    merge: bool,
) -> bool {
    let at = entry_for(before, path);
    if releases.len() == 0 {
        after == before
    } else if merge && at < before.len() {
        &&& after.len() == before.len()
        &&& forall|i: int| 0 <= i < after.len() && i != at ==> after[i] == before[i]
        &&& after[at].device_path@ == path
        &&& after[at].releases@ == before[at].releases@ + releases
    } else {
        &&& after.len() == before.len() + 1
        &&& after.drop_last() == before
        &&& after.last().device_path@ == path
        &&& after.last().releases@ == releases
    }
}

/// No release is lost: the releases of a device stand behind those that were noted for it before, or
/// in an entry of their own, and every other entry stays as it was.
pub proof fn lemma_releases_are_kept(
    before: Seq<ForceReleaseEntry>,
    after: Seq<ForceReleaseEntry>,
    path: Seq<char>,
    releases: Seq<HolderRelease>,
    merge: bool,
)
    requires
        releases_noted(before, after, path, releases, merge),
    ensures
        after.len() >= before.len(),
        forall|i: int|
            0 <= i < before.len() ==> (#[trigger] after[i]).device_path@ == before[i].device_path@
                && before[i].releases@.is_prefix_of(after[i].releases@) && (before[i].device_path@
                != path ==> after[i] == before[i]),
        releases.len() > 0 ==> exists|i: int|
            0 <= i < after.len() && (#[trigger] after[i]).device_path@ == path
                && releases.is_suffix_of(after[i].releases@),
        releases.len() == 0 ==> after == before,
{
    let is_entry = is_entry_for(path);
    let at = entry_for(before, path);
    crate::split::lemma_first_found(before, is_entry);
    if releases.len() == 0 {
        assert forall|i: int| 0 <= i < before.len() implies before[i].releases@.is_prefix_of(
            #[trigger] after[i].releases@,
        ) by {}
    } else if merge && at < before.len() {
        assert(is_entry(before[at]));
        assert forall|i: int| 0 <= i < before.len() implies (#[trigger] after[i]).device_path@
            == before[i].device_path@ && before[i].releases@.is_prefix_of(after[i].releases@) by {
            if i == at {
                assert(before[at].releases@.is_prefix_of(before[at].releases@ + releases));
            } else {
                assert(after[i] == before[i]);
            }
        }
        let all = after[at].releases@;
        assert(all.subrange(all.len() - releases.len(), all.len() as int) =~= releases);
        assert(releases.is_suffix_of(all));
    } else {
        assert forall|i: int| 0 <= i < before.len() implies #[trigger] after[i] == before[i] by {
            assert(after.drop_last()[i] == after[i]);
        }
        let last = after.len() - 1;
        assert(releases.is_suffix_of(after[last].releases@));
    }
}

/// What follows on an attempt to remove the device of a cleaning.
pub open spec fn removal_followed(
    before: CleanRun,
    after: CleanRun,
    result: Result<(), CamShimError>,
    registered: bool,
    holders: Seq<DeviceHolder>,
) -> bool {
    &&& after.devices == before.devices
    &&& if before.force && before.phase == CleanPhase::FirstRemove && (result matches Err(err)
        && is_busy(err)) {
        &&& after.at == before.at
        &&& after.phase == CleanPhase::SecondRelease
        &&& after.report == before.report
    } else {
        &&& after.at == next_selected(before.devices@, before.all, before.at + 1)
        &&& after.phase == phase_at(before.force, after.at as int, before.devices@.len() as int)
        &&& outcome_noted(
            before.report,
            after.report,
            before.devices@[before.at as int],
            result,
            registered,
            holders,
        )
    }
}

/// The phase of a cleaning that comes to a device, or to the end.
pub open spec fn phase_at(force: bool, at: int, len: int) -> CleanPhase {
    if at == len {
        CleanPhase::Finished
    } else if force {
        CleanPhase::FirstRelease
    } else {
        CleanPhase::FirstRemove
    }
}

proof fn lemma_next_selected(devices: Seq<LoopbackDeviceInfo>, all: bool, from: int)
    requires
        0 <= from <= devices.len(),
    ensures
        from <= next_selected(devices, all, from) <= devices.len(),
        forall|i: int|
            from <= i < next_selected(devices, all, from) ==> !all && !is_own_name(
                (#[trigger] devices[i]).name@,
            ),
        next_selected(devices, all, from) < devices.len() ==> all || is_own_name(
            devices[next_selected(devices, all, from)].name@,
        ),
    decreases devices.len() - from,
{
    if from < devices.len() && !selected(all)(devices[from]) {
        lemma_next_selected(devices, all, from + 1);
    }
}

/// A busy device is released and tried once more in a forced cleaning, and only once. After every other
/// attempt the cleaning comes to the next device that it may remove; it passes by none of those, and
/// is finished exactly when none is left.
pub proof fn lemma_cleaning_goes_on(
    before: CleanRun,
    after: CleanRun,
    result: Result<(), CamShimError>,
    registered: bool,
    holders: Seq<DeviceHolder>,
)
    requires
        before.wf(),
        before.phase == CleanPhase::FirstRemove || before.phase == CleanPhase::SecondRemove,
        removal_followed(before, after, result, registered, holders),
    ensures
        after.phase == CleanPhase::SecondRelease <==> before.force && before.phase
            == CleanPhase::FirstRemove && (result matches Err(CamShimError::Io(failure))
            && failure.os_code == Some(16i32)),
        after.phase == CleanPhase::SecondRelease ==> after.at == before.at && after.report
            == before.report,
        after.phase != CleanPhase::SecondRelease ==> {
            &&& before.at < after.at <= before.devices@.len()
            &&& forall|i: int|
                before.at < i < after.at ==> !before.all && !is_own_name(
                    (#[trigger] before.devices@[i]).name@,
                )
            &&& after.at < before.devices@.len() ==> before.all || is_own_name(
                before.devices@[after.at as int].name@,
            )
            &&& after.phase == CleanPhase::Finished <==> after.at == before.devices@.len()
            &&& after.report.removed@.len() + after.report.failed@.len()
                == before.report.removed@.len() + before.report.failed@.len() + 1
        },
{
    lemma_next_selected(before.devices@, before.all, before.at + 1);
    if after.phase != CleanPhase::SecondRelease {
        assert(texts(after.report.removed@).len() == after.report.removed@.len());
        assert(texts(before.report.removed@).len() == before.report.removed@.len());
    }
}

/// A cleaning has taken note of the loopback devices of the system.
pub open spec fn starts_with_devices(
    devices: Seq<LoopbackDeviceInfo>,
    run: CleanRun,
) -> bool {
    &&& sorted_by(devices, run.devices@, higher_first())
    &&& run.at == next_selected(run.devices@, run.all, 0)
    &&& run.phase == phase_at(run.force, run.at as int, run.devices@.len() as int)
}

/// A cleaning goes through all devices that were listed, the one with the highest number first, and
/// starts at the first one that it may remove.
pub proof fn lemma_cleaning_starts(
    devices: Seq<LoopbackDeviceInfo>,
    run: CleanRun,
    device: LoopbackDeviceInfo,
    i: int,
    j: int,
)
    requires
        starts_with_devices(devices, run),
    ensures
        devices.contains(device) <==> run.devices@.contains(device),
        devices.len() == run.devices@.len(),
        0 <= i < j < run.devices@.len() ==> run.devices@[i].index >= run.devices@[j].index,
        0 <= i < run.at ==> !run.all && !is_own_name(run.devices@[i].name@),
        run.phase == CleanPhase::Finished <==> forall|k: int|
            0 <= k < run.devices@.len() ==> !run.all && !is_own_name(
                (#[trigger] run.devices@[k]).name@,
            ),
        run.phase != CleanPhase::Finished && run.force ==> run.phase == CleanPhase::FirstRelease,
        run.phase != CleanPhase::Finished && !run.force ==> run.phase == CleanPhase::FirstRemove,
{
    crate::order::lemma_sorted_members(devices, run.devices@, higher_first(), device);
    if 0 <= i < j < run.devices@.len() {
        crate::order::lemma_sorted_in_order(devices, run.devices@, higher_first(), i, j);
    }
    lemma_next_selected(run.devices@, run.all, 0);
    if run.phase != CleanPhase::Finished {
        assert(run.all || is_own_name(run.devices@[run.at as int].name@));
    }
}

/// The phase that a cleaning starts in.
pub open spec fn first_phase(force: bool) -> CleanPhase {
    if force {
        CleanPhase::StopDaemons
    } else {
        CleanPhase::List
    }
}

/// A cleaning stops the daemons of this program before anything else exactly when it is forced.
pub proof fn lemma_forced_clean_stops_daemons(force: bool)
    ensures
        first_phase(force) == CleanPhase::StopDaemons <==> force,
        first_phase(force) == CleanPhase::List <==> !force,
{
}

impl CleanRun {
    /// The devices are not listed yet.
    pub open spec fn is_ahead(self) -> bool {
        self.phase == CleanPhase::StopDaemons || self.phase == CleanPhase::List
    }

    /// The run stands at a device that it may clean, or at the end; what it passed by is reported
    /// as skipped, and the outcomes in the report are those of the devices before it that it may
    /// clean. Daemons are stopped and holders released in a forced cleaning only.
    pub open spec fn wf(self) -> bool {
        &&& self.at <= self.devices@.len()
        &&& self.is_ahead() ==> self.devices@.len() == 0 && self.report.force_releases@.len() == 0
        &&& self.phase == CleanPhase::Finished || self.is_ahead() <==> self.at
            == self.devices@.len()
        &&& self.at < self.devices@.len() ==> selected(self.all)(self.devices@[self.at as int])
        &&& !self.force ==> (self.phase == CleanPhase::List || self.phase == CleanPhase::FirstRemove
            || self.phase == CleanPhase::Finished) && self.report.force_releases@.len() == 0
        &&& texts(self.report.skipped@) == device_texts(
            self.devices@.take(self.at as int).filter(spared(self.all)),
        )
        &&& outcomes_match(
            self.devices@.take(self.at as int),
            self.all,
            texts(self.report.removed@),
            self.report.failed@,
        )
    }

    /// Passes by devices that are left alone.
    fn skip(&mut self)
        requires
            old(self).at <= old(self).devices@.len(),
            texts(old(self).report.skipped@) == device_texts(
                old(self).devices@.take(old(self).at as int).filter(spared(old(self).all)),
            ),
            outcomes_match(
                old(self).devices@.take(old(self).at as int),
                old(self).all,
                texts(old(self).report.removed@),
                old(self).report.failed@,
            ),
            !old(self).force ==> old(self).report.force_releases@.len() == 0,
        ensures
            final(self).wf(),
            final(self).all == old(self).all,
            final(self).force == old(self).force,
            final(self).devices == old(self).devices,
            final(self).at == next_selected(
                old(self).devices@,
                old(self).all,
                old(self).at as int,
            ),
            final(self).phase == if final(self).at == old(self).devices@.len() {
                CleanPhase::Finished
            } else if old(self).force {
                CleanPhase::FirstRelease
            } else {
                CleanPhase::FirstRemove
            },
            texts(final(self).report.skipped@) == texts(old(self).report.skipped@) + device_texts(
                old(self).devices@.subrange(old(self).at as int, final(self).at as int),
            ),
            final(self).report.removed == old(self).report.removed,
            final(self).report.failed == old(self).report.failed,
            final(self).report.force_releases == old(self).report.force_releases,
    {
        let ghost from = self.at as int;
        let ghost devices = self.devices@;
        let ghost was = texts(self.report.skipped@);
        assert(was + device_texts(devices.subrange(from, from)) =~= was);
        while self.at < self.devices.len() && !(self.all || is_cam_shim_loopback(
            &self.devices[self.at].name,
        ))
            invariant
                0 <= from <= self.at <= devices.len(),
                self.devices@ == devices,
                self.all == old(self).all,
                self.force == old(self).force,
                self.devices == old(self).devices,
                self.report.removed == old(self).report.removed,
                self.report.failed == old(self).report.failed,
                self.report.force_releases == old(self).report.force_releases,
                next_selected(devices, self.all, from) == next_selected(
                    devices,
                    self.all,
                    self.at as int,
                ),
                texts(self.report.skipped@) == was + device_texts(
                    devices.subrange(from, self.at as int),
                ),
                texts(self.report.skipped@) == device_texts(
                    devices.take(self.at as int).filter(spared(self.all)),
                ),
                outcomes_match(
                    devices.take(self.at as int),
                    self.all,
                    texts(self.report.removed@),
                    self.report.failed@,
                ),
            decreases devices.len() - self.at,
        {
            let ghost at = self.at as int;
            let ghost passed = devices.take(at).filter(spared(self.all));
            let line = concat4(
                &self.devices[self.at].path,
                " (",
                &self.devices[self.at].name,
                ")",
            );
            proof {
                lemma_filter_step(devices, spared(self.all), at);
                lemma_outcomes_pass_by(
                    devices,
                    self.all,
                    at,
                    texts(self.report.removed@),
                    self.report.failed@,
                );
                assert(device_texts(passed.push(devices[at])) =~= device_texts(passed).push(
                    device_text(devices[at]),
                ));
                assert(device_texts(devices.subrange(from, at + 1)) =~= device_texts(
                    devices.subrange(from, at),
                ).push(device_text(devices[at])));
                assert(was + device_texts(devices.subrange(from, at + 1)) =~= (was + device_texts(
                    devices.subrange(from, at),
                )).push(device_text(devices[at])));
            }
            self.report.skipped.push(line);
            self.at += 1;
        }
        self.phase = if self.at == self.devices.len() {
            CleanPhase::Finished
        } else if self.force {
            CleanPhase::FirstRelease
        } else {
            CleanPhase::FirstRemove
        };
    }

    /// The device that is being cleaned.
    pub fn device(&self) -> (r: &LoopbackDeviceInfo)
        requires
            self.wf(),
            self.phase != CleanPhase::Finished,
            !self.is_ahead(),
        ensures
            *r == self.devices@[self.at as int],
            self.all || is_own_name(r.name@),
    {
        &self.devices[self.at]
    }

    /// Takes note of the releases of the device: it is removed next.
    pub fn released(&mut self, releases: Vec<HolderRelease>)
        requires
            old(self).wf(),
            old(self).phase == CleanPhase::FirstRelease || old(self).phase
                == CleanPhase::SecondRelease,
        ensures
            final(self).wf(),
            final(self).all == old(self).all,
            final(self).force == old(self).force,
            final(self).devices == old(self).devices,
            final(self).at == old(self).at,
            final(self).phase == if old(self).phase == CleanPhase::FirstRelease {
                CleanPhase::FirstRemove
            } else {
                CleanPhase::SecondRemove
            },
            final(self).report.removed == old(self).report.removed,
            final(self).report.failed == old(self).report.failed,
            final(self).report.skipped == old(self).report.skipped,
            releases_noted(
                old(self).report.force_releases@,
                final(self).report.force_releases@,
                old(self).devices@[old(self).at as int].path@,
                releases@,
                old(self).phase == CleanPhase::SecondRelease,
            ),
    {
        let path = self.devices[self.at].path.clone();
        let ghost entries = self.report.force_releases@;
        let ghost p = is_entry_for(path@);
        let merge = match self.phase {
            CleanPhase::SecondRelease => true,
            _ => false,
        };
        self.phase = if merge {
            CleanPhase::SecondRemove
        } else {
            CleanPhase::FirstRemove
        };
        if releases.len() == 0 {
            return ;
        }
        let mut i: usize = 0;
        while merge && i < self.report.force_releases.len()
            invariant
                self.report.force_releases@ == entries,
                i <= entries.len(),
                p == is_entry_for(path@),
                forall|j: int| 0 <= j < i ==> !p(#[trigger] entries[j]),
                path@ == old(self).devices@[old(self).at as int].path@,
                merge == (old(self).phase == CleanPhase::SecondRelease),
                entries == old(self).report.force_releases@,
                releases@.len() > 0,
                self.wf(),
                self.all == old(self).all,
                self.force == old(self).force,
                self.devices == old(self).devices,
                self.at == old(self).at,
                self.phase == if merge {
                    CleanPhase::SecondRemove
                } else {
                    CleanPhase::FirstRemove
                },
                self.report.removed == old(self).report.removed,
                self.report.failed == old(self).report.failed,
                self.report.skipped == old(self).report.skipped,
                old(self).phase == CleanPhase::FirstRelease || old(self).phase
                    == CleanPhase::SecondRelease,
            decreases entries.len() - i,
        {
            if str_eq(&self.report.force_releases[i].device_path, &path) {
                proof {
                    crate::split::lemma_first_where(entries, p, i as int);
                }
                let mut merged: Vec<HolderRelease> = self.report.force_releases[i].releases.clone();
                assert(merged@ =~= entries[i as int].releases@);
                let mut more = releases;
                merged.append(&mut more);
                let entry = ForceReleaseEntry { device_path: path, releases: merged };
                self.report.force_releases.set(i, entry);
                return ;
            }
            i += 1;
        }
        proof {
            if merge {
                crate::split::lemma_first_where(entries, p, i as int);
            }
        }
        self.report.force_releases.push(ForceReleaseEntry { device_path: path, releases });
        assert(self.report.force_releases@.drop_last() =~= entries);
    }

    /// Takes note of an attempt to remove the device, given whether the system still lists it and
    /// who holds it. A busy device is released once more in a forced cleaning; else the outcome is
    /// reported and the next device follows.
    pub fn remove_tried(
        &mut self,
        result: Result<(), CamShimError>,
        registered: bool,
        holders: Vec<DeviceHolder>,
    )
        requires
            old(self).wf(),
            old(self).phase == CleanPhase::FirstRemove || old(self).phase
                == CleanPhase::SecondRemove,
        ensures
            final(self).wf(),
            final(self).all == old(self).all,
            final(self).force == old(self).force,
            final(self).devices == old(self).devices,
            final(self).report.force_releases == old(self).report.force_releases,
            removal_followed(*old(self), *final(self), result, registered, holders@),
            if old(self).force && old(self).phase == CleanPhase::FirstRemove && (
            result matches Err(err) && is_busy(err)) {
                &&& final(self).at == old(self).at
                &&& final(self).phase == CleanPhase::SecondRelease
                &&& final(self).report == old(self).report
            } else {
                &&& final(self).at == next_selected(
                    old(self).devices@,
                    old(self).all,
                    old(self).at + 1,
                )
                &&& final(self).phase == if final(self).at == old(self).devices@.len() {
                    CleanPhase::Finished
                } else if old(self).force {
                    CleanPhase::FirstRelease
                } else {
                    CleanPhase::FirstRemove
                }
                &&& outcome_noted(
                    old(self).report,
                    final(self).report,
                    old(self).devices@[old(self).at as int],
                    result,
                    registered,
                    holders@,
                )
                &&& texts(final(self).report.skipped@) == texts(old(self).report.skipped@)
                    + device_texts(
                    old(self).devices@.subrange(old(self).at + 1, final(self).at as int),
                )
            },
    {
        let busy = match &result {
            Ok(()) => false,
            Err(err) => is_busy_error(err),
        };
        let first = match self.phase {
            CleanPhase::FirstRemove => true,
            _ => false,
        };
        if self.force && first && busy {
            self.phase = CleanPhase::SecondRelease;
            return ;
        }
        let ghost device = self.devices@[self.at as int];
        let ghost before = self.report;
        let path = self.devices[self.at].path.clone();
        match result {
            Ok(()) => {
                if registered {
                    self.report.failed.push(
                        CleanFailure {
                            path,
                            reason: "device still registered after remove".to_string(),
                            holders,
                        },
                    );
                } else {
                    self.report.removed.push(
                        concat4(&path, " (", &self.devices[self.at].name, ")"),
                    );
                }
            },
            Err(err) => {
                if is_busy_error(&err) {
                    let reason = busy_reason(&path, holders.as_slice());
                    self.report.failed.push(CleanFailure { path, reason, holders });
                } else if is_gone_error(&err) && !registered {
                    let line = concat4(&path, " (", &self.devices[self.at].name, ")");
                    self.report.removed.push(concat2(&line, " [already gone]"));
                } else {
                    self.report.failed.push(
                        CleanFailure { path, reason: err.message(), holders },
                    );
                }
            },
        }
        proof {
            let at = self.at as int;
            lemma_filter_step(self.devices@, spared(self.all), at);
            if failure_reason(device.path@, result, registered, holders@) is Some {
                assert(self.report.failed@.drop_last() =~= before.failed@);
            }
            assert(outcome_noted(before, self.report, device, result, registered, holders@));
            lemma_outcomes_step(
                self.devices@,
                self.all,
                at,
                before,
                self.report,
                result,
                registered,
                holders@,
            );
        }
        assert(self.at < self.devices.len());
        self.at += 1;
        self.skip();
    }
}

impl CleanRun {
    /// Takes note that the daemons of this program were stopped: the devices are listed next.
    pub fn daemons_stopped(&mut self)
        requires
            old(self).wf(),
            old(self).phase == CleanPhase::StopDaemons,
        ensures
            final(self).wf(),
            *final(self) == (CleanRun { phase: CleanPhase::List, ..*old(self) }),
    {
        self.phase = CleanPhase::List;
    }

    /// Takes note of the loopback devices of the system. They are cleaned one after another, the
    /// one with the highest number first.
    pub fn listed(&mut self, devices: &Vec<LoopbackDeviceInfo>)
        requires
            old(self).wf(),
            old(self).phase == CleanPhase::List,
        ensures
            final(self).wf(),
            final(self).all == old(self).all,
            final(self).force == old(self).force,
            starts_with_devices(devices@, *final(self)),
            sorted_by(devices@, final(self).devices@, higher_first()),
            final(self).at == next_selected(final(self).devices@, old(self).all, 0),
            final(self).phase == if final(self).at == final(self).devices@.len() {
                CleanPhase::Finished
            } else if old(self).force {
                CleanPhase::FirstRelease
            } else {
                CleanPhase::FirstRemove
            },
            texts(final(self).report.skipped@) == device_texts(
                final(self).devices@.take(final(self).at as int),
            ),
            final(self).report.removed@.len() == 0,
            final(self).report.failed@.len() == 0,
            final(self).report.force_releases@.len() == 0,
    {
        let mut keys: Vec<Descending> = Vec::new();
        let mut i: usize = 0;
        while i < devices.len()
            invariant
                i <= devices@.len(),
                keys@.len() == i,
                *self == *old(self),
                forall|k: int| 0 <= k < i ==> (#[trigger] keys@[k]).0 == devices@[k].index,
            decreases devices@.len() - i,
        {
            keys.push(Descending(devices[i].index as u64));
            i += 1;
        }
        let order = stable_order(&keys);
        proof {
            lemma_order_of_items(keys@, devices@, higher_first(), as_positions(order@));
            assert forall|i: int| 0 <= i < order@.len() implies #[trigger] order@[i]
                < devices@.len() by {
                assert(as_positions(order@)[i] < devices@.len());
            }
            lemma_filter_nothing(self.devices@, spared(self.all));
            lemma_filter_nothing(self.devices@, selected(self.all));
            assert(texts(self.report.skipped@).len() == 0);
        }
        self.devices = crate::order::pick(devices, &order);
        proof {
            let none = self.devices@.take(0);
            lemma_filter_nothing(self.devices@, spared(self.all));
            lemma_filter_nothing(self.devices@, selected(self.all));
            assert(device_texts(none.filter(spared(self.all))) =~= Seq::<Seq<char>>::empty());
            assert(texts(self.report.skipped@) =~= Seq::<Seq<char>>::empty());
        }
        self.skip();
        proof {
            assert(self.devices@.subrange(0, self.at as int) =~= self.devices@.take(
                self.at as int,
            ));
            let listed = device_texts(self.devices@.take(self.at as int));
            assert(Seq::<Seq<char>>::empty() + listed =~= listed);
        }
    }
}

/// Starts a cleaning. A forced one stops the daemons of this program first.
pub fn clean_loopback_devices(all: bool, force: bool) -> (r: CleanRun)
    ensures
        r.wf(),
        r.all == all,
        r.force == force,
        r.phase == first_phase(force),
        r.phase == if force {
            CleanPhase::StopDaemons
        } else {
            CleanPhase::List
        },
        r.report.removed@.len() == 0,
        r.report.failed@.len() == 0,
        r.report.skipped@.len() == 0,
        r.report.force_releases@.len() == 0,
{
    let run = CleanRun {
        all,
        force,
        devices: Vec::new(),
        at: 0,
        phase: if force {
            CleanPhase::StopDaemons
        } else {
            CleanPhase::List
        },
        report: CleanReport::default(),
    };
    proof {
        lemma_filter_nothing(run.devices@, spared(all));
        lemma_filter_nothing(run.devices@, selected(all));
        assert(device_texts(run.devices@.take(0).filter(spared(all))) =~= Seq::<
            Seq<char>,
        >::empty());
        assert(texts(run.report.skipped@) =~= Seq::<Seq<char>>::empty());
    }
    run
}

/// A cleaning acts on devices of this program only, unless it was told to take all.
pub proof fn lemma_clean_spares_others(run: CleanRun)
    requires
        run.wf(),
        run.phase != CleanPhase::Finished,
        !run.is_ahead(),
        !run.all,
    ensures
        is_own_name(run.devices@[run.at as int].name@),
{
}

/// A finished cleaning reports of each device that it may remove that it was removed, that it was
/// gone, or that it could not be removed. It has as many outcomes as there are such devices, none of
/// them of another device, and names every other device as skipped.
pub proof fn lemma_clean_accounts_for_all(run: CleanRun)
    requires
        run.wf(),
        run.phase == CleanPhase::Finished,
    ensures
        forall|i: int|
            0 <= i < run.devices@.len() && selected(run.all)(#[trigger] run.devices@[i])
                ==> is_accounted_for(
                run.devices@[i],
                texts(run.report.removed@),
                run.report.failed@,
            ),
        forall|k: int|
            0 <= k < run.report.removed@.len() ==> names_removed(
                run.devices@,
                run.all,
                (#[trigger] run.report.removed@[k])@,
            ),
        forall|k: int|
            0 <= k < run.report.failed@.len() ==> names_selected(
                run.devices@,
                run.all,
                (#[trigger] run.report.failed@[k]).path@,
            ),
        run.report.removed@.len() + run.report.failed@.len() == run.devices@.filter(
            selected(run.all),
        ).len(),
        texts(run.report.skipped@) == device_texts(run.devices@.filter(spared(run.all))),
{
    assert(run.devices@.take(run.at as int) =~= run.devices@);
    assert forall|k: int| 0 <= k < run.report.removed@.len() implies names_removed(
        run.devices@,
        run.all,
        (#[trigger] run.report.removed@[k])@,
    ) by {
        assert(texts(run.report.removed@)[k] == run.report.removed@[k]@);
    }
}

/// A cleaning that is not forced stops no daemon and makes no process let go of a device.
pub proof fn lemma_unforced_clean_disturbs_none(run: CleanRun)
    requires
        run.wf(),
        !run.force,
    ensures
        run.phase != CleanPhase::StopDaemons,
        run.phase != CleanPhase::FirstRelease,
        run.phase != CleanPhase::SecondRelease,
        run.report.force_releases@.len() == 0,
{
}

/// A finished cleaning names as skipped exactly the devices that are not of this program, and none where
/// it was told to take all.
pub proof fn lemma_clean_names_skipped(run: CleanRun, i: int)
    requires
        run.wf(),
        run.phase == CleanPhase::Finished,
    ensures
        run.all ==> run.report.skipped@.len() == 0,
        0 <= i < run.devices@.len() && !run.all && !is_own_name(run.devices@[i].name@) ==> texts(
            run.report.skipped@,
        ).contains(run.devices@[i].path@ + " ("@ + run.devices@[i].name@ + ")"@),
        0 <= i < run.report.skipped@.len() ==> exists|k: int|
            {
                &&& 0 <= k < run.devices@.len()
                &&& !is_own_name((#[trigger] run.devices@[k]).name@)
                &&& run.report.skipped@[i]@ == run.devices@[k].path@ + " ("@
                    + run.devices@[k].name@ + ")"@
            },
{
    lemma_clean_accounts_for_all(run);
    let p = spared(run.all);
    let kept = run.devices@.filter(p);
    let lines = texts(run.report.skipped@);
    assert(lines == device_texts(kept));
    assert(lines.len() == run.report.skipped@.len());
    if run.all && kept.len() > 0 {
        assert(kept.contains(kept[0]));
        crate::split::lemma_filter_members(run.devices@, p, kept[0]);
        assert(p(kept[0]));
    }
    if 0 <= i < run.devices@.len() && !run.all && !is_own_name(run.devices@[i].name@) {
        let device = run.devices@[i];
        assert(p(device));
        assert(run.devices@.contains(device));
        crate::split::lemma_filter_members(run.devices@, p, device);
        let k = choose|k: int| 0 <= k < kept.len() && kept[k] == device;
        assert(lines[k] == device_text(device));
    }
    if 0 <= i < run.report.skipped@.len() {
        assert(lines[i] == run.report.skipped@[i]@);
        assert(lines[i] == device_text(kept[i]));
        assert(kept.contains(kept[i]));
        crate::split::lemma_filter_members(run.devices@, p, kept[i]);
        let k = choose|k: int| 0 <= k < run.devices@.len() && run.devices@[k] == kept[i];
        assert(p(run.devices@[k]));
        assert(!is_own_name(run.devices@[k].name@));
    }
}

} // verus!
