//! What the commands say, and how their arguments are read.
use vstd::prelude::*;

use crate::clean::{
    clean_loopback_devices, CleanFailure, CleanPhase, CleanReport, CleanRun, ForceReleaseEntry,
    HolderRelease,
};
use crate::devices::RepairReport;
use crate::error::CamShimError;
use crate::loopback::{
    format_holder_list, holder_list, is_cam_shim_loopback, is_own_name, DeviceHolder, LoopbackDeviceInfo,
};
use crate::serve::{ServeConfig, DEFAULT_MAX_BACKOFF_MS};
use crate::text::{
    add_line, add_line_if, add_lines, concat2, concat3, concat4, concat6, concat7, contains, decimal, decimal_of,
    join, joined, line_if, lines_if, mark_lines, marked, occurs, texts,
};

verus! {

broadcast use crate::text::group_texts;

/// A device that could not be removed, in one line.
pub open spec fn failed_line(failure: CleanFailure) -> Seq<char> {
    "Failed to remove "@ + failure.path@ + ": "@ + failure.reason@
}

/// The first `n` failures of a restore, in lines. Where a reload of the module may help, that is said.
pub open spec fn restore_failures(failed: Seq<CleanFailure>, n: int) -> Seq<Seq<char>>
    decreases n,
{
    if n <= 0 {
        Seq::empty()
    } else {
        restore_failures(failed, n - 1) + seq![failed_line(failed[n - 1])] + line_if(
            occurs(failed[n - 1].reason@, "--reload"@),
            "  tip: sudo cam-shim clean --force --reload"@,
        )
    }
}

/// What a restore says of left-over loopback devices.
pub open spec fn restored_loopbacks(report: CleanReport) -> Seq<Seq<char>> {
    marked(texts(report.removed@), "Removed loopback "@) + restore_failures(
        report.failed@,
        report.failed@.len() as int,
    ) + marked(texts(report.skipped@), "Left alone "@)
}

/// What a restore says of the device nodes.
pub open spec fn restored_nodes(ghosts_removed: Seq<Seq<char>>) -> Seq<Seq<char>> {
    if ghosts_removed.len() > 0 {
        seq!["Removed ghost nodes: "@ + joined(ghosts_removed, ", "@)]
    } else {
        seq![
            "Device nodes repaired. If the camera still does not appear, unplug and replug it."@,
        ]
    }
}

/// What a restore says of left-over loopback devices.
pub fn restored_loopback_lines(report: &CleanReport) -> (r: Vec<String>)
    ensures
        texts(r@) == restored_loopbacks(*report),
{
    let mut out = mark_lines(&report.removed, "Removed loopback ");
    let mut failures: Vec<String> = Vec::new();
    let mut i: usize = 0;
    while i < report.failed.len()
        invariant
            i <= report.failed@.len(),
            texts(failures@) == restore_failures(report.failed@, i as int),
        decreases report.failed@.len() - i,
    {
        let failure = &report.failed[i];
        add_line(
            &mut failures,
            &concat4("Failed to remove ", &failure.path, ": ", &failure.reason),
        );
        add_line_if(
            &mut failures,
            contains(&failure.reason, "--reload"),
            "  tip: sudo cam-shim clean --force --reload",
        );
        i += 1;
    }
    add_lines(&mut out, failures);
    add_lines(&mut out, mark_lines(&report.skipped, "Left alone "));
    out
}

/// What a restore says of the device nodes.
pub fn restored_node_lines(report: &RepairReport) -> (r: Vec<String>)
    ensures
        texts(r@) == restored_nodes(texts(report.ghosts_removed@)),
{
    let mut out: Vec<String> = Vec::new();
    assert(texts(report.ghosts_removed@).len() == report.ghosts_removed@.len());
    if report.ghosts_removed.len() > 0 {
        add_line(
            &mut out,
            &concat2("Removed ghost nodes: ", &join(&report.ghosts_removed, ", ")),
        );
    } else {
        add_line(
            &mut out,
            "Device nodes repaired. If the camera still does not appear, unplug and replug it.",
        );
    }
    assert(texts(out@) =~= restored_nodes(texts(report.ghosts_removed@)));
    out
}

/// A loopback device that a cleaning would look at, in one line.
pub open spec fn dry_run_line(device: LoopbackDeviceInfo, holders: Seq<DeviceHolder>) -> Seq<char> {
    let tag = if is_own_name(device.name@) {
        "cam-shim"@
    } else {
        "other"@
    };
    "  "@ + device.path@ + " — "@ + device.name@ + " ["@ + tag + if holders.len() == 0 {
        "]"@
    } else {
        ", held by "@ + holder_list(holders) + "]"@
    }
}

/// What a cleaning would look at, in lines.
pub open spec fn dry_run_text(
    devices: Seq<LoopbackDeviceInfo>,
    holders: Seq<Vec<DeviceHolder>>,
) -> Seq<Seq<char>> {
    if devices.len() == 0 {
        seq!["No v4l2loopback devices found."@]
    } else {
        seq!["v4l2loopback devices:"@] + Seq::new(
            devices.len(),
            |i: int| dry_run_line(devices[i], holders[i]@),
        )
    }
}

/// What a cleaning would look at, in lines, given the holders of each device.
pub fn dry_run_lines(devices: &Vec<LoopbackDeviceInfo>, holders: &Vec<Vec<DeviceHolder>>) -> (r: Vec<
    String,
>)
    requires
        holders@.len() == devices@.len(),
    ensures
        texts(r@) == dry_run_text(devices@, holders@),
{
    let mut out: Vec<String> = Vec::new();
    if devices.len() == 0 {
        add_line(&mut out, "No v4l2loopback devices found.");
        assert(texts(out@) =~= dry_run_text(devices@, holders@));
        return out;
    }
    let ghost all = Seq::new(devices@.len(), |i: int| dry_run_line(devices@[i], holders@[i]@));
    add_line(&mut out, "v4l2loopback devices:");
    assert(texts(out@) =~= seq!["v4l2loopback devices:"@] + all.take(0));
    let mut i: usize = 0;
    while i < devices.len()
        invariant
            i <= devices@.len(),
            holders@.len() == devices@.len(),
            all == Seq::new(devices@.len(), |i: int| dry_run_line(devices@[i], holders@[i]@)),
            texts(out@) == seq!["v4l2loopback devices:"@] + all.take(i as int),
        decreases devices@.len() - i,
    {
        let device = &devices[i];
        let tag = if is_cam_shim_loopback(&device.name) {
            "cam-shim"
        } else {
            "other"
        };
        let head = concat6("  ", &device.path, " — ", &device.name, " [", tag);
        let tail = if holders[i].len() == 0 {
            "]".to_string()
        } else {
            concat3(", held by ", &format_holder_list(holders[i].as_slice()), "]")
        };
        add_line(&mut out, &concat2(&head, &tail));
        assert(texts(out@) =~= seq!["v4l2loopback devices:"@] + all.take(i + 1));
        i += 1;
    }
    assert(all.take(i as int) =~= all);
    out
}

/// A release in one line.
pub open spec fn release_line(release: HolderRelease) -> Seq<char> {
    "    "@ + release.holder.label@ + " ("@ + decimal(release.holder.pid as nat) + ") — "@
        + release.signal@
}

/// Releases in lines.
pub open spec fn release_lines_of(releases: Seq<HolderRelease>) -> Seq<Seq<char>> {
    releases.map_values(|release: HolderRelease| release_line(release))
}

/// The first `n` entries of released devices, in lines.
pub open spec fn release_blocks(entries: Seq<ForceReleaseEntry>, n: int) -> Seq<Seq<char>>
    decreases n,
{
    if n <= 0 {
        Seq::empty()
    } else {
        release_blocks(entries, n - 1) + seq!["  "@ + entries[n - 1].device_path@ + ":"@]
            + release_lines_of(entries[n - 1].releases@)
    }
}

/// The first `n` failures of a cleaning, in lines.
pub open spec fn clean_failures(failed: Seq<CleanFailure>, n: int) -> Seq<Seq<char>>
    decreases n,
{
    if n <= 0 {
        Seq::empty()
    } else {
        clean_failures(failed, n - 1) + seq![failed_line(failed[n - 1])] + line_if(
            failed[n - 1].holders@.len() > 0,
            "  still held by: "@ + holder_list(failed[n - 1].holders@),
        )
    }
}

/// What a cleaning did, in lines.
pub open spec fn clean_text(report: CleanReport, force: bool) -> Seq<Seq<char>> {
    lines_if(
        force && report.force_releases@.len() > 0,
        seq!["Force-released device holders:"@] + release_blocks(
            report.force_releases@,
            report.force_releases@.len() as int,
        ) + seq![""@],
    ) + marked(texts(report.removed@), "Removed "@) + clean_failures(
        report.failed@,
        report.failed@.len() as int,
    ) + marked(texts(report.skipped@), "Skipped "@) + line_if(
        report.removed@.len() == 0 && report.failed@.len() == 0,
        "No matching loopback devices to remove."@,
    )
}

fn release_lines(releases: &Vec<HolderRelease>) -> (r: Vec<String>)
    ensures
        texts(r@) == release_lines_of(releases@),
{
    let ghost all = release_lines_of(releases@);
    let mut out: Vec<String> = Vec::new();
    let mut i: usize = 0;
    assert(texts(out@) =~= all.take(0));
    while i < releases.len()
        invariant
            i <= releases@.len(),
            all == release_lines_of(releases@),
            texts(out@) == all.take(i as int),
        decreases releases@.len() - i,
    {
        let release = &releases[i];
        let line = concat6(
            "    ",
            &release.holder.label,
            " (",
            &decimal_of(release.holder.pid as u64),
            ") — ",
            &release.signal,
        );
        assert(line@ == all[i as int]);
        out.push(line);
        assert(all.take(i + 1) =~= all.take(i as int).push(line@));
        i += 1;
    }
    assert(all.take(i as int) =~= all);
    out
}

fn force_release_lines(entries: &Vec<ForceReleaseEntry>) -> (r: Vec<String>)
    ensures
        texts(r@) == release_blocks(entries@, entries@.len() as int),
{
    let mut out: Vec<String> = Vec::new();
    let mut i: usize = 0;
    while i < entries.len()
        invariant
            i <= entries@.len(),
            texts(out@) == release_blocks(entries@, i as int),
        decreases entries@.len() - i,
    {
        add_line(&mut out, &concat3("  ", &entries[i].device_path, ":"));
        add_lines(&mut out, release_lines(&entries[i].releases));
        i += 1;
    }
    out
}

fn clean_failure_lines(failed: &Vec<CleanFailure>) -> (r: Vec<String>)
    ensures
        texts(r@) == clean_failures(failed@, failed@.len() as int),
{
    let mut out: Vec<String> = Vec::new();
    let mut i: usize = 0;
    while i < failed.len()
        invariant
            i <= failed@.len(),
            texts(out@) == clean_failures(failed@, i as int),
        decreases failed@.len() - i,
    {
        let failure = &failed[i];
        add_line(
            &mut out,
            &concat4("Failed to remove ", &failure.path, ": ", &failure.reason),
        );
        add_line_if(
            &mut out,
            failure.holders.len() > 0,
            &concat2("  still held by: ", &format_holder_list(failure.holders.as_slice())),
        );
        i += 1;
    }
    out
}

proof fn lemma_failures_are_told(failed: Seq<CleanFailure>, n: int, i: int)
    requires
        0 <= i < n <= failed.len(),
    ensures
        clean_failures(failed, n).contains(
            "Failed to remove "@ + failed[i].path@ + ": "@ + failed[i].reason@,
        ),
    decreases n,
{
    let line = "Failed to remove "@ + failed[i].path@ + ": "@ + failed[i].reason@;
    let rest = clean_failures(failed, n - 1);
    let list = clean_failures(failed, n);
    if i == n - 1 {
        assert(list[rest.len() as int] == line);
    } else {
        lemma_failures_are_told(failed, n - 1, i);
        let k = choose|k: int| 0 <= k < rest.len() && rest[k] == line;
        assert(list[k] == line);
    }
}

/// A cleaning tells of every device that it removed, could not remove, or left alone.
pub proof fn lemma_clean_is_told(report: CleanReport, force: bool, i: int)
    ensures
        0 <= i < report.removed@.len() ==> clean_text(report, force).contains(
            "Removed "@ + report.removed@[i]@,
        ),
        0 <= i < report.failed@.len() ==> clean_text(report, force).contains(
            "Failed to remove "@ + report.failed@[i].path@ + ": "@ + report.failed@[i].reason@,
        ),
        0 <= i < report.skipped@.len() ==> clean_text(report, force).contains(
            "Skipped "@ + report.skipped@[i]@,
        ),
        report.removed@.len() == 0 && report.failed@.len() == 0 ==> clean_text(
            report,
            force,
        ).contains("No matching loopback devices to remove."@),
{
    let a = lines_if(
        force && report.force_releases@.len() > 0,
        seq!["Force-released device holders:"@] + release_blocks(
            report.force_releases@,
            report.force_releases@.len() as int,
        ) + seq![""@],
    );
    let b = marked(texts(report.removed@), "Removed "@);
    let c = clean_failures(report.failed@, report.failed@.len() as int);
    let d = marked(texts(report.skipped@), "Skipped "@);
    let e = line_if(
        report.removed@.len() == 0 && report.failed@.len() == 0,
        "No matching loopback devices to remove."@,
    );
    let all = clean_text(report, force);
    assert(all == a + b + c + d + e);
    if 0 <= i < report.removed@.len() {
        assert(b[i] == "Removed "@ + report.removed@[i]@);
        assert(all[a.len() + i] == b[i]);
    }
    if 0 <= i < report.failed@.len() {
        lemma_failures_are_told(report.failed@, report.failed@.len() as int, i);
        let line = "Failed to remove "@ + report.failed@[i].path@ + ": "@
            + report.failed@[i].reason@;
        let k = choose|k: int| 0 <= k < c.len() && c[k] == line;
        assert(all[a.len() + b.len() + k] == line);
    }
    if 0 <= i < report.skipped@.len() {
        assert(d[i] == "Skipped "@ + report.skipped@[i]@);
        assert(all[a.len() + b.len() + c.len() + i] == d[i]);
    }
    if e.len() > 0 {
        assert(all[(a.len() + b.len() + c.len() + d.len()) as int] == e[0]);
    }
}

/// What a cleaning did, in lines.
pub fn clean_lines(report: &CleanReport, force: bool) -> (r: Vec<String>)
    ensures
        texts(r@) == clean_text(*report, force),
{
    let mut out: Vec<String> = Vec::new();
    if force && report.force_releases.len() > 0 {
        add_line(&mut out, "Force-released device holders:");
        add_lines(&mut out, force_release_lines(&report.force_releases));
        add_line(&mut out, "");
    }
    assert(texts(out@) =~= lines_if(
        force && report.force_releases@.len() > 0,
        seq!["Force-released device holders:"@] + release_blocks(
            report.force_releases@,
            report.force_releases@.len() as int,
        ) + seq![""@],
    ));
    add_lines(&mut out, mark_lines(&report.removed, "Removed "));
    add_lines(&mut out, clean_failure_lines(&report.failed));
    add_lines(&mut out, mark_lines(&report.skipped, "Skipped "));
    add_line_if(
        &mut out,
        report.removed.len() == 0 && report.failed.len() == 0,
        "No matching loopback devices to remove.",
    );
    out
}

/// What follows on an attempt to unload the kernel module for a reload.
#[derive(Debug)]
pub enum ReloadStep {
    LoadAgain,
    /// Go on, with a warning.
    Warn(String),
    Fail(CamShimError),
}

/// A step follows on an attempt to unload the kernel module.
pub open spec fn is_reload_step(
    unloaded: Result<(), CamShimError>,
    force: bool,
    step: ReloadStep,
) -> bool {
    match unloaded {
        Ok(()) => step is LoadAgain,
        Err(err) => if force {
            step matches ReloadStep::Warn(text) && text@
                == "Warning: module reload failed after force cleanup: "@ + err.text()
        } else {
            step == ReloadStep::Fail(err)
        },
    }
}

/// The kernel module is loaded again exactly when it was unloaded. A failure ends the command with its
/// own error, unless the cleaning was forced: then it is told and the command goes on.
pub proof fn lemma_reload_step(
    unloaded: Result<(), CamShimError>,
    force: bool,
    step: ReloadStep,
)
    requires
        is_reload_step(unloaded, force, step),
    ensures
        step is LoadAgain <==> unloaded is Ok,
        step is Warn <==> unloaded is Err && force,
        step is Fail <==> unloaded is Err && !force,
        unloaded matches Err(err) ==> (step matches ReloadStep::Fail(failure) ==> failure == err),
{
}

/// What follows on an attempt to unload the kernel module: after a forced cleaning a failure is no
/// more than a warning.
pub fn reload_step(unloaded: Result<(), CamShimError>, force: bool) -> (r: ReloadStep)
    ensures
        is_reload_step(unloaded, force, r),
{
    match unloaded {
        Ok(()) => ReloadStep::LoadAgain,
        Err(err) => {
            if force {
                ReloadStep::Warn(
                    concat2(
                        "Warning: module reload failed after force cleanup: ",
                        &err.message(),
                    ),
                )
            } else {
                ReloadStep::Fail(err)
            }
        },
    }
}

/// How far the clean command has come.
#[derive(Debug, Clone, Copy, PartialEq, Eq, Structural)]
pub enum CleanCommandPhase {
    /// The loopback devices are to be listed.
    List,
    /// They are to be cleaned.
    Clean,
    /// The daemons of this program are to be stopped, so that the kernel module can be unloaded.
    StopForReload,
    /// The kernel module is to be unloaded.
    Unload,
    /// The kernel module is to be loaded.
    Load,
    Done,
}

/// The clean command.
#[derive(Debug)]
pub struct CleanCommand {
    pub all: bool,
    pub reload: bool,
    pub force: bool,
    pub dry_run: bool,
    pub phase: CleanCommandPhase,
}

/// The phase after the devices were listed.
pub open spec fn after_listing(command: CleanCommand) -> CleanCommandPhase {
    if command.dry_run {
        CleanCommandPhase::Done
    } else {
        CleanCommandPhase::Clean
    }
}

/// The phase after the devices were cleaned.
pub open spec fn after_cleaning(command: CleanCommand) -> CleanCommandPhase {
    if !command.reload {
        CleanCommandPhase::Done
    } else if command.force {
        CleanCommandPhase::StopForReload
    } else {
        CleanCommandPhase::Unload
    }
}

/// The clean command cleans exactly when it is no dry run, and goes on to reload the kernel module
/// exactly when that was asked for; a forced one stops the daemons before that.
pub proof fn lemma_clean_command_phases(command: CleanCommand)
    ensures
        after_listing(command) == CleanCommandPhase::Clean <==> !command.dry_run,
        after_listing(command) == CleanCommandPhase::Done <==> command.dry_run,
        after_cleaning(command) == CleanCommandPhase::Done <==> !command.reload,
        after_cleaning(command) == CleanCommandPhase::StopForReload <==> command.reload
            && command.force,
        after_cleaning(command) == CleanCommandPhase::Unload <==> command.reload && !command.force,
{
}

impl CleanCommand {
    /// A dry run lists the devices and does no more. The kernel module is reloaded only where that
    /// was asked for, and daemons are stopped for it only by force.
    pub open spec fn wf(self) -> bool {
        match self.phase {
            CleanCommandPhase::List | CleanCommandPhase::Done => true,
            CleanCommandPhase::Clean => !self.dry_run,
            CleanCommandPhase::StopForReload => !self.dry_run && self.reload && self.force,
            CleanCommandPhase::Unload | CleanCommandPhase::Load => !self.dry_run && self.reload,
        }
    }

    /// Starts the command: it lists the devices first.
    pub fn start(all: bool, reload: bool, force: bool, dry_run: bool) -> (r: Self)
        ensures
            r.wf(),
            r == (CleanCommand { all, reload, force, dry_run, phase: CleanCommandPhase::List }),
    {
        CleanCommand { all, reload, force, dry_run, phase: CleanCommandPhase::List }
    }

    /// Takes note that the devices were listed. A dry run is over.
    pub fn listed(&mut self)
        requires
            old(self).wf(),
            old(self).phase == CleanCommandPhase::List,
        ensures
            final(self).wf(),
            final(self).phase == after_listing(*old(self)),
            *final(self) == (CleanCommand {
                phase: if old(self).dry_run {
                    CleanCommandPhase::Done
                } else {
                    CleanCommandPhase::Clean
                },
                ..*old(self)
            }),
    {
        self.phase = if self.dry_run {
            CleanCommandPhase::Done
        } else {
            CleanCommandPhase::Clean
        };
    }

    /// The cleaning that the command makes. A forced one stops the daemons of this program first.
    pub fn cleaning(&self) -> (r: CleanRun)
        requires
            self.wf(),
            self.phase == CleanCommandPhase::Clean,
        ensures
            r.wf(),
            r.all == self.all,
            r.force == self.force,
            r.phase == if self.force {
                CleanPhase::StopDaemons
            } else {
                CleanPhase::List
            },
    {
        clean_loopback_devices(self.all, self.force)
    }

    /// Takes note of the finished cleaning. Where the kernel module is to be reloaded, a forced
    /// command stops the daemons once more before it.
    pub fn cleaned(&mut self, run: &CleanRun)
        requires
            old(self).wf(),
            old(self).phase == CleanCommandPhase::Clean,
            run.wf(),
            run.all == old(self).all,
            run.force == old(self).force,
            run.phase == CleanPhase::Finished,
        ensures
            final(self).wf(),
            final(self).phase == after_cleaning(*old(self)),
            *final(self) == (CleanCommand {
                phase: if !old(self).reload {
                    CleanCommandPhase::Done
                } else if old(self).force {
                    CleanCommandPhase::StopForReload
                } else {
                    CleanCommandPhase::Unload
                },
                ..*old(self)
            }),
    {
        self.phase = if !self.reload {
            CleanCommandPhase::Done
        } else if self.force {
            CleanCommandPhase::StopForReload
        } else {
            CleanCommandPhase::Unload
        };
    }

    /// Takes note that the daemons were stopped: the kernel module is unloaded next.
    pub fn daemons_stopped(&mut self)
        requires
            old(self).wf(),
            old(self).phase == CleanCommandPhase::StopForReload,
        ensures
            final(self).wf(),
            *final(self) == (CleanCommand { phase: CleanCommandPhase::Unload, ..*old(self) }),
    {
        self.phase = CleanCommandPhase::Unload;
    }

    /// Takes note of an attempt to unload the kernel module: it is loaded again if it was unloaded.
    pub fn unloaded(&mut self, result: Result<(), CamShimError>) -> (r: ReloadStep)
        requires
            old(self).wf(),
            old(self).phase == CleanCommandPhase::Unload,
        ensures
            final(self).wf(),
            *final(self) == (CleanCommand {
                phase: if result is Ok {
                    CleanCommandPhase::Load
                } else {
                    CleanCommandPhase::Done
                },
                ..*old(self)
            }),
            is_reload_step(result, old(self).force, r),
    {
        self.phase = match &result {
            Ok(()) => CleanCommandPhase::Load,
            Err(_) => CleanCommandPhase::Done,
        };
        reload_step(result, self.force)
    }

    /// Takes note that the kernel module was loaded again.
    pub fn loaded(&mut self)
        requires
            old(self).wf(),
            old(self).phase == CleanCommandPhase::Load,
        ensures
            final(self).wf(),
            *final(self) == (CleanCommand { phase: CleanCommandPhase::Done, ..*old(self) }),
    {
        self.phase = CleanCommandPhase::Done;
    }
}

/// A dry run of the clean command changes nothing, whatever else it was given: it lists the devices
/// and is done.
pub proof fn lemma_dry_run_only_lists(command: CleanCommand)
    requires
        command.wf(),
        command.dry_run,
    ensures
        command.phase == CleanCommandPhase::List || command.phase == CleanCommandPhase::Done,
{
}

/// How far the restore command has come.
#[derive(Debug, Clone, Copy, PartialEq, Eq, Structural)]
pub enum RestoreCommandPhase {
    /// Left-over virtual cameras are to be removed.
    Clean,
    /// The device nodes are to be repaired.
    Repair,
    Done,
}

/// The restore command.
#[derive(Debug)]
pub struct RestoreCommand {
    pub phase: RestoreCommandPhase,
}

/// The phase that the restore command starts in.
pub open spec fn restore_start(loopback: bool) -> RestoreCommandPhase {
    if loopback {
        RestoreCommandPhase::Clean
    } else {
        RestoreCommandPhase::Repair
    }
}

/// The restore command removes virtual cameras exactly when that was asked for; in either case it
/// repairs the device nodes.
pub proof fn lemma_restore_repairs(loopback: bool)
    ensures
        restore_start(loopback) == RestoreCommandPhase::Clean <==> loopback,
        restore_start(loopback) == RestoreCommandPhase::Repair <==> !loopback,
{
}

impl RestoreCommand {
    /// Starts the command: virtual cameras are removed first, where that was asked for, and the
    /// device nodes are repaired then.
    pub fn start(loopback: bool) -> (r: Self)
        ensures
            r.phase == restore_start(loopback),
            r.phase == if loopback {
                RestoreCommandPhase::Clean
            } else {
                RestoreCommandPhase::Repair
            },
    {
        RestoreCommand {
            phase: if loopback {
                RestoreCommandPhase::Clean
            } else {
                RestoreCommandPhase::Repair
            },
        }
    }

    /// The cleaning that the command makes: it is forced, and leaves other virtual cameras alone.
    pub fn cleaning(&self) -> (r: CleanRun)
        requires
            self.phase == RestoreCommandPhase::Clean,
        ensures
            r.wf(),
            !r.all,
            r.force,
            r.phase == CleanPhase::StopDaemons,
    {
        clean_loopback_devices(false, true)
    }

    /// Takes note of the finished cleaning.
    pub fn cleaned(&mut self, run: &CleanRun)
        requires
            old(self).phase == RestoreCommandPhase::Clean,
            run.wf(),
            !run.all,
            run.force,
            run.phase == CleanPhase::Finished,
        ensures
            final(self).phase == RestoreCommandPhase::Repair,
    {
        self.phase = RestoreCommandPhase::Repair;
    }

    /// Takes note that the device nodes were repaired.
    pub fn repaired(&mut self)
        requires
            old(self).phase == RestoreCommandPhase::Repair,
        ensures
            final(self).phase == RestoreCommandPhase::Done,
    {
        self.phase = RestoreCommandPhase::Done;
    }
}

/// What is said where a camera needs no fix.
pub fn compatible_line(device: &str) -> (r: String)
    ensures
        r@ == device@ + " is already compatible — no shim needed."@,
{
    concat2(device, " is already compatible — no shim needed.")
}

/// What is said where a fix starts.
pub open spec fn fix_text(
    device: Seq<char>,
    loopback_path: Seq<char>,
    label: Seq<char>,
    target_fps: u32,
) -> Seq<Seq<char>> {
    seq![
        "Starting shim "@ + device + " → "@ + loopback_path + " @ "@ + decimal(target_fps as nat)
            + " fps (Ctrl+C stops and cleans up)"@,
        "Pick \""@ + label + "\" in your application's camera list."@,
    ]
}

/// What is said where a fix starts.
pub fn fix_lines(device: &str, loopback_path: &str, label: &str, target_fps: u32) -> (r: Vec<String>)
    ensures
        texts(r@) == fix_text(device@, loopback_path@, label@, target_fps),
{
    let mut out: Vec<String> = Vec::new();
    add_line(
        &mut out,
        &concat7(
            "Starting shim ",
            device,
            " → ",
            loopback_path,
            " @ ",
            &decimal_of(target_fps as u64),
            " fps (Ctrl+C stops and cleans up)",
        ),
    );
    add_line(&mut out, &concat3("Pick \"", label, "\" in your application's camera list."));
    assert(texts(out@) =~= fix_text(device@, loopback_path@, label@, target_fps));
    out
}

/// What is said once the kernel module is installed.
pub open spec fn install_text() -> Seq<Seq<char>> {
    seq![
        "Loaded v4l2loopback module."@,
        ""@,
        "Run as a continuous daemon (recommended while early-stage):"@,
        "  sudo cam-shim serve"@,
        ""@,
        "Optional systemd unit (disabled by default; enable only after serve works):"@,
        "  sudo cp packaging/cam-shim.service /etc/systemd/system/"@,
        "  sudo systemctl daemon-reload"@,
        "  sudo systemctl enable --now cam-shim"@,
    ]
}

/// What is said once the kernel module is installed.
pub fn install_lines() -> (r: Vec<String>)
    ensures
        texts(r@) == install_text(),
{
    let mut out: Vec<String> = Vec::new();
    add_line(&mut out, "Loaded v4l2loopback module.");
    add_line(&mut out, "");
    add_line(&mut out, "Run as a continuous daemon (recommended while early-stage):");
    add_line(&mut out, "  sudo cam-shim serve");
    add_line(&mut out, "");
    add_line(
        &mut out,
        "Optional systemd unit (disabled by default; enable only after serve works):",
    );
    add_line(&mut out, "  sudo cp packaging/cam-shim.service /etc/systemd/system/");
    add_line(&mut out, "  sudo systemctl daemon-reload");
    add_line(&mut out, "  sudo systemctl enable --now cam-shim");
    assert(texts(out@) =~= install_text());
    out
}

/// The arguments of the supervisor.
#[derive(Debug)]
pub struct ServeArgs {
    pub target_fps: u32,
    pub poll_secs: u64,
    pub max_failures: u32,
    pub quarantine_secs: u64,
    pub backoff_ms: u64,
    pub stale_frame_secs: u64,
    pub watchdog_secs: u64,
    pub no_state_file: bool,
    pub no_hotplug: bool,
    pub max_width: u32,
    pub max_height: u32,
}

/// Seconds in milliseconds, as far as those can be counted.
pub open spec fn in_ms(secs: u64) -> u64 {
    if secs * 1000 > u64::MAX {
        u64::MAX
    } else {
        (secs * 1000) as u64
    }
}

fn to_ms(secs: u64) -> (r: u64)
    ensures
        r == in_ms(secs),
{
    if secs > u64::MAX / 1000 {
        u64::MAX
    } else {
        secs * 1000
    }
}

/// Seconds are counted in milliseconds as long as those can be counted, and a longer time is never
/// counted as a shorter one.
pub proof fn lemma_in_ms(a: u64, b: u64)
    ensures
        a <= 18_446_744_073_709_551 ==> in_ms(a) == a * 1000,
        a <= b ==> in_ms(a) <= in_ms(b),
        in_ms(a) >= a,
{
}

/// The supervisor is set up as its arguments say, or they are refused.
pub open spec fn is_serve_config(args: ServeArgs, r: Option<ServeConfig>) -> bool {
    match r {
        None => args.max_width == 0 || args.max_height == 0,
        Some(config) => {
            &&& args.max_width > 0 && args.max_height > 0
            &&& config.target_fps == args.target_fps
            &&& config.poll_interval_ms == in_ms(args.poll_secs)
            &&& config.max_failures == args.max_failures
            &&& config.quarantine_duration_ms == in_ms(args.quarantine_secs)
            &&& config.backoff_base_ms == args.backoff_ms
            &&& config.max_backoff_ms == 60_000
            &&& config.stale_frame_timeout_ms == in_ms(args.stale_frame_secs)
            &&& config.watchdog_timeout_ms == in_ms(args.watchdog_secs)
            &&& config.write_state_file == !args.no_state_file
            &&& config.hotplug == !args.no_hotplug
            &&& config.max_capture_width == args.max_width
            &&& config.max_capture_height == args.max_height
        },
    }
}

/// Arguments are refused exactly when a capture limit is zero. Otherwise times that are given in seconds
/// are a thousand milliseconds each, no wait after a failure is longer than a minute, and the state
/// file and the kernel messages are used unless that was ruled out.
pub proof fn lemma_serve_config(args: ServeArgs, r: Option<ServeConfig>)
    requires
        is_serve_config(args, r),
        args.poll_secs <= 1_000_000,
        args.quarantine_secs <= 1_000_000,
        args.stale_frame_secs <= 1_000_000,
        args.watchdog_secs <= 1_000_000,
    ensures
        r is None <==> args.max_width == 0 || args.max_height == 0,
        r matches Some(config) ==> {
            &&& config.poll_interval_ms == args.poll_secs * 1000
            &&& config.quarantine_duration_ms == args.quarantine_secs * 1000
            &&& config.stale_frame_timeout_ms == args.stale_frame_secs * 1000
            &&& config.watchdog_timeout_ms == args.watchdog_secs * 1000
            &&& config.max_backoff_ms == 60 * 1000
            &&& config.backoff_base_ms == args.backoff_ms
            &&& config.max_failures == args.max_failures
            &&& config.target_fps == args.target_fps
            &&& config.max_capture_width == args.max_width
            &&& config.max_capture_height == args.max_height
            &&& config.write_state_file <==> !args.no_state_file
            &&& config.hotplug <==> !args.no_hotplug
        },
{
}

/// Reads the arguments of the supervisor. A capture limit of zero is refused.
pub fn serve_config(args: &ServeArgs) -> (r: Result<ServeConfig, String>)
    ensures
        is_serve_config(
            *args,
            match r {
                Ok(config) => Some(config),
                Err(_) => None,
            },
        ),
        match r {
            Err(text) => (args.max_width == 0 || args.max_height == 0) && text@
                == "--max-width and --max-height must be greater than 0"@,
            Ok(config) => {
                &&& args.max_width > 0 && args.max_height > 0
                &&& config.target_fps == args.target_fps
                &&& config.poll_interval_ms == in_ms(args.poll_secs)
                &&& config.max_failures == args.max_failures
                &&& config.quarantine_duration_ms == in_ms(args.quarantine_secs)
                &&& config.backoff_base_ms == args.backoff_ms
                &&& config.max_backoff_ms == 60_000
                &&& config.stale_frame_timeout_ms == in_ms(args.stale_frame_secs)
                &&& config.watchdog_timeout_ms == in_ms(args.watchdog_secs)
                &&& config.write_state_file == !args.no_state_file
                &&& config.hotplug == !args.no_hotplug
                &&& config.max_capture_width == args.max_width
                &&& config.max_capture_height == args.max_height
            },
        },
{
    if args.max_width == 0 || args.max_height == 0 {
        return Err("--max-width and --max-height must be greater than 0".to_string());
    }
    Ok(
        ServeConfig {
            target_fps: args.target_fps,
            poll_interval_ms: to_ms(args.poll_secs),
            max_failures: args.max_failures,
            quarantine_duration_ms: to_ms(args.quarantine_secs),
            backoff_base_ms: args.backoff_ms,
            max_backoff_ms: DEFAULT_MAX_BACKOFF_MS,
            stale_frame_timeout_ms: to_ms(args.stale_frame_secs),
            watchdog_timeout_ms: to_ms(args.watchdog_secs),
            write_state_file: !args.no_state_file,
            hotplug: !args.no_hotplug,
            max_capture_width: args.max_width,
            max_capture_height: args.max_height,
        },
    )
}

} // verus!
