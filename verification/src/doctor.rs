//! The health check: what is wrong, what is done about it, and what to do next.
use vstd::prelude::*;
use vstd::utf8::encode_utf8;

use crate::clean::CleanReport;
use crate::error::CamShimError;
use crate::hiding::RestoreReport;
use crate::order::{sort_dedup, texts_sorted};
use crate::runtime::{
    age_ms, age_ms_since, heartbeat_age_secs, heartbeat_is_stale, holder_views, holders_text, join_holders,
    loopback_models, managed_models, LoopbackModel, LoopbackSnapshot, ManagedCameraSnapshot, ManagedModel,
    ProcessHolder, RuntimeSnapshot, HEARTBEAT_STALE_SECS, STATE_FILE,
};
use crate::text::{
    add_line, add_line_if, add_lines, concat2, concat3, concat4, concat6, concat7, contains, decimal, decimal_of,
    join, joined, line_if, lines_if, mark_lines, marked, occurs, opt_text, strip_suffix, texts, without_suffix,
};

verus! {

broadcast use crate::text::group_texts;

/// What a health check is asked for.
#[derive(Debug, Clone, Copy)]
pub struct DoctorConfig {
    /// Look, and change nothing.
    pub check_only: bool,
    pub reload_module: bool,
    pub force: bool,
    pub json: bool,
}

/// What a health check did.
#[derive(Debug)]
pub struct DoctorActions {
    pub stopped_daemons: bool,
    pub restored_hidden: Vec<String>,
    pub ghosts_removed: Vec<String>,
    pub stale_hidden_removed: Vec<String>,
    pub loopbacks_removed: Vec<String>,
    pub loopback_failures: Vec<String>,
    pub module_loaded: bool,
    pub module_reloaded: bool,
}

impl Default for DoctorActions {
    fn default() -> (r: Self)
        ensures
            r.none(),
    {
        DoctorActions {
            stopped_daemons: false,
            restored_hidden: Vec::new(),
            ghosts_removed: Vec::new(),
            stale_hidden_removed: Vec::new(),
            loopbacks_removed: Vec::new(),
            loopback_failures: Vec::new(),
            module_loaded: false,
            module_reloaded: false,
        }
    }
}

impl DoctorActions {
    /// Nothing was done.
    pub open spec fn none(self) -> bool {
        &&& !self.stopped_daemons
        &&& self.restored_hidden@.len() == 0
        &&& self.ghosts_removed@.len() == 0
        &&& self.stale_hidden_removed@.len() == 0
        &&& self.loopbacks_removed@.len() == 0
        &&& self.loopback_failures@.len() == 0
        &&& !self.module_loaded
        &&& !self.module_reloaded
    }

    /// Whether nothing was done.
    pub fn is_empty(&self) -> (r: bool)
        ensures
            r == self.none(),
    {
        !self.stopped_daemons && self.restored_hidden.len() == 0 && self.ghosts_removed.len() == 0
            && self.stale_hidden_removed.len() == 0 && self.loopbacks_removed.len() == 0
            && self.loopback_failures.len() == 0 && !self.module_loaded && !self.module_reloaded
    }
}

/// What a health check found and did.
#[derive(Debug)]
pub struct DoctorReport {
    pub ok: bool,
    pub before: RuntimeSnapshot,
    pub actions: DoctorActions,
    pub after: RuntimeSnapshot,
    pub issues: Vec<String>,
    pub recommendations: Vec<String>,
    pub v4l2_list_devices: Option<String>,
}

/// One of the holders is a process other than the given one.
pub open spec fn held_by_another(holders: Seq<(u32, Seq<char>)>, own_pid: u32) -> bool {
    exists|i: int| 0 <= i < holders.len() && (#[trigger] holders[i]).0 != own_pid
}

/// One of the loopback devices is held by a process other than the given one.
pub open spec fn any_held_by_another(loopbacks: Seq<LoopbackModel>, own_pid: u32) -> bool {
    exists|i: int|
        0 <= i < loopbacks.len() && held_by_another((#[trigger] loopbacks[i]).holders, own_pid)
}

fn has_other_holder(holders: &Vec<ProcessHolder>, own_pid: u32) -> (r: bool)
    ensures
        r == held_by_another(holder_views(holders@), own_pid),
{
    let ghost views = holder_views(holders@);
    let mut i: usize = 0;
    while i < holders.len()
        invariant
            i <= holders@.len(),
            views == holder_views(holders@),
            forall|j: int| 0 <= j < i ==> (#[trigger] views[j]).0 == own_pid,
        decreases holders@.len() - i,
    {
        assert(views[i as int] == holders@[i as int]@);
        if holders[i].pid != own_pid {
            return true;
        }
        i += 1;
    }
    false
}

/// Whether one of the loopback devices is held by a process other than the given one.
pub fn loopback_held_by_others(snapshot: &RuntimeSnapshot, own_pid: u32) -> (r: bool)
    ensures
        r == any_held_by_another(loopback_models(snapshot.loopbacks@), own_pid),
{
    let ghost models = loopback_models(snapshot.loopbacks@);
    let mut i: usize = 0;
    while i < snapshot.loopbacks.len()
        invariant
            i <= snapshot.loopbacks@.len(),
            models == loopback_models(snapshot.loopbacks@),
            forall|j: int| 0 <= j < i ==> !held_by_another((#[trigger] models[j]).holders, own_pid),
        decreases snapshot.loopbacks@.len() - i,
    {
        assert(models[i as int] == snapshot.loopbacks@[i as int]@);
        if has_other_holder(&snapshot.loopbacks[i].holders, own_pid) {
            assert(held_by_another(models[i as int].holders, own_pid));
            return true;
        }
        i += 1;
    }
    false
}

/// What a health check does next.
#[derive(Debug, Clone, Copy, PartialEq, Eq, Structural)]
pub enum DoctorPhase {
    /// Stop the other runs of this program.
    StopDaemons,
    /// Repair the device nodes.
    Repair,
    /// Remove left-over loopback devices.
    Clean,
    /// See to it that the kernel module is loaded.
    LoadModule,
    /// Stop the other runs of this program, before the kernel module is reloaded.
    StopForReload,
    /// Unload the kernel module.
    Unload,
    /// Load the kernel module again.
    Reload,
    /// Look once more, and report.
    Collect,
}

/// A health check under way.
#[derive(Debug)]
pub struct DoctorRun {
    pub config: DoctorConfig,
    pub phase: DoctorPhase,
    pub actions: DoctorActions,
    pub action_issues: Vec<String>,
}

/// A failure of a cleaning as the check reports it.
pub open spec fn failure_lines(report: CleanReport) -> Seq<Seq<char>> {
    report.failed@.map_values(
        |failure: crate::clean::CleanFailure| failure.path@ + ": "@ + failure.reason@,
    )
}

impl DoctorRun {
    /// A check that only looks does nothing else, and one that goes on has its phase.
    pub open spec fn wf(self) -> bool {
        &&& self.config.check_only ==> self.phase == DoctorPhase::Collect && self.actions.none()
            && self.action_issues@.len() == 0
        &&& self.phase == DoctorPhase::StopDaemons ==> self.config.force
        &&& self.phase == DoctorPhase::StopForReload ==> self.config.force
            && self.config.reload_module
        &&& (self.phase == DoctorPhase::Unload || self.phase == DoctorPhase::Reload)
            ==> self.config.reload_module
    }

    /// Starts a check, from what was going on before.
    pub fn start(config: DoctorConfig, before: &RuntimeSnapshot, own_pid: u32) -> (r: Self)
        ensures
            r.wf(),
            r.config == config,
            r.actions.none(),
            r.action_issues@.len() == 0,
            r.phase == doctor_start(config, *before, own_pid),
            r.phase == if config.check_only {
                DoctorPhase::Collect
            } else if config.force && (before.serve_running || any_held_by_another(
                loopback_models(before.loopbacks@),
                own_pid,
            )) {
                DoctorPhase::StopDaemons
            } else {
                DoctorPhase::Repair
            },
    {
        let phase = if config.check_only {
            DoctorPhase::Collect
        } else if config.force && (before.serve_running || loopback_held_by_others(
            before,
            own_pid,
        )) {
            DoctorPhase::StopDaemons
        } else {
            DoctorPhase::Repair
        };
        DoctorRun { config, phase, actions: DoctorActions::default(), action_issues: Vec::new() }
    }

    /// The other runs of this program were stopped.
    pub fn stopped(&mut self)
        requires
            old(self).wf(),
            old(self).phase == DoctorPhase::StopDaemons || old(self).phase
                == DoctorPhase::StopForReload,
        ensures
            final(self).wf(),
            final(self).config == old(self).config,
            final(self).phase == if old(self).phase == DoctorPhase::StopDaemons {
                DoctorPhase::Repair
            } else {
                DoctorPhase::Unload
            },
            final(self).actions == (DoctorActions { stopped_daemons: true, ..old(self).actions }),
            final(self).action_issues == old(self).action_issues,
    {
        self.actions.stopped_daemons = true;
        self.phase = match self.phase {
            DoctorPhase::StopDaemons => DoctorPhase::Repair,
            _ => DoctorPhase::Unload,
        };
    }

    /// The device nodes were repaired.
    pub fn repaired(&mut self, report: RestoreReport)
        requires
            old(self).wf(),
            old(self).phase == DoctorPhase::Repair,
        ensures
            final(self).wf(),
            final(self).config == old(self).config,
            final(self).phase == DoctorPhase::Clean,
            final(self).actions == (DoctorActions {
                restored_hidden: report.restored,
                ghosts_removed: report.ghosts_removed,
                stale_hidden_removed: report.stale_hidden_removed,
                ..old(self).actions
            }),
            final(self).action_issues == old(self).action_issues,
    {
        self.actions.restored_hidden = report.restored;
        self.actions.ghosts_removed = report.ghosts_removed;
        self.actions.stale_hidden_removed = report.stale_hidden_removed;
        self.phase = DoctorPhase::Clean;
    }

    /// Left-over loopback devices were removed, or were not.
    pub fn cleaned(&mut self, report: CleanReport)
        requires
            old(self).wf(),
            old(self).phase == DoctorPhase::Clean,
        ensures
            final(self).wf(),
            final(self).config == old(self).config,
            final(self).phase == DoctorPhase::LoadModule,
            final(self).actions == (DoctorActions {
                loopbacks_removed: report.removed,
                loopback_failures: final(self).actions.loopback_failures,
                ..old(self).actions
            }),
            texts(final(self).actions.loopback_failures@) == failure_lines(report),
            final(self).action_issues == old(self).action_issues,
    {
        let ghost all = failure_lines(report);
        let mut failures: Vec<String> = Vec::new();
        let mut i: usize = 0;
        assert(texts(failures@) =~= all.take(0));
        while i < report.failed.len()
            invariant
                i <= report.failed@.len(),
                all == failure_lines(report),
                texts(failures@) == all.take(i as int),
            decreases report.failed@.len() - i,
        {
            let line = concat3(&report.failed[i].path, ": ", &report.failed[i].reason);
            assert(line@ == all[i as int]);
            failures.push(line);
            assert(all.take(i + 1) =~= all.take(i as int).push(line@));
            i += 1;
        }
        assert(all.take(i as int) =~= all);
        self.actions.loopbacks_removed = report.removed;
        self.actions.loopback_failures = failures;
        self.phase = DoctorPhase::LoadModule;
    }

    /// The kernel module was loaded, or was not. A reload follows, if it was asked for.
    pub fn module_loaded(&mut self, result: Result<(), CamShimError>)
        requires
            old(self).wf(),
            old(self).phase == DoctorPhase::LoadModule,
        ensures
            final(self).wf(),
            final(self).config == old(self).config,
            final(self).phase == after_load(old(self).config),
            final(self).phase == if !old(self).config.reload_module {
                DoctorPhase::Collect
            } else if old(self).config.force {
                DoctorPhase::StopForReload
            } else {
                DoctorPhase::Unload
            },
            final(self).actions == (DoctorActions {
                module_loaded: result is Ok || old(self).actions.module_loaded,
                ..old(self).actions
            }),
            texts(final(self).action_issues@) == texts(old(self).action_issues@) + match result {
                Ok(()) => Seq::empty(),
                Err(err) => seq!["failed to load v4l2loopback: "@ + err.text()],
            },
    {
        match result {
            Ok(()) => {
                self.actions.module_loaded = true;
                assert(texts(self.action_issues@) =~= texts(self.action_issues@)
                    + Seq::<Seq<char>>::empty());
            },
            Err(err) => {
                add_line(
                    &mut self.action_issues,
                    &concat2("failed to load v4l2loopback: ", &err.message()),
                );
            },
        }
        self.phase = if !self.config.reload_module {
            DoctorPhase::Collect
        } else if self.config.force {
            DoctorPhase::StopForReload
        } else {
            DoctorPhase::Unload
        };
    }

    /// The kernel module was unloaded, or was not.
    pub fn unloaded(&mut self, result: Result<(), CamShimError>)
        requires
            old(self).wf(),
            old(self).phase == DoctorPhase::Unload,
        ensures
            final(self).wf(),
            final(self).config == old(self).config,
            final(self).actions == old(self).actions,
            final(self).phase == if result is Ok {
                DoctorPhase::Reload
            } else {
                DoctorPhase::Collect
            },
            texts(final(self).action_issues@) == texts(old(self).action_issues@) + match result {
                Ok(()) => Seq::empty(),
                Err(err) => seq!["module reload unload failed: "@ + err.text()],
            },
    {
        match result {
            Ok(()) => {
                self.phase = DoctorPhase::Reload;
                assert(texts(self.action_issues@) =~= texts(self.action_issues@)
                    + Seq::<Seq<char>>::empty());
            },
            Err(err) => {
                add_line(
                    &mut self.action_issues,
                    &concat2("module reload unload failed: ", &err.message()),
                );
                self.phase = DoctorPhase::Collect;
            },
        }
    }

    /// The kernel module was loaded again, or was not.
    pub fn reloaded(&mut self, result: Result<(), CamShimError>)
        requires
            old(self).wf(),
            old(self).phase == DoctorPhase::Reload,
        ensures
            final(self).wf(),
            final(self).config == old(self).config,
            final(self).phase == DoctorPhase::Collect,
            final(self).actions == (DoctorActions {
                module_reloaded: result is Ok || old(self).actions.module_reloaded,
                ..old(self).actions
            }),
            texts(final(self).action_issues@) == texts(old(self).action_issues@) + match result {
                Ok(()) => Seq::empty(),
                Err(err) => seq!["module reload load failed: "@ + err.text()],
            },
    {
        match result {
            Ok(()) => {
                self.actions.module_reloaded = true;
                assert(texts(self.action_issues@) =~= texts(self.action_issues@)
                    + Seq::<Seq<char>>::empty());
            },
            Err(err) => {
                add_line(
                    &mut self.action_issues,
                    &concat2("module reload load failed: ", &err.message()),
                );
            },
        }
        self.phase = DoctorPhase::Collect;
    }
}

/// The phase that a check starts in.
pub open spec fn doctor_start(
    config: DoctorConfig,
    before: RuntimeSnapshot,
    own_pid: u32,
) -> DoctorPhase {
    if config.check_only {
        DoctorPhase::Collect
    } else if config.force && (before.serve_running || any_held_by_another(
        loopback_models(before.loopbacks@),
        own_pid,
    )) {
        DoctorPhase::StopDaemons
    } else {
        DoctorPhase::Repair
    }
}

/// The phase after the kernel module was loaded.
pub open spec fn after_load(config: DoctorConfig) -> DoctorPhase {
    if !config.reload_module {
        DoctorPhase::Collect
    } else if config.force {
        DoctorPhase::StopForReload
    } else {
        DoctorPhase::Unload
    }
}

/// A check that only looks collects at once. Every other one repairs, and stops the other runs of this
/// program before that exactly when it is forced and the supervisor runs or another process holds a
/// loopback device. The kernel module is unloaded only where a reload was asked for, and a forced check
/// stops the other runs of this program before it.
pub proof fn lemma_doctor_phases(config: DoctorConfig, before: RuntimeSnapshot, own_pid: u32)
    ensures
        doctor_start(config, before, own_pid) == DoctorPhase::Collect <==> config.check_only,
        doctor_start(config, before, own_pid) == DoctorPhase::StopDaemons <==> !config.check_only
            && config.force && (before.serve_running || exists|i: int, k: int|
            0 <= i < before.loopbacks@.len() && 0 <= k < before.loopbacks@[i].holders@.len() && (
            #[trigger] before.loopbacks@[i].holders@[k]).pid != own_pid),
        !config.check_only && !config.force ==> doctor_start(config, before, own_pid)
            == DoctorPhase::Repair,
        after_load(config) == DoctorPhase::Collect <==> !config.reload_module,
        after_load(config) == DoctorPhase::StopForReload <==> config.reload_module && config.force,
        after_load(config) == DoctorPhase::Unload <==> config.reload_module && !config.force,
{
    let models = loopback_models(before.loopbacks@);
    if any_held_by_another(models, own_pid) {
        let i = choose|i: int|
            0 <= i < models.len() && held_by_another((#[trigger] models[i]).holders, own_pid);
        assert(models[i] == before.loopbacks@[i]@);
        let holders = models[i].holders;
        let k = choose|k: int| 0 <= k < holders.len() && (#[trigger] holders[k]).0 != own_pid;
        assert(holders[k] == before.loopbacks@[i].holders@[k]@);
        assert(before.loopbacks@[i].holders@[k].pid != own_pid);
    }
    if exists|i: int, k: int|
        0 <= i < before.loopbacks@.len() && 0 <= k < before.loopbacks@[i].holders@.len() && (
        #[trigger] before.loopbacks@[i].holders@[k]).pid != own_pid {
        let (i, k) = choose|i: int, k: int|
            0 <= i < before.loopbacks@.len() && 0 <= k < before.loopbacks@[i].holders@.len() && (
            #[trigger] before.loopbacks@[i].holders@[k]).pid != own_pid;
        assert(models[i] == before.loopbacks@[i]@);
        assert(models[i].holders[k] == before.loopbacks@[i].holders@[k]@);
        assert(held_by_another(models[i].holders, own_pid));
    }
}

/// What is said of loopback devices that are held, from the first `n` devices.
pub open spec fn held_issues(loopbacks: Seq<LoopbackModel>, n: int) -> Seq<Seq<char>>
    decreases n,
{
    if n <= 0 {
        Seq::empty()
    } else {
        let loopback = loopbacks[n - 1];
        held_issues(loopbacks, n - 1) + line_if(
            loopback.holders.len() > 0,
            loopback.path + " is held open by "@ + holders_text(loopback.holders),
        )
    }
}

/// The shim of the camera runs, but hands over no frames.
pub open spec fn has_stale_heartbeat(camera: ManagedModel, serve_running: bool, now_ms: u64) -> bool {
    &&& serve_running
    &&& !camera.quarantined
    &&& camera.last_heartbeat_ms != 0
    &&& age_ms(now_ms, camera.last_heartbeat_ms) / 1000 > HEARTBEAT_STALE_SECS
}

/// What is said of a camera whose shim hands over no frames.
pub open spec fn stale_text(camera: ManagedModel, now_ms: u64) -> Seq<char> {
    "shim for "@ + camera.serial + " ("@ + camera.loopback_path + ") has stale heartbeat ("@
        + decimal(age_ms(now_ms, camera.last_heartbeat_ms) / 1000) + "s ago)"@
}

/// What is said of cameras whose shim hands over no frames, from the first `n` cameras.
pub open spec fn stale_issues(
    managed: Seq<ManagedModel>,
    serve_running: bool,
    now_ms: u64,
    n: int,
) -> Seq<Seq<char>>
    decreases n,
{
    if n <= 0 {
        Seq::empty()
    } else {
        stale_issues(managed, serve_running, now_ms, n - 1) + line_if(
            has_stale_heartbeat(managed[n - 1], serve_running, now_ms),
            stale_text(managed[n - 1], now_ms),
        )
    }
}

/// The state of the supervisor is recent.
pub open spec fn is_recent(updated_at_ms: u64, now_ms: u64) -> bool {
    age_ms(now_ms, updated_at_ms) <= HEARTBEAT_STALE_SECS * 1000
}

/// What is wrong with what the supervisor does.
pub open spec fn supervisor_issues(snapshot: RuntimeSnapshot, now_ms: u64) -> Seq<Seq<char>> {
    match snapshot.supervisor_state {
        None => Seq::empty(),
        Some(state) => line_if(
            state.quarantined@.len() > 0,
            "quarantined camera serial(s): "@ + joined(texts(state.quarantined@), ", "@),
        ) + lines_if(
            is_recent(state.updated_at_ms, now_ms),
            stale_issues(
                managed_models(state.managed@),
                snapshot.serve_running,
                now_ms,
                state.managed@.len() as int,
            ),
        ),
    }
}

/// What is wrong.
pub open spec fn diagnosis(snapshot: RuntimeSnapshot, now_ms: u64) -> Seq<Seq<char>> {
    line_if(
        !snapshot.loopback_module_loaded,
        "v4l2loopback kernel module is not loaded"@,
    ) + line_if(
        snapshot.hidden_cameras > 0,
        decimal(snapshot.hidden_cameras as nat)
            + " camera node(s) still hidden under /dev/cam-shim-hidden/"@,
    ) + line_if(
        snapshot.ghost_nodes > 0,
        decimal(snapshot.ghost_nodes as nat) + " stale /dev/video* ghost node(s) remain"@,
    ) + line_if(
        snapshot.visible_capture_devices == 0 && snapshot.hidden_cameras == 0
            && snapshot.ghost_nodes == 0,
        "no visible V4L2 capture devices found"@,
    ) + held_issues(
        loopback_models(snapshot.loopbacks@),
        snapshot.loopbacks@.len() as int,
    ) + supervisor_issues(snapshot, now_ms)
}

fn held_lines(loopbacks: &Vec<LoopbackSnapshot>) -> (r: Vec<String>)
    ensures
        texts(r@) == held_issues(loopback_models(loopbacks@), loopbacks@.len() as int),
{
    let ghost models = loopback_models(loopbacks@);
    let mut out: Vec<String> = Vec::new();
    let mut i: usize = 0;
    while i < loopbacks.len()
        invariant
            i <= loopbacks@.len(),
            models == loopback_models(loopbacks@),
            texts(out@) == held_issues(models, i as int),
        decreases loopbacks@.len() - i,
    {
        assert(models[i as int] == loopbacks@[i as int]@);
        assert(models[i as int].holders.len() == loopbacks@[i as int].holders@.len());
        let line = concat3(
            &loopbacks[i].path,
            " is held open by ",
            &join_holders(&loopbacks[i].holders),
        );
        add_line_if(&mut out, loopbacks[i].holders.len() > 0, &line);
        i += 1;
    }
    out
}

fn stale_lines(managed: &Vec<ManagedCameraSnapshot>, serve_running: bool, now_ms: u64) -> (r: Vec<
    String,
>)
    ensures
        texts(r@) == stale_issues(
            managed_models(managed@),
            serve_running,
            now_ms,
            managed@.len() as int,
        ),
{
    let ghost models = managed_models(managed@);
    let mut out: Vec<String> = Vec::new();
    let mut i: usize = 0;
    while i < managed.len()
        invariant
            i <= managed@.len(),
            models == managed_models(managed@),
            texts(out@) == stale_issues(models, serve_running, now_ms, i as int),
        decreases managed@.len() - i,
    {
        assert(models[i as int] == managed@[i as int]@);
        let camera = &managed[i];
        let mut stale = false;
        let mut line = String::new();
        if !camera.quarantined {
            if let Some(age_secs) = heartbeat_age_secs(now_ms, camera.last_heartbeat_ms) {
                if heartbeat_is_stale(age_secs) && serve_running {
                    stale = true;
                    line = concat7(
                        "shim for ",
                        &camera.serial,
                        " (",
                        &camera.loopback_path,
                        ") has stale heartbeat (",
                        &decimal_of(age_secs),
                        "s ago)",
                    );
                }
            }
        }
        assert(stale == has_stale_heartbeat(models[i as int], serve_running, now_ms));
        add_line_if(&mut out, stale, &line);
        i += 1;
    }
    out
}

fn supervisor_lines(snapshot: &RuntimeSnapshot, now_ms: u64) -> (r: Vec<String>)
    ensures
        texts(r@) == supervisor_issues(*snapshot, now_ms),
{
    let mut out: Vec<String> = Vec::new();
    if let Some(state) = &snapshot.supervisor_state {
        let line = concat2("quarantined camera serial(s): ", &join(&state.quarantined, ", "));
        add_line_if(&mut out, state.quarantined.len() > 0, &line);
        if age_ms_since(now_ms, state.updated_at_ms) <= 30_000 {
            add_lines(&mut out, stale_lines(&state.managed, snapshot.serve_running, now_ms));
        }
        assert(texts(out@) =~= supervisor_issues(*snapshot, now_ms));
    }
    out
}

/// Says what is wrong.
pub fn diagnose(snapshot: &RuntimeSnapshot, now_ms: u64) -> (r: Vec<String>)
    ensures
        texts(r@) == diagnosis(*snapshot, now_ms),
{
    let mut out: Vec<String> = Vec::new();
    add_line_if(
        &mut out,
        !snapshot.loopback_module_loaded,
        "v4l2loopback kernel module is not loaded",
    );
    add_line_if(
        &mut out,
        snapshot.hidden_cameras > 0,
        &concat2(
            &decimal_of(snapshot.hidden_cameras as u64),
            " camera node(s) still hidden under /dev/cam-shim-hidden/",
        ),
    );
    add_line_if(
        &mut out,
        snapshot.ghost_nodes > 0,
        &concat2(
            &decimal_of(snapshot.ghost_nodes as u64),
            " stale /dev/video* ghost node(s) remain",
        ),
    );
    add_line_if(
        &mut out,
        snapshot.visible_capture_devices == 0 && snapshot.hidden_cameras == 0
            && snapshot.ghost_nodes == 0,
        "no visible V4L2 capture devices found",
    );
    add_lines(&mut out, held_lines(&snapshot.loopbacks));
    add_lines(&mut out, supervisor_lines(snapshot, now_ms));
    assert(texts(out@) =~= diagnosis(*snapshot, now_ms));
    out
}

proof fn lemma_nothing_held(loopbacks: Seq<LoopbackModel>, n: int)
    requires
        0 <= n <= loopbacks.len(),
    ensures
        held_issues(loopbacks, n).len() == 0 <==> forall|i: int|
            0 <= i < n ==> (#[trigger] loopbacks[i]).holders.len() == 0,
    decreases n,
{
    if n > 0 {
        lemma_nothing_held(loopbacks, n - 1);
    }
}

proof fn lemma_nothing_stale(managed: Seq<ManagedModel>, serve_running: bool, now_ms: u64, n: int)
    requires
        0 <= n <= managed.len(),
    ensures
        stale_issues(managed, serve_running, now_ms, n).len() == 0 <==> forall|i: int|
            0 <= i < n ==> !has_stale_heartbeat(#[trigger] managed[i], serve_running, now_ms),
    decreases n,
{
    if n > 0 {
        lemma_nothing_stale(managed, serve_running, now_ms, n - 1);
    }
}

/// The supervisor has nothing wrong with it: it has no camera in quarantine, and while it runs and its
/// state is at most 30 seconds old, every camera that it manages has had a frame within 31 seconds, or
/// none yet.
pub open spec fn supervisor_is_well(
    state: crate::runtime::SupervisorStateSnapshot,
    serve_running: bool,
    now_ms: u64,
) -> bool {
    &&& state.quarantined@.len() == 0
    &&& serve_running && now_ms <= state.updated_at_ms + 30_000 ==> forall|i: int|
        0 <= i < state.managed@.len() && !(#[trigger] state.managed@[i]).quarantined
            && state.managed@[i].last_heartbeat_ms != 0 ==> now_ms
            < state.managed@[i].last_heartbeat_ms + 31_000
}

/// Nothing is wrong exactly when the kernel module is loaded, no camera is hidden, no device file is
/// left over, a capture device is in sight, nobody holds a loopback device, and the supervisor is well.
pub proof fn lemma_nothing_is_wrong(snapshot: RuntimeSnapshot, now_ms: u64)
    ensures
        diagnosis(snapshot, now_ms).len() == 0 <==> {
            &&& snapshot.loopback_module_loaded
            &&& snapshot.hidden_cameras == 0
            &&& snapshot.ghost_nodes == 0
            &&& snapshot.visible_capture_devices > 0
            &&& forall|i: int|
                0 <= i < snapshot.loopbacks@.len() ==> (
                #[trigger] snapshot.loopbacks@[i]).holders@.len() == 0
            &&& snapshot.supervisor_state matches Some(state) ==> supervisor_is_well(
                state,
                snapshot.serve_running,
                now_ms,
            )
        },
{
    let models = loopback_models(snapshot.loopbacks@);
    lemma_nothing_held(models, models.len() as int);
    assert forall|i: int| 0 <= i < models.len() implies (#[trigger] models[i]).holders.len()
        == snapshot.loopbacks@[i].holders@.len() by {}
    assert((forall|i: int| 0 <= i < models.len() ==> (#[trigger] models[i]).holders.len() == 0)
        <==> (forall|i: int|
        0 <= i < snapshot.loopbacks@.len() ==> (#[trigger] snapshot.loopbacks@[i]).holders@.len()
            == 0)) by {
        if forall|i: int| 0 <= i < models.len() ==> (#[trigger] models[i]).holders.len() == 0 {
            assert forall|i: int| 0 <= i < snapshot.loopbacks@.len() implies (
            #[trigger] snapshot.loopbacks@[i]).holders@.len() == 0 by {
                assert(models[i].holders.len() == 0);
            }
        }
    }
    if let Some(state) = snapshot.supervisor_state {
        let managed = managed_models(state.managed@);
        let running = snapshot.serve_running;
        lemma_nothing_stale(managed, running, now_ms, managed.len() as int);
        assert forall|i: int| 0 <= i < managed.len() implies has_stale_heartbeat(
            #[trigger] managed[i],
            running,
            now_ms,
        ) == (running && !state.managed@[i].quarantined && state.managed@[i].last_heartbeat_ms != 0
            && now_ms >= state.managed@[i].last_heartbeat_ms + 31_000) by {
            assert(managed[i] == state.managed@[i]@);
        }
        if is_recent(state.updated_at_ms, now_ms) && running && state.quarantined@.len() == 0 {
            if supervisor_issues(snapshot, now_ms).len() == 0 {
                assert forall|i: int|
                    0 <= i < state.managed@.len() && !(#[trigger] state.managed@[i]).quarantined
                        && state.managed@[i].last_heartbeat_ms != 0 implies now_ms
                    < state.managed@[i].last_heartbeat_ms + 31_000 by {
                    assert(!has_stale_heartbeat(managed[i], running, now_ms));
                }
            }
        }
    }
}

/// What is said of the module, hidden cameras, left-over device files and a missing camera is said
/// whenever it holds.
pub proof fn lemma_problems_are_named(snapshot: RuntimeSnapshot, now_ms: u64)
    ensures
        !snapshot.loopback_module_loaded ==> diagnosis(snapshot, now_ms).contains(
            "v4l2loopback kernel module is not loaded"@,
        ),
        snapshot.hidden_cameras > 0 ==> diagnosis(snapshot, now_ms).contains(
            decimal(snapshot.hidden_cameras as nat)
                + " camera node(s) still hidden under /dev/cam-shim-hidden/"@,
        ),
        snapshot.ghost_nodes > 0 ==> diagnosis(snapshot, now_ms).contains(
            decimal(snapshot.ghost_nodes as nat) + " stale /dev/video* ghost node(s) remain"@,
        ),
        snapshot.visible_capture_devices == 0 && snapshot.hidden_cameras == 0
            && snapshot.ghost_nodes == 0 ==> diagnosis(snapshot, now_ms).contains(
            "no visible V4L2 capture devices found"@,
        ),
        forall|i: int|
            0 <= i < snapshot.loopbacks@.len() && (
            #[trigger] snapshot.loopbacks@[i]).holders@.len() > 0 ==> diagnosis(
                snapshot,
                now_ms,
            ).contains(
                snapshot.loopbacks@[i].path@ + " is held open by "@ + holders_text(
                    holder_views(snapshot.loopbacks@[i].holders@),
                ),
            ),
{
    let a = line_if(
        !snapshot.loopback_module_loaded,
        "v4l2loopback kernel module is not loaded"@,
    );
    let b = line_if(
        snapshot.hidden_cameras > 0,
        decimal(snapshot.hidden_cameras as nat)
            + " camera node(s) still hidden under /dev/cam-shim-hidden/"@,
    );
    let c = line_if(
        snapshot.ghost_nodes > 0,
        decimal(snapshot.ghost_nodes as nat) + " stale /dev/video* ghost node(s) remain"@,
    );
    let d = line_if(
        snapshot.visible_capture_devices == 0 && snapshot.hidden_cameras == 0
            && snapshot.ghost_nodes == 0,
        "no visible V4L2 capture devices found"@,
    );
    let models = loopback_models(snapshot.loopbacks@);
    let e = held_issues(models, models.len() as int);
    let f = supervisor_issues(snapshot, now_ms);
    let all = diagnosis(snapshot, now_ms);
    assert(all == a + b + c + d + e + f);
    if a.len() > 0 {
        assert(all[0] == a[0]);
    }
    if b.len() > 0 {
        assert(all[a.len() as int] == b[0]);
    }
    if c.len() > 0 {
        assert(all[(a.len() + b.len()) as int] == c[0]);
    }
    if d.len() > 0 {
        assert(all[(a.len() + b.len() + c.len()) as int] == d[0]);
    }
    assert forall|i: int|
        0 <= i < snapshot.loopbacks@.len() && (#[trigger] snapshot.loopbacks@[i]).holders@.len()
            > 0 implies all.contains(
        snapshot.loopbacks@[i].path@ + " is held open by "@ + holders_text(
            holder_views(snapshot.loopbacks@[i].holders@),
        ),
    ) by {
        assert(models[i] == snapshot.loopbacks@[i]@);
        lemma_holding_is_named(models, models.len() as int, i);
        let line = models[i].path + " is held open by "@ + holders_text(models[i].holders);
        let k = choose|k: int| 0 <= k < e.len() && e[k] == line;
        assert(all[a.len() + b.len() + c.len() + d.len() + k] == line);
    }
}

proof fn lemma_holding_is_named(loopbacks: Seq<LoopbackModel>, n: int, i: int)
    requires
        0 <= i < n <= loopbacks.len(),
        loopbacks[i].holders.len() > 0,
    ensures
        held_issues(loopbacks, n).contains(
            loopbacks[i].path + " is held open by "@ + holders_text(loopbacks[i].holders),
        ),
    decreases n,
{
    let line = loopbacks[i].path + " is held open by "@ + holders_text(loopbacks[i].holders);
    let list = held_issues(loopbacks, n);
    let rest = held_issues(loopbacks, n - 1);
    if i == n - 1 {
        assert(list[rest.len() as int] == line);
    } else {
        lemma_holding_is_named(loopbacks, n - 1, i);
        let k = choose|k: int| 0 <= k < rest.len() && rest[k] == line;
        assert(list[k] == line);
    }
}

/// One of the texts contains the pattern.
pub open spec fn any_contains(list: Seq<Seq<char>>, pattern: Seq<char>) -> bool {
    exists|i: int| 0 <= i < list.len() && occurs(#[trigger] list[i], pattern)
}

fn some_contains(list: &Vec<String>, pattern: &str) -> (r: bool)
    ensures
        r == any_contains(texts(list@), pattern@),
{
    let ghost all = texts(list@);
    let mut i: usize = 0;
    assert(all.len() == list@.len());
    while i < list.len()
        invariant
            i <= list@.len(),
            all == texts(list@),
            all.len() == list@.len(),
            forall|j: int| 0 <= j < i ==> !occurs(#[trigger] all[j], pattern@),
        decreases list@.len() - i,
    {
        assert(all[i as int] == list@[i as int]@);
        if contains(&list[i], pattern) {
            return true;
        }
        i += 1;
    }
    false
}

/// What to do next.
pub open spec fn advice(snapshot: RuntimeSnapshot, issues: Seq<Seq<char>>) -> Seq<Seq<char>> {
    line_if(snapshot.hidden_cameras > 0, "Run: sudo cam-shim restore"@) + line_if(
        snapshot.ghost_nodes > 0,
        "Run: sudo cam-shim restore (repairs ghost nodes)"@,
    ) + line_if(
        !snapshot.loopback_module_loaded,
        "Run: sudo modprobe v4l2loopback exclusive_caps=1"@,
    ) + line_if(
        snapshot.needs_shim_devices > 0 && !snapshot.serve_running,
        "Run: sudo cam-shim serve (or sudo systemctl start cam-shim)"@,
    ) + line_if(
        any_contains(issues, "held open"@),
        "Close apps using the virtual camera (Discord, guvcview), or run with --force"@,
    ) + line_if(
        any_contains(issues, "module reload"@),
        "Stop serve first: sudo systemctl stop cam-shim, then sudo cam-shim doctor --reload"@,
    ) + line_if(
        snapshot.visible_capture_devices == 0,
        "Unplug the webcam, wait 5 seconds, replug, then run doctor again"@,
    )
}

/// What to do is said whenever it helps, and nothing is said where nothing has to be done.
pub proof fn lemma_advice(snapshot: RuntimeSnapshot, issues: Seq<Seq<char>>)
    ensures
        snapshot.hidden_cameras > 0 ==> advice(snapshot, issues).contains(
            "Run: sudo cam-shim restore"@,
        ),
        snapshot.ghost_nodes > 0 ==> advice(snapshot, issues).contains(
            "Run: sudo cam-shim restore (repairs ghost nodes)"@,
        ),
        !snapshot.loopback_module_loaded ==> advice(snapshot, issues).contains(
            "Run: sudo modprobe v4l2loopback exclusive_caps=1"@,
        ),
        snapshot.needs_shim_devices > 0 && !snapshot.serve_running ==> advice(
            snapshot,
            issues,
        ).contains("Run: sudo cam-shim serve (or sudo systemctl start cam-shim)"@),
        (exists|i: int| 0 <= i < issues.len() && occurs(#[trigger] issues[i], "held open"@))
            ==> advice(snapshot, issues).contains(
            "Close apps using the virtual camera (Discord, guvcview), or run with --force"@,
        ),
        (exists|i: int| 0 <= i < issues.len() && occurs(#[trigger] issues[i], "module reload"@))
            ==> advice(snapshot, issues).contains(
            "Stop serve first: sudo systemctl stop cam-shim, then sudo cam-shim doctor --reload"@,
        ),
        snapshot.visible_capture_devices == 0 ==> advice(snapshot, issues).contains(
            "Unplug the webcam, wait 5 seconds, replug, then run doctor again"@,
        ),
        snapshot.hidden_cameras == 0 && snapshot.ghost_nodes == 0 && snapshot.loopback_module_loaded
            && (snapshot.needs_shim_devices == 0 || snapshot.serve_running) && issues.len() == 0
            && snapshot.visible_capture_devices > 0 ==> advice(snapshot, issues).len() == 0,
{
    let a = line_if(snapshot.hidden_cameras > 0, "Run: sudo cam-shim restore"@);
    let b = line_if(
        snapshot.ghost_nodes > 0,
        "Run: sudo cam-shim restore (repairs ghost nodes)"@,
    );
    let c = line_if(
        !snapshot.loopback_module_loaded,
        "Run: sudo modprobe v4l2loopback exclusive_caps=1"@,
    );
    let d = line_if(
        snapshot.needs_shim_devices > 0 && !snapshot.serve_running,
        "Run: sudo cam-shim serve (or sudo systemctl start cam-shim)"@,
    );
    let e = line_if(
        any_contains(issues, "held open"@),
        "Close apps using the virtual camera (Discord, guvcview), or run with --force"@,
    );
    let f = line_if(
        any_contains(issues, "module reload"@),
        "Stop serve first: sudo systemctl stop cam-shim, then sudo cam-shim doctor --reload"@,
    );
    let g = line_if(
        snapshot.visible_capture_devices == 0,
        "Unplug the webcam, wait 5 seconds, replug, then run doctor again"@,
    );
    let all = advice(snapshot, issues);
    assert(all == a + b + c + d + e + f + g);
    if a.len() > 0 {
        assert(all[0] == a[0]);
    }
    if b.len() > 0 {
        assert(all[a.len() as int] == b[0]);
    }
    if c.len() > 0 {
        assert(all[(a.len() + b.len()) as int] == c[0]);
    }
    if d.len() > 0 {
        assert(all[(a.len() + b.len() + c.len()) as int] == d[0]);
    }
    if e.len() > 0 {
        assert(all[(a.len() + b.len() + c.len() + d.len()) as int] == e[0]);
    }
    if f.len() > 0 {
        assert(all[(a.len() + b.len() + c.len() + d.len() + e.len()) as int] == f[0]);
    }
    if g.len() > 0 {
        assert(all[(a.len() + b.len() + c.len() + d.len() + e.len() + f.len()) as int] == g[0]);
    }
}

/// The list holds the same texts as another, each once and in text order.
pub open spec fn sorted_set(list: Seq<Seq<char>>, of: Seq<Seq<char>>) -> bool {
    &&& texts_sorted(list)
    &&& forall|t: Seq<char>| #[trigger] list.contains(t) <==> of.contains(t)
}

/// Says what to do next.
pub fn build_recommendations(snapshot: &RuntimeSnapshot, issues: &Vec<String>) -> (r: Vec<String>)
    ensures
        sorted_set(texts(r@), advice(*snapshot, texts(issues@))),
{
    let mut out: Vec<String> = Vec::new();
    add_line_if(&mut out, snapshot.hidden_cameras > 0, "Run: sudo cam-shim restore");
    add_line_if(
        &mut out,
        snapshot.ghost_nodes > 0,
        "Run: sudo cam-shim restore (repairs ghost nodes)",
    );
    add_line_if(
        &mut out,
        !snapshot.loopback_module_loaded,
        "Run: sudo modprobe v4l2loopback exclusive_caps=1",
    );
    add_line_if(
        &mut out,
        snapshot.needs_shim_devices > 0 && !snapshot.serve_running,
        "Run: sudo cam-shim serve (or sudo systemctl start cam-shim)",
    );
    add_line_if(
        &mut out,
        some_contains(issues, "held open"),
        "Close apps using the virtual camera (Discord, guvcview), or run with --force",
    );
    add_line_if(
        &mut out,
        some_contains(issues, "module reload"),
        "Stop serve first: sudo systemctl stop cam-shim, then sudo cam-shim doctor --reload",
    );
    add_line_if(
        &mut out,
        snapshot.visible_capture_devices == 0,
        "Unplug the webcam, wait 5 seconds, replug, then run doctor again",
    );
    assert(texts(out@) =~= advice(*snapshot, texts(issues@)));
    sort_dedup(&out)
}

/// A report names what is wrong after a check and what went wrong during it, and says that all is well
/// or not.
pub open spec fn is_verdict(
    run: DoctorRun,
    after: RuntimeSnapshot,
    now_ms: u64,
    r: DoctorReport,
) -> bool {
    &&& sorted_set(texts(r.issues@), diagnosis(after, now_ms) + texts(run.action_issues@))
    &&& r.ok == ((diagnosis(after, now_ms) + texts(run.action_issues@)).len() == 0)
}

/// A report says that all is well exactly when it names no issue, and it names every one: what is wrong
/// after the check, and what went wrong during it.
pub proof fn lemma_report_names_all(
    run: DoctorRun,
    after: RuntimeSnapshot,
    now_ms: u64,
    r: DoctorReport,
)
    requires
        is_verdict(run, after, now_ms, r),
    ensures
        r.ok <==> r.issues@.len() == 0,
        forall|issue: Seq<char>| #[trigger]
            diagnosis(after, now_ms).contains(issue) ==> texts(r.issues@).contains(issue),
        forall|i: int|
            0 <= i < run.action_issues@.len() ==> texts(r.issues@).contains(
                (#[trigger] run.action_issues@[i])@,
            ),
        r.ok ==> after.loopback_module_loaded && after.hidden_cameras == 0 && after.ghost_nodes == 0
            && after.visible_capture_devices > 0,
{
    let found = diagnosis(after, now_ms);
    let during = texts(run.action_issues@);
    let all = found + during;
    let list = texts(r.issues@);
    assert(list.len() == r.issues@.len());
    assert forall|issue: Seq<char>| #[trigger] found.contains(issue) implies list.contains(issue) by {
        let i = choose|i: int| 0 <= i < found.len() && found[i] == issue;
        assert(all[i] == issue);
        assert(all.contains(issue));
    }
    assert forall|i: int| 0 <= i < run.action_issues@.len() implies list.contains(
        (#[trigger] run.action_issues@[i])@,
    ) by {
        assert(during[i] == run.action_issues@[i]@);
        assert(all[found.len() + i] == during[i]);
        assert(all.contains(during[i]));
    }
    if list.len() > 0 {
        assert(list.contains(list[0]));
        assert(all.contains(list[0]));
    }
    if all.len() > 0 {
        assert(all.contains(all[0]));
        assert(list.contains(all[0]));
    }
    if r.ok {
        lemma_nothing_is_wrong(after, now_ms);
    }
}

/// Reports a check: what is wrong after it, with what went wrong during it.
pub fn run_doctor(
    run: DoctorRun,
    before: RuntimeSnapshot,
    after: RuntimeSnapshot,
    now_ms: u64,
    v4l2_list_devices: Option<String>,
) -> (r: DoctorReport)
    requires
        run.phase == DoctorPhase::Collect,
    ensures
        r.before == before,
        r.after == after,
        r.actions == run.actions,
        r.v4l2_list_devices == v4l2_list_devices,
        is_verdict(run, after, now_ms, r),
        sorted_set(texts(r.issues@), diagnosis(after, now_ms) + texts(run.action_issues@)),
        sorted_set(texts(r.recommendations@), advice(after, texts(r.issues@))),
        r.ok == ((diagnosis(after, now_ms) + texts(run.action_issues@)).len() == 0),
{
    let mut found = diagnose(&after, now_ms);
    add_lines(&mut found, run.action_issues);
    let ghost all = diagnosis(after, now_ms) + texts(run.action_issues@);
    assert(texts(found@) == all);
    let issues = sort_dedup(&found);
    let recommendations = build_recommendations(&after, &issues);
    let ok = issues.len() == 0;
    proof {
        assert(texts(issues@).len() == issues@.len());
        if ok {
            if all.len() > 0 {
                assert(all.contains(all[0]));
                assert(texts(issues@).contains(all[0]));
            }
        } else {
            assert(texts(issues@).contains(texts(issues@)[0]));
            assert(all.contains(texts(issues@)[0]));
        }
    }
    DoctorReport {
        ok,
        before,
        actions: run.actions,
        after,
        issues,
        recommendations,
        v4l2_list_devices,
    }
}

/// A check that only looks reports no actions, whatever it finds.
pub proof fn lemma_check_only_does_nothing(run: DoctorRun)
    requires
        run.wf(),
        run.config.check_only,
    ensures
        run.phase == DoctorPhase::Collect,
        run.actions.none(),
{
}

/// A row of dashes.
pub open spec fn dashes(n: nat) -> Seq<char> {
    Seq::new(n, |i: int| '-')
}

fn dashes_under(title: &str) -> (r: String)
    ensures
        r@ == dashes(encode_utf8(title@).len()),
{
    let n: usize = title.as_bytes().len();
    let mut out = String::new();
    let mut i: usize = 0;
    while i < n
        invariant
            i <= n,
            n == encode_utf8(title@).len(),
            out@ == dashes(i as nat),
        decreases n - i,
    {
        out.push('-');
        assert(out@ =~= dashes((i + 1) as nat));
        i += 1;
    }
    out
}

/// A loopback device in one line.
pub open spec fn loopback_line(loopback: LoopbackModel) -> Seq<char> {
    let tag = if loopback.cam_shim {
        "cam-shim"@
    } else {
        "other"@
    };
    if loopback.holders.len() == 0 {
        "    "@ + loopback.path + " — "@ + loopback.name + " ["@ + tag + "]"@
    } else {
        "    "@ + loopback.path + " — "@ + loopback.name + " ["@ + tag + ", held by "@
            + holders_text(loopback.holders) + "]"@
    }
}

/// The loopback devices of a snapshot, in lines.
pub open spec fn loopback_section(loopbacks: Seq<LoopbackModel>) -> Seq<Seq<char>> {
    if loopbacks.len() == 0 {
        seq!["  loopback devices: none"@]
    } else {
        seq!["  loopback devices:"@] + loopbacks.map_values(
            |loopback: LoopbackModel| loopback_line(loopback),
        )
    }
}

/// A managed camera in one line.
pub open spec fn managed_line(camera: ManagedModel) -> Seq<char> {
    "      "@ + camera.serial + " → "@ + camera.loopback_path + " ["@ + if camera.quarantined {
        "quarantined"@
    } else {
        "active"@
    } + ", failures="@ + decimal(camera.consecutive_failures as nat) + "]"@
}

/// The state of the supervisor, in lines.
pub open spec fn state_section(snapshot: RuntimeSnapshot, now_ms: u64) -> Seq<Seq<char>> {
    match snapshot.supervisor_state {
        None => Seq::empty(),
        Some(state) => seq![
            "  supervisor state: "@ + STATE_FILE@,
            "    updated: "@ + decimal(age_ms(now_ms, state.updated_at_ms)) + " ms ago"@,
        ] + if state.managed@.len() == 0 {
            seq!["    managed cameras: none"@]
        } else {
            seq!["    managed cameras:"@] + managed_models(state.managed@).map_values(
                |camera: ManagedModel| managed_line(camera),
            )
        },
    }
}

/// A snapshot in lines.
pub open spec fn snapshot_text(title: Seq<char>, snapshot: RuntimeSnapshot, now_ms: u64) -> Seq<
    Seq<char>,
> {
    seq![
        title,
        dashes(encode_utf8(title).len()),
        "  v4l2loopback: "@ + if snapshot.loopback_module_loaded {
            "loaded"@
        } else {
            "missing"@
        },
        "  serve daemon: "@ + if snapshot.serve_running {
            "running"@
        } else {
            "not running"@
        },
        "  visible capture devices: "@ + decimal(snapshot.visible_capture_devices as nat),
        "  needs shim: "@ + decimal(snapshot.needs_shim_devices as nat),
        "  hidden cameras: "@ + decimal(snapshot.hidden_cameras as nat),
        "  ghost nodes: "@ + decimal(snapshot.ghost_nodes as nat),
    ] + loopback_section(loopback_models(snapshot.loopbacks@)) + state_section(snapshot, now_ms)
        + seq![""@]
}

fn loopback_lines(loopbacks: &Vec<LoopbackSnapshot>) -> (r: Vec<String>)
    ensures
        texts(r@) == loopback_section(loopback_models(loopbacks@)),
{
    let ghost models = loopback_models(loopbacks@);
    let ghost all = models.map_values(|loopback: LoopbackModel| loopback_line(loopback));
    let mut out: Vec<String> = Vec::new();
    if loopbacks.len() == 0 {
        out.push("  loopback devices: none".to_string());
        assert(texts(out@) =~= loopback_section(models));
        return out;
    }
    out.push("  loopback devices:".to_string());
    let mut i: usize = 0;
    assert(texts(out@) =~= seq!["  loopback devices:"@] + all.take(0));
    while i < loopbacks.len()
        invariant
            i <= loopbacks@.len(),
            models == loopback_models(loopbacks@),
            all == models.map_values(|loopback: LoopbackModel| loopback_line(loopback)),
            texts(out@) == seq!["  loopback devices:"@] + all.take(i as int),
        decreases loopbacks@.len() - i,
    {
        let loopback = &loopbacks[i];
        let tag = if loopback.cam_shim {
            "cam-shim"
        } else {
            "other"
        };
        let head = concat6("    ", &loopback.path, " — ", &loopback.name, " [", tag);
        let line = if loopback.holders.len() == 0 {
            concat2(&head, "]")
        } else {
            concat4(&head, ", held by ", &join_holders(&loopback.holders), "]")
        };
        proof {
            assert(models[i as int] == loopback@);
            assert(models[i as int].holders.len() == loopback.holders@.len());
            assert(line@ =~= all[i as int]);
            assert(all.take(i + 1) =~= all.take(i as int).push(line@));
            assert((seq!["  loopback devices:"@] + all.take(i as int)).push(line@) =~= seq![
                "  loopback devices:"@,
            ] + all.take(i + 1));
        }
        out.push(line);
        i += 1;
    }
    assert(all.take(i as int) =~= all);
    out
}

fn managed_lines(managed: &Vec<ManagedCameraSnapshot>) -> (r: Vec<String>)
    ensures
        texts(r@) == managed_models(managed@).map_values(
            |camera: ManagedModel| managed_line(camera),
        ),
{
    let ghost models = managed_models(managed@);
    let ghost all = models.map_values(|camera: ManagedModel| managed_line(camera));
    let mut out: Vec<String> = Vec::new();
    let mut i: usize = 0;
    assert(texts(out@) =~= all.take(0));
    while i < managed.len()
        invariant
            i <= managed@.len(),
            models == managed_models(managed@),
            all == models.map_values(|camera: ManagedModel| managed_line(camera)),
            texts(out@) == all.take(i as int),
        decreases managed@.len() - i,
    {
        let camera = &managed[i];
        let status = if camera.quarantined {
            "quarantined"
        } else {
            "active"
        };
        let head = concat6(
            "      ",
            &camera.serial,
            " → ",
            &camera.loopback_path,
            " [",
            status,
        );
        let line = concat4(
            &head,
            ", failures=",
            &decimal_of(camera.consecutive_failures as u64),
            "]",
        );
        assert(models[i as int] == camera@);
        assert(line@ =~= all[i as int]);
        out.push(line);
        assert(all.take(i + 1) =~= all.take(i as int).push(line@));
        i += 1;
    }
    assert(all.take(i as int) =~= all);
    out
}

fn state_lines(snapshot: &RuntimeSnapshot, now_ms: u64) -> (r: Vec<String>)
    ensures
        texts(r@) == state_section(*snapshot, now_ms),
{
    let mut out: Vec<String> = Vec::new();
    if let Some(state) = &snapshot.supervisor_state {
        add_line(&mut out, &concat2("  supervisor state: ", STATE_FILE));
        add_line(
            &mut out,
            &concat3(
                "    updated: ",
                &decimal_of(age_ms_since(now_ms, state.updated_at_ms)),
                " ms ago",
            ),
        );
        if state.managed.len() == 0 {
            add_line(&mut out, "    managed cameras: none");
        } else {
            add_line(&mut out, "    managed cameras:");
            add_lines(&mut out, managed_lines(&state.managed));
        }
        assert(texts(out@) =~= state_section(*snapshot, now_ms));
    }
    out
}

/// A snapshot in lines.
pub fn snapshot_lines(title: &str, snapshot: &RuntimeSnapshot, now_ms: u64) -> (r: Vec<String>)
    ensures
        texts(r@) == snapshot_text(title@, *snapshot, now_ms),
{
    let mut out: Vec<String> = Vec::new();
    add_line(&mut out, title);
    add_line(&mut out, &dashes_under(title));
    add_line(
        &mut out,
        &concat2(
            "  v4l2loopback: ",
            if snapshot.loopback_module_loaded {
                "loaded"
            } else {
                "missing"
            },
        ),
    );
    add_line(
        &mut out,
        &concat2(
            "  serve daemon: ",
            if snapshot.serve_running {
                "running"
            } else {
                "not running"
            },
        ),
    );
    add_line(
        &mut out,
        &concat2(
            "  visible capture devices: ",
            &decimal_of(snapshot.visible_capture_devices as u64),
        ),
    );
    add_line(
        &mut out,
        &concat2("  needs shim: ", &decimal_of(snapshot.needs_shim_devices as u64)),
    );
    add_line(
        &mut out,
        &concat2("  hidden cameras: ", &decimal_of(snapshot.hidden_cameras as u64)),
    );
    add_line(
        &mut out,
        &concat2("  ghost nodes: ", &decimal_of(snapshot.ghost_nodes as u64)),
    );
    add_lines(&mut out, loopback_lines(&snapshot.loopbacks));
    add_lines(&mut out, state_lines(snapshot, now_ms));
    add_line(&mut out, "");
    assert(texts(out@) =~= snapshot_text(title@, *snapshot, now_ms));
    out
}

/// What was done, in lines.
pub open spec fn actions_text(actions: DoctorActions) -> Seq<Seq<char>> {
    line_if(actions.stopped_daemons, "  stopped cam-shim serve/fix/relay processes"@) + line_if(
        actions.restored_hidden@.len() > 0,
        "  restored: "@ + joined(texts(actions.restored_hidden@), ", "@),
    ) + line_if(
        actions.ghosts_removed@.len() > 0,
        "  removed ghost nodes: "@ + joined(texts(actions.ghosts_removed@), ", "@),
    ) + line_if(
        actions.stale_hidden_removed@.len() > 0,
        "  removed stale hidden nodes: "@ + joined(texts(actions.stale_hidden_removed@), ", "@),
    ) + line_if(
        actions.loopbacks_removed@.len() > 0,
        "  removed orphan loopbacks: "@ + joined(texts(actions.loopbacks_removed@), ", "@),
    ) + marked(texts(actions.loopback_failures@), "  loopback cleanup failed: "@) + line_if(
        actions.module_loaded,
        "  ensured v4l2loopback is loaded"@,
    ) + line_if(actions.module_reloaded, "  reloaded v4l2loopback kernel module"@) + line_if(
        actions.none(),
        "  (none)"@,
    )
}

/// That nothing was done is said exactly when nothing was.
pub proof fn lemma_nothing_was_done(actions: DoctorActions)
    ensures
        actions.none() <==> !(actions.stopped_daemons || actions.restored_hidden@.len() > 0
            || actions.ghosts_removed@.len() > 0 || actions.stale_hidden_removed@.len() > 0
            || actions.loopbacks_removed@.len() > 0 || actions.loopback_failures@.len() > 0
            || actions.module_loaded || actions.module_reloaded),
        actions.none() ==> actions_text(actions) == seq!["  (none)"@],
        actions_text(actions).len() > 0,
{
    if actions.none() {
        assert(marked(texts(actions.loopback_failures@), "  loopback cleanup failed: "@).len()
            == 0);
        assert(actions_text(actions) =~= seq!["  (none)"@]);
    } else {
        assert(marked(texts(actions.loopback_failures@), "  loopback cleanup failed: "@).len()
            == actions.loopback_failures@.len());
    }
}

/// What was done, in lines.
pub fn action_lines(actions: &DoctorActions) -> (r: Vec<String>)
    ensures
        texts(r@) == actions_text(*actions),
{
    let mut out: Vec<String> = Vec::new();
    add_line_if(
        &mut out,
        actions.stopped_daemons,
        "  stopped cam-shim serve/fix/relay processes",
    );
    add_line_if(
        &mut out,
        actions.restored_hidden.len() > 0,
        &concat2("  restored: ", &join(&actions.restored_hidden, ", ")),
    );
    add_line_if(
        &mut out,
        actions.ghosts_removed.len() > 0,
        &concat2("  removed ghost nodes: ", &join(&actions.ghosts_removed, ", ")),
    );
    add_line_if(
        &mut out,
        actions.stale_hidden_removed.len() > 0,
        &concat2("  removed stale hidden nodes: ", &join(&actions.stale_hidden_removed, ", ")),
    );
    add_line_if(
        &mut out,
        actions.loopbacks_removed.len() > 0,
        &concat2("  removed orphan loopbacks: ", &join(&actions.loopbacks_removed, ", ")),
    );
    add_lines(
        &mut out,
        mark_lines(&actions.loopback_failures, "  loopback cleanup failed: "),
    );
    add_line_if(&mut out, actions.module_loaded, "  ensured v4l2loopback is loaded");
    add_line_if(&mut out, actions.module_reloaded, "  reloaded v4l2loopback kernel module");
    add_line_if(&mut out, actions.is_empty(), "  (none)");
    assert(texts(out@) =~= actions_text(*actions));
    out
}

/// What `v4l2-ctl` listed, in lines.
pub open spec fn listing_text(listing: Option<Seq<char>>) -> Seq<Seq<char>> {
    match listing {
        Some(output) => seq![
            "v4l2-ctl --list-devices"@,
            "-----------------------"@,
            match without_suffix(output, "\n"@) {
                Some(rest) => rest,
                None => output,
            },
            ""@,
        ],
        None => seq![
            "v4l2-ctl not available — install v4l-utils for a device summary."@,
            ""@,
        ],
    }
}

/// A list under a title, in lines; nothing where the list is empty.
pub open spec fn section_text(title: Seq<char>, rule: Seq<char>, list: Seq<Seq<char>>) -> Seq<
    Seq<char>,
> {
    lines_if(list.len() > 0, seq![title, rule] + marked(list, "  - "@) + seq![""@])
}

/// What was going on and what was done, in lines.
pub open spec fn changes_text(report: DoctorReport, now_ms: u64) -> Seq<Seq<char>> {
    if report.actions.none() {
        snapshot_text("System"@, report.after, now_ms)
    } else {
        snapshot_text("Before"@, report.before, now_ms) + seq![
            "Actions taken"@,
            "-------------"@,
        ] + actions_text(report.actions) + seq![""@] + snapshot_text("After"@, report.after, now_ms)
    }
}

/// A report in lines.
pub open spec fn report_text(report: DoctorReport, now_ms: u64) -> Seq<Seq<char>> {
    seq!["cam-shim doctor"@, "==============="@, ""@] + changes_text(report, now_ms)
        + section_text("Issues"@, "------"@, texts(report.issues@)) + listing_text(
        opt_text(report.v4l2_list_devices),
    ) + section_text("Recommendations"@, "---------------"@, texts(report.recommendations@)) + seq![
        if report.ok {
            "Status: OK"@
        } else {
            "Status: needs attention"@
        },
    ]
}

fn section_lines(title: &str, rule: &str, list: &Vec<String>) -> (r: Vec<String>)
    ensures
        texts(r@) == section_text(title@, rule@, texts(list@)),
{
    let mut out: Vec<String> = Vec::new();
    assert(texts(list@).len() == list@.len());
    if list.len() > 0 {
        add_line(&mut out, title);
        add_line(&mut out, rule);
        add_lines(&mut out, mark_lines(list, "  - "));
        add_line(&mut out, "");
    }
    assert(texts(out@) =~= section_text(title@, rule@, texts(list@)));
    out
}

fn listing_lines(listing: &Option<String>) -> (r: Vec<String>)
    ensures
        texts(r@) == listing_text(opt_text(*listing)),
{
    let mut out: Vec<String> = Vec::new();
    match listing {
        Some(output) => {
            add_line(&mut out, "v4l2-ctl --list-devices");
            add_line(&mut out, "-----------------------");
            match strip_suffix(output, "\n") {
                Some(rest) => {
                    add_line(&mut out, &rest);
                },
                None => {
                    add_line(&mut out, output);
                },
            }
            add_line(&mut out, "");
        },
        None => {
            add_line(
                &mut out,
                "v4l2-ctl not available — install v4l-utils for a device summary.",
            );
            add_line(&mut out, "");
        },
    }
    assert(texts(out@) =~= listing_text(opt_text(*listing)));
    out
}

fn change_lines(report: &DoctorReport, now_ms: u64) -> (r: Vec<String>)
    ensures
        texts(r@) == changes_text(*report, now_ms),
{
    if report.actions.is_empty() {
        return snapshot_lines("System", &report.after, now_ms);
    }
    let mut out = snapshot_lines("Before", &report.before, now_ms);
    add_line(&mut out, "Actions taken");
    add_line(&mut out, "-------------");
    add_lines(&mut out, action_lines(&report.actions));
    add_line(&mut out, "");
    add_lines(&mut out, snapshot_lines("After", &report.after, now_ms));
    assert(texts(out@) =~= changes_text(*report, now_ms));
    out
}

/// A report in lines.
pub fn doctor_report_lines(report: &DoctorReport, now_ms: u64) -> (r: Vec<String>)
    ensures
        texts(r@) == report_text(*report, now_ms),
{
    let mut out: Vec<String> = Vec::new();
    add_line(&mut out, "cam-shim doctor");
    add_line(&mut out, "===============");
    add_line(&mut out, "");
    assert(texts(out@) =~= seq!["cam-shim doctor"@, "==============="@, ""@]);
    add_lines(&mut out, change_lines(report, now_ms));
    add_lines(&mut out, section_lines("Issues", "------", &report.issues));
    add_lines(&mut out, listing_lines(&report.v4l2_list_devices));
    add_lines(
        &mut out,
        section_lines("Recommendations", "---------------", &report.recommendations),
    );
    add_line(
        &mut out,
        if report.ok {
            "Status: OK"
        } else {
            "Status: needs attention"
        },
    );
    out
}

} // verus!
