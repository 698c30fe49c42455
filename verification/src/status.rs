//! What is going on, for people.
use vstd::prelude::*;

use crate::camera_view::{device_blocks, device_lines, view_models, DeviceView};
use crate::probe::{report_models, DeviceReport, ReportModel};
use crate::runtime::{
    age_ms, age_ms_since, heartbeat_age_secs, heartbeat_is_stale, holder_views, holders_text, join_holders,
    loopback_models, managed_models, LoopbackModel, ManagedModel,
    ProcessHolder, RuntimeSnapshot, HEARTBEAT_STALE_SECS, STATE_FILE,
};
use crate::text::{
    add_line, add_line_if, add_lines, concat2, concat3, concat5, concat7, decimal, decimal_of, join, joined,
    line_if, lines_if, texts,
};

verus! {

broadcast use crate::text::group_texts;

/// A camera that the supervisor manages.
#[derive(Debug)]
pub struct ManagedStatus {
    pub serial: String,
    pub loopback_path: String,
    pub consecutive_failures: u32,
    pub quarantined: bool,
    pub heartbeat_age_secs: Option<u64>,
    pub heartbeat_stale: bool,
}

/// The contents of a managed camera's status.
#[verifier::ext_equal]
pub ghost struct ManagedStatusModel {
    pub serial: Seq<char>,
    pub loopback_path: Seq<char>,
    pub consecutive_failures: u32,
    pub quarantined: bool,
    pub heartbeat_age_secs: Option<nat>,
    pub heartbeat_stale: bool,
}

impl View for ManagedStatus {
    type V = ManagedStatusModel;

    open spec fn view(&self) -> ManagedStatusModel {
        ManagedStatusModel {
            serial: self.serial@,
            loopback_path: self.loopback_path@,
            consecutive_failures: self.consecutive_failures,
            quarantined: self.quarantined,
            heartbeat_age_secs: match self.heartbeat_age_secs {
                Some(secs) => Some(secs as nat),
                None => None,
            },
            heartbeat_stale: self.heartbeat_stale,
        }
    }
}

/// The contents of managed cameras' status.
pub open spec fn managed_views(list: Seq<ManagedStatus>) -> Seq<ManagedStatusModel> {
    list.map_values(|camera: ManagedStatus| camera@)
}

/// A loopback device, its readers and those that hold it.
#[derive(Debug)]
pub struct LoopbackStatus {
    pub path: String,
    pub name: String,
    pub cam_shim: bool,
    pub active_readers: Option<u32>,
    pub holders: Vec<ProcessHolder>,
}

/// The contents of a loopback device's status.
#[verifier::ext_equal]
pub ghost struct LoopbackStatusModel {
    pub path: Seq<char>,
    pub name: Seq<char>,
    pub cam_shim: bool,
    pub active_readers: Option<u32>,
    pub holders: Seq<(u32, Seq<char>)>,
}

impl View for LoopbackStatus {
    type V = LoopbackStatusModel;

    open spec fn view(&self) -> LoopbackStatusModel {
        LoopbackStatusModel {
            path: self.path@,
            name: self.name@,
            cam_shim: self.cam_shim,
            active_readers: self.active_readers,
            holders: holder_views(self.holders@),
        }
    }
}

/// The contents of loopback devices' status.
pub open spec fn loopback_views(list: Seq<LoopbackStatus>) -> Seq<LoopbackStatusModel> {
    list.map_values(|loopback: LoopbackStatus| loopback@)
}

/// A camera.
#[derive(Debug)]
pub struct CameraStatus {
    pub path: String,
    pub name: String,
    pub standardized_name: String,
    pub needs_shim: bool,
    pub compatible: bool,
}

/// The contents of a camera's status.
#[verifier::ext_equal]
pub ghost struct CameraStatusModel {
    pub path: Seq<char>,
    pub name: Seq<char>,
    pub standardized_name: Seq<char>,
    pub needs_shim: bool,
    pub compatible: bool,
}

impl View for CameraStatus {
    type V = CameraStatusModel;

    open spec fn view(&self) -> CameraStatusModel {
        CameraStatusModel {
            path: self.path@,
            name: self.name@,
            standardized_name: self.standardized_name@,
            needs_shim: self.needs_shim,
            compatible: self.compatible,
        }
    }
}

/// The contents of cameras' status.
pub open spec fn camera_views(list: Seq<CameraStatus>) -> Seq<CameraStatusModel> {
    list.map_values(|camera: CameraStatus| camera@)
}

/// What is going on.
#[derive(Debug)]
pub struct StatusReport {
    pub serve_running: bool,
    pub loopback_module_loaded: bool,
    pub state_file: &'static str,
    pub state_present: bool,
    pub state_age_ms: Option<u64>,
    pub ghost_nodes: usize,
    pub visible_capture_devices: usize,
    pub needs_shim_devices: usize,
    pub managed: Vec<ManagedStatus>,
    pub quarantined: Vec<String>,
    pub loopbacks: Vec<LoopbackStatus>,
    pub visible_cameras: Vec<CameraStatus>,
}

/// The age of a heartbeat in seconds; none where there was none yet.
pub open spec fn heartbeat_secs(camera: ManagedModel, now_ms: u64) -> Option<nat> {
    if camera.last_heartbeat_ms == 0 {
        None
    } else {
        Some(age_ms(now_ms, camera.last_heartbeat_ms) / 1000)
    }
}

/// The status of a managed camera. A heartbeat counts as stale only while the supervisor runs and
/// its state is recent.
pub open spec fn managed_status_of(camera: ManagedModel, live: bool, now_ms: u64) -> ManagedStatusModel {
    ManagedStatusModel {
        serial: camera.serial,
        loopback_path: camera.loopback_path,
        consecutive_failures: camera.consecutive_failures,
        quarantined: camera.quarantined,
        heartbeat_age_secs: heartbeat_secs(camera, now_ms),
        heartbeat_stale: live && (heartbeat_secs(camera, now_ms) matches Some(secs) && secs
            > HEARTBEAT_STALE_SECS),
    }
}

/// The managed cameras' status.
pub open spec fn managed_statuses(snapshot: RuntimeSnapshot, now_ms: u64) -> Seq<
    ManagedStatusModel,
> {
    match snapshot.supervisor_state {
        None => Seq::empty(),
        Some(state) => {
            let live = age_ms(now_ms, state.updated_at_ms) <= 30_000 && snapshot.serve_running;
            managed_models(state.managed@).map_values(
                |camera: ManagedModel| managed_status_of(camera, live, now_ms),
            )
        },
    }
}

/// The heartbeat of a managed camera is stale exactly when the supervisor runs, has written its state
/// within the last 30 seconds, and the last frame came 31 seconds ago or earlier. No camera is left
/// out.
pub proof fn lemma_stale_heartbeat(snapshot: RuntimeSnapshot, now_ms: u64, i: int)
    requires
        snapshot.supervisor_state matches Some(state) && 0 <= i < state.managed@.len(),
    ensures
        ({
            let state = snapshot.supervisor_state->0;
            let camera = state.managed@[i];
            let shown = managed_statuses(snapshot, now_ms);
            &&& shown.len() == state.managed@.len()
            &&& shown[i].serial == camera.serial@
            &&& shown[i].loopback_path == camera.loopback_path@
            &&& shown[i].consecutive_failures == camera.consecutive_failures
            &&& shown[i].quarantined == camera.quarantined
            &&& shown[i].heartbeat_age_secs is None <==> camera.last_heartbeat_ms == 0
            &&& shown[i].heartbeat_stale <==> {
                &&& snapshot.serve_running
                &&& now_ms <= state.updated_at_ms + 30_000
                &&& camera.last_heartbeat_ms != 0
                &&& now_ms >= camera.last_heartbeat_ms + 31_000
            }
        }),
{
    let state = snapshot.supervisor_state->0;
    assert(managed_models(state.managed@)[i] == state.managed@[i]@);
}

/// A managed camera is shown as active exactly when the supervisor runs, the camera is not in
/// quarantine and its heartbeat is not stale; as stopped whenever the supervisor does not run.
pub proof fn lemma_shown_state(camera: ManagedStatusModel, serve_running: bool)
    ensures
        managed_state(camera, serve_running) == "active"@ <==> serve_running && !camera.quarantined
            && !camera.heartbeat_stale,
        managed_state(camera, serve_running) == "stopped"@ <==> !serve_running,
        serve_running && camera.quarantined ==> managed_state(camera, serve_running)
            == "quarantined"@,
{
    reveal_strlit("active");
    reveal_strlit("stopped");
    reveal_strlit("quarantined");
    reveal_strlit("stale");
    assert("active"@.len() == 6 && "stopped"@.len() == 7 && "quarantined"@.len() == 11
        && "stale"@.len() == 5);
}

/// The loopback devices' status, with the number of readers of each.
pub open spec fn loopback_statuses(
    loopbacks: Seq<LoopbackModel>,
    readers: Seq<Option<u32>>,
) -> Seq<LoopbackStatusModel> {
    Seq::new(
        loopbacks.len(),
        |i: int|
            LoopbackStatusModel {
                path: loopbacks[i].path,
                name: loopbacks[i].name,
                cam_shim: loopbacks[i].cam_shim,
                active_readers: readers[i],
                holders: loopbacks[i].holders,
            },
    )
}

/// The status of a camera.
pub open spec fn camera_status_of(report: ReportModel) -> CameraStatusModel {
    CameraStatusModel {
        path: report.path,
        name: report.name,
        standardized_name: report.standardized_name,
        needs_shim: report.needs_shim,
        compatible: report.compatible,
    }
}

/// The cameras' status.
pub open spec fn camera_statuses(reports: Seq<ReportModel>) -> Seq<CameraStatusModel> {
    reports.map_values(|report: ReportModel| camera_status_of(report))
}

fn managed_status(snapshot: &RuntimeSnapshot, now_ms: u64) -> (r: Vec<ManagedStatus>)
    ensures
        managed_views(r@) == managed_statuses(*snapshot, now_ms),
{
    let mut out: Vec<ManagedStatus> = Vec::new();
    let ghost all = managed_statuses(*snapshot, now_ms);
    assert(managed_views(out@) =~= all.take(0));
    if let Some(state) = &snapshot.supervisor_state {
        let live = age_ms_since(now_ms, state.updated_at_ms) <= 30_000 && snapshot.serve_running;
        let ghost models = managed_models(state.managed@);
        let mut i: usize = 0;
        while i < state.managed.len()
            invariant
                i <= state.managed@.len(),
                models == managed_models(state.managed@),
                all == models.map_values(
                    |camera: ManagedModel| managed_status_of(camera, live, now_ms),
                ),
                managed_views(out@) == all.take(i as int),
            decreases state.managed@.len() - i,
        {
            let ghost before = out@;
            let camera = &state.managed[i];
            assert(models[i as int] == camera@);
            let age = heartbeat_age_secs(now_ms, camera.last_heartbeat_ms);
            let stale = match age {
                Some(secs) => heartbeat_is_stale(secs),
                None => false,
            };
            let entry = ManagedStatus {
                serial: camera.serial.clone(),
                loopback_path: camera.loopback_path.clone(),
                consecutive_failures: camera.consecutive_failures,
                quarantined: camera.quarantined,
                heartbeat_age_secs: age,
                heartbeat_stale: live && stale,
            };
            assert(entry@ =~= all[i as int]);
            out.push(entry);
            assert(managed_views(out@) =~= managed_views(before).push(entry@));
            assert(all.take(i + 1) =~= all.take(i as int).push(entry@));
            i += 1;
        }
        assert(all.take(i as int) =~= all);
    }
    assert(managed_views(out@) =~= all);
    out
}

fn loopback_status(snapshot: &RuntimeSnapshot, readers: &Vec<Option<u32>>) -> (r: Vec<
    LoopbackStatus,
>)
    requires
        readers@.len() == snapshot.loopbacks@.len(),
    ensures
        loopback_views(r@) == loopback_statuses(
            loopback_models(snapshot.loopbacks@),
            readers@,
        ),
{
    let mut out: Vec<LoopbackStatus> = Vec::new();
    let ghost models = loopback_models(snapshot.loopbacks@);
    let ghost all = loopback_statuses(models, readers@);
    let mut i: usize = 0;
    assert(loopback_views(out@) =~= all.take(0));
    while i < snapshot.loopbacks.len()
        invariant
            i <= snapshot.loopbacks@.len(),
            readers@.len() == snapshot.loopbacks@.len(),
            models == loopback_models(snapshot.loopbacks@),
            all == loopback_statuses(models, readers@),
            loopback_views(out@) == all.take(i as int),
        decreases snapshot.loopbacks@.len() - i,
    {
        let ghost before = out@;
        let loopback = &snapshot.loopbacks[i];
        assert(models[i as int] == loopback@);
        let holders = loopback.holders.clone();
        assert(holders@ =~= loopback.holders@);
        let entry = LoopbackStatus {
            path: loopback.path.clone(),
            name: loopback.name.clone(),
            cam_shim: loopback.cam_shim,
            active_readers: readers[i],
            holders,
        };
        assert(entry@ =~= all[i as int]);
        out.push(entry);
        assert(loopback_views(out@) =~= loopback_views(before).push(entry@));
        assert(all.take(i + 1) =~= all.take(i as int).push(entry@));
        i += 1;
    }
    assert(all.take(i as int) =~= all);
    out
}

fn camera_status(devices: &Vec<DeviceReport>) -> (r: Vec<CameraStatus>)
    ensures
        camera_views(r@) == camera_statuses(report_models(devices@)),
{
    let mut out: Vec<CameraStatus> = Vec::new();
    let ghost models = report_models(devices@);
    let ghost all = camera_statuses(models);
    let mut i: usize = 0;
    assert(camera_views(out@) =~= all.take(0));
    while i < devices.len()
        invariant
            i <= devices@.len(),
            models == report_models(devices@),
            all == camera_statuses(models),
            camera_views(out@) == all.take(i as int),
        decreases devices@.len() - i,
    {
        let ghost before = out@;
        let device = &devices[i];
        assert(models[i as int] == device@);
        let entry = CameraStatus {
            path: device.path.clone(),
            name: device.name.clone(),
            standardized_name: device.standardized_name.clone(),
            needs_shim: device.needs_shim,
            compatible: device.compatible,
        };
        assert(entry@ =~= all[i as int]);
        out.push(entry);
        assert(camera_views(out@) =~= camera_views(before).push(entry@));
        assert(all.take(i + 1) =~= all.take(i as int).push(entry@));
        i += 1;
    }
    assert(all.take(i as int) =~= all);
    out
}

/// Says what is going on, from a snapshot and the number of readers of each loopback device.
pub fn collect_status(snapshot: &RuntimeSnapshot, readers: &Vec<Option<u32>>, now_ms: u64) -> (r:
    StatusReport)
    requires
        readers@.len() == snapshot.loopbacks@.len(),
    ensures
        r.serve_running == snapshot.serve_running,
        r.loopback_module_loaded == snapshot.loopback_module_loaded,
        r.state_file@ == STATE_FILE@,
        r.state_present == snapshot.supervisor_state is Some,
        match r.state_age_ms {
            Some(age) => snapshot.supervisor_state matches Some(state) && age == age_ms(
                now_ms,
                state.updated_at_ms,
            ),
            None => snapshot.supervisor_state is None,
        },
        r.ghost_nodes == snapshot.ghost_nodes,
        r.visible_capture_devices == snapshot.visible_capture_devices,
        r.needs_shim_devices == snapshot.needs_shim_devices,
        managed_views(r.managed@) == managed_statuses(*snapshot, now_ms),
        texts(r.quarantined@) == match snapshot.supervisor_state {
            Some(state) => texts(state.quarantined@),
            None => Seq::empty(),
        },
        loopback_views(r.loopbacks@) == loopback_statuses(
            loopback_models(snapshot.loopbacks@),
            readers@,
        ),
        camera_views(r.visible_cameras@) == camera_statuses(report_models(snapshot.devices@)),
{
    let state_age_ms = match &snapshot.supervisor_state {
        Some(state) => Some(age_ms_since(now_ms, state.updated_at_ms)),
        None => None,
    };
    let quarantined: Vec<String> = match &snapshot.supervisor_state {
        Some(state) => state.quarantined.clone(),
        None => Vec::new(),
    };
    let state_present = match &snapshot.supervisor_state {
        Some(_) => true,
        None => false,
    };
    StatusReport {
        serve_running: snapshot.serve_running,
        loopback_module_loaded: snapshot.loopback_module_loaded,
        state_file: STATE_FILE,
        state_present,
        state_age_ms,
        ghost_nodes: snapshot.ghost_nodes,
        visible_capture_devices: snapshot.visible_capture_devices,
        needs_shim_devices: snapshot.needs_shim_devices,
        managed: managed_status(snapshot, now_ms),
        quarantined,
        loopbacks: loopback_status(snapshot, readers),
        visible_cameras: camera_status(&snapshot.devices),
    }
}

/// What a camera is.
pub open spec fn flags_text(camera: CameraStatusModel) -> Seq<char> {
    if camera.needs_shim {
        "needs shim"@
    } else if camera.compatible {
        "compatible"@
    } else {
        "unknown"@
    }
}

/// What a camera is.
pub fn camera_flags(camera: &CameraStatus) -> (r: String)
    ensures
        r@ == flags_text(camera@),
{
    if camera.needs_shim {
        "needs shim".to_string()
    } else if camera.compatible {
        "compatible".to_string()
    } else {
        "unknown".to_string()
    }
}

/// The state file in one line.
pub open spec fn state_line(report: StatusReport) -> Seq<char> {
    let age = match report.state_age_ms {
        Some(ms) => decimal((ms / 1000) as nat) + "s ago"@,
        None => "unknown age"@,
    };
    if !report.state_present {
        "State:    "@ + STATE_FILE@
            + " (missing — serve not running or started with --no-state-file)"@
    } else if report.serve_running {
        "State:    "@ + STATE_FILE@ + " (updated "@ + age + ")"@
    } else {
        "State:    "@ + STATE_FILE@ + " (stale, updated "@ + age + "; serve is not running)"@
    }
}

fn state_file_line(report: &StatusReport) -> (r: String)
    ensures
        r@ == state_line(*report),
{
    if !report.state_present {
        return concat3(
            "State:    ",
            STATE_FILE,
            " (missing — serve not running or started with --no-state-file)",
        );
    }
    let age = match report.state_age_ms {
        Some(ms) => concat2(&decimal_of(ms / 1000), "s ago"),
        None => "unknown age".to_string(),
    };
    if report.serve_running {
        concat5("State:    ", STATE_FILE, " (updated ", &age, ")")
    } else {
        concat5("State:    ", STATE_FILE, " (stale, updated ", &age, "; serve is not running)")
    }
}

/// How the shim of a managed camera does.
pub open spec fn managed_state(camera: ManagedStatusModel, serve_running: bool) -> Seq<char> {
    if !serve_running {
        "stopped"@
    } else if camera.quarantined {
        "quarantined"@
    } else if camera.heartbeat_stale {
        "stale"@
    } else {
        "active"@
    }
}

/// When the last frame came.
pub open spec fn heartbeat_text(age: Option<nat>) -> Seq<char> {
    match age {
        Some(secs) => if secs == 0 {
            "just now"@
        } else {
            decimal(secs) + "s ago"@
        },
        None => "none"@,
    }
}

/// A managed camera in lines, given whether its loopback device is there.
pub open spec fn managed_block(
    camera: ManagedStatusModel,
    exists_now: bool,
    serve_running: bool,
) -> Seq<Seq<char>> {
    seq![
        "  "@ + camera.serial,
        "    loopback:  "@ + camera.loopback_path + if exists_now {
            ""@
        } else {
            " (missing)"@
        },
        "    heartbeat: "@ + heartbeat_text(camera.heartbeat_age_secs),
        "    failures:  "@ + decimal(camera.consecutive_failures as nat),
        "    status:    "@ + managed_state(camera, serve_running),
    ]
}

/// The first `n` managed cameras in lines.
pub open spec fn managed_blocks(
    cameras: Seq<ManagedStatusModel>,
    present: Seq<bool>,
    serve_running: bool,
    n: int,
) -> Seq<Seq<char>>
    decreases n,
{
    if n <= 0 {
        Seq::empty()
    } else {
        managed_blocks(cameras, present, serve_running, n - 1) + managed_block(
            cameras[n - 1],
            present[n - 1],
            serve_running,
        )
    }
}

/// The managed cameras in lines.
pub open spec fn managed_section(report: StatusReport, present: Seq<bool>) -> Seq<Seq<char>> {
    if report.managed@.len() == 0 {
        seq![
            if report.serve_running {
                "Managed:  none (waiting for a compatible camera)"@
            } else {
                "Managed:  none"@
            },
            ""@,
        ]
    } else {
        seq!["Managed cameras ("@ + decimal(report.managed@.len()) + ")"@] + line_if(
            !report.serve_running,
            "  (last session — serve is stopped)"@,
        ) + managed_blocks(
            managed_views(report.managed@),
            present,
            report.serve_running,
            report.managed@.len() as int,
        ) + seq![""@]
    }
}

fn managed_block_lines(camera: &ManagedStatus, exists_now: bool, serve_running: bool) -> (r: Vec<
    String,
>)
    ensures
        texts(r@) == managed_block(camera@, exists_now, serve_running),
{
    let status = if !serve_running {
        "stopped"
    } else if camera.quarantined {
        "quarantined"
    } else if camera.heartbeat_stale {
        "stale"
    } else {
        "active"
    };
    let heartbeat = match camera.heartbeat_age_secs {
        Some(secs) => if secs == 0 {
            "just now".to_string()
        } else {
            concat2(&decimal_of(secs), "s ago")
        },
        None => "none".to_string(),
    };
    let mut out: Vec<String> = Vec::new();
    add_line(&mut out, &concat2("  ", &camera.serial));
    add_line(
        &mut out,
        &concat3(
            "    loopback:  ",
            &camera.loopback_path,
            if exists_now {
                ""
            } else {
                " (missing)"
            },
        ),
    );
    add_line(&mut out, &concat2("    heartbeat: ", &heartbeat));
    add_line(
        &mut out,
        &concat2("    failures:  ", &decimal_of(camera.consecutive_failures as u64)),
    );
    add_line(&mut out, &concat2("    status:    ", status));
    assert(texts(out@) =~= managed_block(camera@, exists_now, serve_running));
    out
}

fn managed_lines(report: &StatusReport, present: &Vec<bool>) -> (r: Vec<String>)
    requires
        present@.len() == report.managed@.len(),
    ensures
        texts(r@) == managed_section(*report, present@),
{
    let mut out: Vec<String> = Vec::new();
    if report.managed.len() == 0 {
        add_line(
            &mut out,
            if report.serve_running {
                "Managed:  none (waiting for a compatible camera)"
            } else {
                "Managed:  none"
            },
        );
        add_line(&mut out, "");
        assert(texts(out@) =~= managed_section(*report, present@));
        return out;
    }
    add_line(
        &mut out,
        &concat3("Managed cameras (", &decimal_of(report.managed.len() as u64), ")"),
    );
    add_line_if(&mut out, !report.serve_running, "  (last session — serve is stopped)");
    let ghost head = texts(out@);
    let ghost views = managed_views(report.managed@);
    let mut i: usize = 0;
    assert(head + managed_blocks(views, present@, report.serve_running, 0) =~= head);
    while i < report.managed.len()
        invariant
            i <= report.managed@.len(),
            present@.len() == report.managed@.len(),
            views == managed_views(report.managed@),
            texts(out@) == head + managed_blocks(
                views,
                present@,
                report.serve_running,
                i as int,
            ),
        decreases report.managed@.len() - i,
    {
        assert(views[i as int] == report.managed@[i as int]@);
        add_lines(
            &mut out,
            managed_block_lines(&report.managed[i], present[i], report.serve_running),
        );
        assert(texts(out@) =~= head + managed_blocks(views, present@, report.serve_running, i + 1));
        i += 1;
    }
    add_line(&mut out, "");
    assert(texts(out@) =~= managed_section(*report, present@));
    out
}

/// A loopback device in one line.
pub open spec fn loopback_line(loopback: LoopbackStatusModel) -> Seq<char> {
    let tag = if loopback.cam_shim {
        "cam-shim"@
    } else {
        "other"@
    };
    let readers = match loopback.active_readers {
        Some(count) => ", readers: "@ + decimal(count as nat),
        None => ""@,
    };
    "  "@ + loopback.path + " — "@ + loopback.name + " ["@ + tag + readers
        + if loopback.holders.len() == 0 {
        "]"@
    } else {
        ", held by "@ + holders_text(loopback.holders) + "]"@
    }
}

/// The loopback devices in lines.
pub open spec fn loopback_section(loopbacks: Seq<LoopbackStatusModel>) -> Seq<Seq<char>> {
    if loopbacks.len() == 0 {
        seq!["Loopback: none"@, ""@]
    } else {
        seq!["Loopback devices"@] + loopbacks.map_values(
            |loopback: LoopbackStatusModel| loopback_line(loopback),
        ) + seq![""@]
    }
}

fn loopback_text_line(loopback: &LoopbackStatus) -> (r: String)
    ensures
        r@ == loopback_line(loopback@),
{
    let tag = if loopback.cam_shim {
        "cam-shim"
    } else {
        "other"
    };
    let readers = match loopback.active_readers {
        Some(count) => concat2(", readers: ", &decimal_of(count as u64)),
        None => "".to_string(),
    };
    let head = concat7("  ", &loopback.path, " — ", &loopback.name, " [", tag, &readers);
    assert(loopback@.holders.len() == loopback.holders@.len());
    if loopback.holders.len() == 0 {
        concat2(&head, "]")
    } else {
        concat2(&head, &concat3(", held by ", &join_holders(&loopback.holders), "]"))
    }
}

fn loopback_lines(loopbacks: &Vec<LoopbackStatus>) -> (r: Vec<String>)
    ensures
        texts(r@) == loopback_section(loopback_views(loopbacks@)),
{
    let mut out: Vec<String> = Vec::new();
    let ghost views = loopback_views(loopbacks@);
    if loopbacks.len() == 0 {
        add_line(&mut out, "Loopback: none");
        add_line(&mut out, "");
        assert(texts(out@) =~= loopback_section(views));
        return out;
    }
    add_line(&mut out, "Loopback devices");
    let ghost all = views.map_values(|loopback: LoopbackStatusModel| loopback_line(loopback));
    let mut i: usize = 0;
    assert(texts(out@) =~= seq!["Loopback devices"@] + all.take(0));
    while i < loopbacks.len()
        invariant
            i <= loopbacks@.len(),
            views == loopback_views(loopbacks@),
            all == views.map_values(|loopback: LoopbackStatusModel| loopback_line(loopback)),
            texts(out@) == seq!["Loopback devices"@] + all.take(i as int),
        decreases loopbacks@.len() - i,
    {
        assert(views[i as int] == loopbacks@[i as int]@);
        add_line(&mut out, &loopback_text_line(&loopbacks[i]));
        assert(texts(out@) =~= seq!["Loopback devices"@] + all.take(i + 1));
        i += 1;
    }
    assert(all.take(i as int) =~= all);
    add_line(&mut out, "");
    out
}

/// A camera in lines.
pub open spec fn camera_block(camera: CameraStatusModel) -> Seq<Seq<char>> {
    seq!["  "@ + camera.path + " — "@ + camera.name + " ["@ + flags_text(camera) + "]"@] + line_if(
        camera.needs_shim,
        "    standardized: "@ + camera.standardized_name,
    )
}

/// The first `n` cameras in lines.
pub open spec fn camera_blocks(cameras: Seq<CameraStatusModel>, n: int) -> Seq<Seq<char>>
    decreases n,
{
    if n <= 0 {
        Seq::empty()
    } else {
        camera_blocks(cameras, n - 1) + camera_block(cameras[n - 1])
    }
}

/// The cameras in lines; nothing where there is none.
pub open spec fn camera_section(cameras: Seq<CameraStatusModel>) -> Seq<Seq<char>> {
    lines_if(
        cameras.len() > 0,
        seq!["Visible capture devices"@] + camera_blocks(cameras, cameras.len() as int) + seq![""@],
    )
}

fn camera_lines(cameras: &Vec<CameraStatus>) -> (r: Vec<String>)
    ensures
        texts(r@) == camera_section(camera_views(cameras@)),
{
    let mut out: Vec<String> = Vec::new();
    let ghost views = camera_views(cameras@);
    if cameras.len() == 0 {
        assert(texts(out@) =~= camera_section(views));
        return out;
    }
    add_line(&mut out, "Visible capture devices");
    let mut i: usize = 0;
    assert(texts(out@) =~= seq!["Visible capture devices"@] + camera_blocks(views, 0));
    while i < cameras.len()
        invariant
            i <= cameras@.len(),
            views == camera_views(cameras@),
            texts(out@) == seq!["Visible capture devices"@] + camera_blocks(views, i as int),
        decreases cameras@.len() - i,
    {
        let camera = &cameras[i];
        assert(views[i as int] == camera@);
        add_line(
            &mut out,
            &concat7(
                "  ",
                &camera.path,
                " — ",
                &camera.name,
                " [",
                &camera_flags(camera),
                "]",
            ),
        );
        add_line_if(
            &mut out,
            camera.needs_shim,
            &concat2("    standardized: ", &camera.standardized_name),
        );
        assert(texts(out@) =~= seq!["Visible capture devices"@] + camera_blocks(views, i + 1));
        i += 1;
    }
    add_line(&mut out, "");
    out
}

/// What leads the status, in lines.
pub open spec fn status_head(report: StatusReport) -> Seq<Seq<char>> {
    seq![
        "cam-shim status"@,
        "==============="@,
        ""@,
        "Serve:    "@ + if report.serve_running {
            "running"@
        } else {
            "not running"@
        },
        "Module:   v4l2loopback "@ + if report.loopback_module_loaded {
            "loaded"@
        } else {
            "missing"@
        },
        state_line(report),
        "Cameras:  "@ + decimal(report.visible_capture_devices as nat) + " visible, "@ + decimal(
            report.needs_shim_devices as nat,
        ) + " need shim, "@ + decimal(report.ghost_nodes as nat) + " ghost node(s)"@,
        ""@,
    ]
}

/// The status in lines: the supervisor, what it manages, the loopback devices, the cameras, the
/// serial numbers in quarantine, and all devices with their partners. `present` tells of each managed
/// camera whether its loopback device is there.
pub open spec fn status_text(
    report: StatusReport,
    present: Seq<bool>,
    devices: Seq<DeviceView>,
) -> Seq<Seq<char>> {
    status_head(report) + managed_section(report, present) + loopback_section(
        loopback_views(report.loopbacks@),
    ) + camera_section(camera_views(report.visible_cameras@)) + lines_if(
        report.quarantined@.len() > 0,
        seq!["Quarantined serials: "@ + joined(texts(report.quarantined@), ", "@), ""@],
    ) + device_blocks(view_models(devices), devices.len() as int)
}

fn status_head_lines(report: &StatusReport) -> (r: Vec<String>)
    ensures
        texts(r@) == status_head(*report),
{
    let mut out: Vec<String> = Vec::new();
    add_line(&mut out, "cam-shim status");
    add_line(&mut out, "===============");
    add_line(&mut out, "");
    add_line(
        &mut out,
        &concat2(
            "Serve:    ",
            if report.serve_running {
                "running"
            } else {
                "not running"
            },
        ),
    );
    add_line(
        &mut out,
        &concat2(
            "Module:   v4l2loopback ",
            if report.loopback_module_loaded {
                "loaded"
            } else {
                "missing"
            },
        ),
    );
    add_line(&mut out, &state_file_line(report));
    add_line(
        &mut out,
        &concat7(
            "Cameras:  ",
            &decimal_of(report.visible_capture_devices as u64),
            " visible, ",
            &decimal_of(report.needs_shim_devices as u64),
            " need shim, ",
            &decimal_of(report.ghost_nodes as u64),
            " ghost node(s)",
        ),
    );
    add_line(&mut out, "");
    assert(texts(out@) =~= status_head(*report));
    out
}

/// The status in lines.
pub fn status_lines(report: &StatusReport, present: &Vec<bool>, devices: &Vec<DeviceView>) -> (r: Vec<
    String,
>)
    requires
        present@.len() == report.managed@.len(),
    ensures
        texts(r@) == status_text(*report, present@, devices@),
{
    let mut out = status_head_lines(report);
    add_lines(&mut out, managed_lines(report, present));
    add_lines(&mut out, loopback_lines(&report.loopbacks));
    add_lines(&mut out, camera_lines(&report.visible_cameras));
    let mut quarantined: Vec<String> = Vec::new();
    if report.quarantined.len() > 0 {
        add_line(
            &mut quarantined,
            &concat2("Quarantined serials: ", &join(&report.quarantined, ", ")),
        );
        add_line(&mut quarantined, "");
    }
    assert(texts(quarantined@) =~= lines_if(
        report.quarantined@.len() > 0,
        seq!["Quarantined serials: "@ + joined(texts(report.quarantined@), ", "@), ""@],
    ));
    add_lines(&mut out, quarantined);
    add_lines(&mut out, device_lines(devices));
    out
}

} // verus!
