use cam_shim::camera_view::{DeviceRole, DeviceView};
use cam_shim::clean::{CleanFailure, CleanReport, ProcessCmdline};
use cam_shim::doctor::{
    action_lines, build_recommendations, diagnose, doctor_report_lines, loopback_held_by_others,
    run_doctor, snapshot_lines, DoctorActions, DoctorConfig, DoctorPhase, DoctorRun,
};
use cam_shim::error::CamShimError;
use cam_shim::hiding::RestoreReport;
use cam_shim::holders::{build_video_device_holder_map, ProcessFds};
use cam_shim::loopback::LoopbackDeviceInfo;
use cam_shim::probe::DeviceReport;
use cam_shim::runtime::{
    age_ms_since, cam_shim_serve_running, collect_runtime_snapshot, heartbeat_age_secs,
    heartbeat_is_stale, join_holders, process_name, time_stamp_of, unix_now_ms, LoopbackSnapshot, ManagedCameraSnapshot,
    ProcessHolder, RuntimeInputs, RuntimeSnapshot, SupervisorStateSnapshot, STATE_FILE,
};
use cam_shim::status::{camera_flags, collect_status, status_lines, CameraStatus};

fn camera(path: &str, name: &str, needs_shim: bool) -> DeviceReport {
    DeviceReport {
        path: path.into(),
        name: name.into(),
        driver: String::new(),
        bus: String::new(),
        standardized_name: format!("{name} - Linux Standardized"),
        compatible: !needs_shim,
        needs_shim,
        advertised_fps: Vec::new(),
        issues: Vec::new(),
    }
}

fn managed(serial: &str, heartbeat: u64) -> ManagedCameraSnapshot {
    ManagedCameraSnapshot {
        serial: serial.into(),
        loopback_path: "/dev/video10".into(),
        consecutive_failures: 1,
        quarantined: false,
        last_heartbeat_ms: heartbeat,
    }
}

fn healthy() -> RuntimeSnapshot {
    RuntimeSnapshot {
        loopback_module_loaded: true,
        serve_running: true,
        hidden_cameras: 0,
        ghost_nodes: 0,
        visible_capture_devices: 1,
        needs_shim_devices: 1,
        loopbacks: Vec::new(),
        supervisor_state: None,
        devices: vec![camera("/dev/video0", "Cam", true)],
    }
}

fn held_loopback(pid: u32) -> LoopbackSnapshot {
    LoopbackSnapshot {
        path: "/dev/video10".into(),
        name: "Cam - Linux Std".into(),
        cam_shim: true,
        holders: vec![ProcessHolder { pid, name: "Discord".into() }],
    }
}

fn config(check_only: bool, reload_module: bool, force: bool) -> DoctorConfig {
    DoctorConfig { check_only, reload_module, force, json: false }
}

#[test]
fn stale_heartbeat_threshold() {
    assert!(!heartbeat_is_stale(10));
    assert!(heartbeat_is_stale(45));
}

#[test]
fn empty_actions_detected() {
    assert!(DoctorActions::default().is_empty());
}

#[test]
fn camera_flag_labels() {
    let camera = CameraStatus {
        path: "/dev/video0".into(),
        name: "Test".into(),
        standardized_name: "Test - Linux Standardized".into(),
        needs_shim: true,
        compatible: false,
    };
    assert_eq!(camera_flags(&camera), "needs shim");
}

#[test]
fn flags_of_other_cameras() {
    let flags = |needs_shim: bool, compatible: bool| {
        camera_flags(&CameraStatus {
            path: String::new(),
            name: String::new(),
            standardized_name: String::new(),
            needs_shim,
            compatible,
        })
    };
    assert_eq!(flags(false, true), "compatible");
    assert_eq!(flags(false, false), "unknown");
    assert_eq!(flags(true, true), "needs shim");
}

#[test]
fn ages_are_counted_from_now() {
    assert_eq!(age_ms_since(5_000, 2_000), 3_000);
    assert_eq!(age_ms_since(1_000, 2_000), 0);
    assert_eq!(heartbeat_age_secs(5_999, 2_000), Some(3));
    assert_eq!(heartbeat_age_secs(5_999, 0), None);
    assert!(!heartbeat_is_stale(30));
    assert!(heartbeat_is_stale(31));
}

#[test]
fn processes_have_a_name_in_any_case() {
    assert_eq!(process_name(7, Some(" Discord \n".into())), "Discord");
    assert_eq!(process_name(7, None), "pid-7");
    let holders = vec![
        ProcessHolder { pid: 1, name: "a".into() },
        ProcessHolder { pid: 2, name: "b".into() },
    ];
    assert_eq!(join_holders(&holders), "a (1), b (2)");
}

#[test]
fn supervisor_is_seen_by_its_command_line() {
    let running = |cmdline: &[u8], pid: u32| {
        cam_shim_serve_running(&vec![ProcessCmdline { pid, cmdline: Some(cmdline.to_vec()) }], 9)
    };
    assert!(running(b"/usr/bin/cam-shim\0serve\0", 1));
    assert!(!running(b"/usr/bin/cam-shim\0serve\0", 9));
    assert!(!running(b"/usr/bin/cam-shim\0fix\0", 1));
    assert!(!running(b"grep\0serve\0", 1));
    assert!(!running(b"", 1));
}

#[test]
fn snapshot_counts_and_names_holders() {
    let holder_map = build_video_device_holder_map(&vec![ProcessFds {
        pid: 5,
        label: "obs".into(),
        links: vec!["/dev/video10".into()],
    }]);
    let snapshot = collect_runtime_snapshot(RuntimeInputs {
        holder_map,
        devices: vec![camera("/dev/video0", "A", true), camera("/dev/video2", "B", false)],
        loopbacks: vec![
            LoopbackDeviceInfo {
                path: "/dev/video10".into(),
                index: 10,
                name: "A - Linux Std".into(),
            },
            LoopbackDeviceInfo { path: "/dev/video11".into(), index: 11, name: "OBS".into() },
        ],
        loopback_module_loaded: true,
        serve_running: false,
        hidden_cameras: None,
        ghost_nodes: Some(3),
        supervisor_state: None,
    });
    assert_eq!(snapshot.visible_capture_devices, 2);
    assert_eq!(snapshot.needs_shim_devices, 1);
    assert_eq!((snapshot.hidden_cameras, snapshot.ghost_nodes), (0, 3));
    assert!(snapshot.loopbacks[0].cam_shim);
    assert_eq!(snapshot.loopbacks[0].holders[0].pid, 5);
    assert_eq!(snapshot.loopbacks[0].holders[0].name, "obs");
    assert!(!snapshot.loopbacks[1].cam_shim);
    assert!(snapshot.loopbacks[1].holders.is_empty());
}

#[test]
fn healthy_system_has_no_issues() {
    let snapshot = healthy();
    assert!(diagnose(&snapshot, 0).is_empty());
    assert!(build_recommendations(&snapshot, &Vec::new()).is_empty());
    assert!(!loopback_held_by_others(&snapshot, 1));
}

#[test]
fn troubles_are_named() {
    let mut snapshot = healthy();
    snapshot.loopback_module_loaded = false;
    snapshot.hidden_cameras = 1;
    snapshot.ghost_nodes = 2;
    snapshot.serve_running = false;
    snapshot.visible_capture_devices = 0;
    snapshot.loopbacks = vec![held_loopback(7)];
    let issues = diagnose(&snapshot, 0);
    assert_eq!(
        issues,
        vec![
            "v4l2loopback kernel module is not loaded",
            "1 camera node(s) still hidden under /dev/cam-shim-hidden/",
            "2 stale /dev/video* ghost node(s) remain",
            "/dev/video10 is held open by Discord (7)",
        ]
    );
    assert_eq!(
        build_recommendations(&snapshot, &issues),
        vec![
            "Close apps using the virtual camera (Discord, guvcview), or run with --force",
            "Run: sudo cam-shim restore",
            "Run: sudo cam-shim restore (repairs ghost nodes)",
            "Run: sudo cam-shim serve (or sudo systemctl start cam-shim)",
            "Run: sudo modprobe v4l2loopback exclusive_caps=1",
            "Unplug the webcam, wait 5 seconds, replug, then run doctor again",
        ]
    );
    assert!(loopback_held_by_others(&snapshot, 8));
    assert!(!loopback_held_by_others(&snapshot, 7));
}

#[test]
fn missing_cameras_are_named() {
    let mut snapshot = healthy();
    snapshot.visible_capture_devices = 0;
    assert_eq!(diagnose(&snapshot, 0), vec!["no visible V4L2 capture devices found"]);
}

#[test]
fn silent_shims_are_named_while_the_state_is_fresh() {
    let mut snapshot = healthy();
    snapshot.supervisor_state = Some(SupervisorStateSnapshot {
        updated_at_ms: 100_000,
        managed: vec![managed("a", 100_000), managed("b", 69_000), managed("c", 0)],
        quarantined: vec!["q".into(), "r".into()],
    });
    assert_eq!(
        diagnose(&snapshot, 100_000),
        vec![
            "quarantined camera serial(s): q, r",
            "shim for b (/dev/video10) has stale heartbeat (31s ago)",
        ]
    );
    assert_eq!(diagnose(&snapshot, 130_001), vec!["quarantined camera serial(s): q, r"]);
}

#[test]
fn checking_only_changes_nothing() {
    let mut before = healthy();
    before.loopbacks = vec![held_loopback(7)];
    let run = DoctorRun::start(config(true, true, true), &before, 1);
    assert_eq!(run.phase, DoctorPhase::Collect);
    assert!(run.actions.is_empty());
    let report = run_doctor(run, healthy(), healthy(), 0, None);
    assert!(report.ok);
    assert!(report.actions.is_empty());
    let lines = doctor_report_lines(&report, 0);
    assert_eq!(lines[0], "cam-shim doctor");
    assert_eq!(lines[3], "System");
    assert_eq!(lines[4], "------");
    assert_eq!(lines.last().map(String::as_str), Some("Status: OK"));
    assert!(lines
        .contains(&"v4l2-ctl not available — install v4l-utils for a device summary.".to_string()));
}

#[test]
fn doctor_goes_through_its_steps() {
    let mut run = DoctorRun::start(config(false, true, true), &healthy(), 1);
    assert_eq!(run.phase, DoctorPhase::StopDaemons);
    run.stopped();
    assert_eq!(run.phase, DoctorPhase::Repair);
    run.repaired(RestoreReport {
        restored: vec!["/dev/video0".into()],
        ghosts_removed: vec!["/dev/video9".into()],
        stale_hidden_removed: Vec::new(),
    });
    assert_eq!(run.phase, DoctorPhase::Clean);
    run.cleaned(CleanReport {
        removed: vec!["/dev/video10 (Cam)".into()],
        failed: vec![CleanFailure {
            path: "/dev/video11".into(),
            reason: "busy".into(),
            holders: Vec::new(),
        }],
        skipped: Vec::new(),
        force_releases: Vec::new(),
    });
    assert_eq!(run.phase, DoctorPhase::LoadModule);
    run.module_loaded(Err(CamShimError::other("no module".into())));
    assert_eq!(run.phase, DoctorPhase::StopForReload);
    run.stopped();
    assert_eq!(run.phase, DoctorPhase::Unload);
    run.unloaded(Ok(()));
    assert_eq!(run.phase, DoctorPhase::Reload);
    run.reloaded(Err(CamShimError::other("again".into())));
    assert_eq!(run.phase, DoctorPhase::Collect);
    assert_eq!(
        action_lines(&run.actions),
        vec![
            "  stopped cam-shim serve/fix/relay processes",
            "  restored: /dev/video0",
            "  removed ghost nodes: /dev/video9",
            "  removed orphan loopbacks: /dev/video10 (Cam)",
            "  loopback cleanup failed: /dev/video11: busy",
        ]
    );
    let report = run_doctor(run, healthy(), healthy(), 0, Some("cam\n".into()));
    assert!(!report.ok);
    assert_eq!(
        report.issues,
        vec![
            "failed to load v4l2loopback: io error: no module",
            "module reload load failed: io error: again",
        ]
    );
    assert_eq!(
        report.recommendations,
        vec!["Stop serve first: sudo systemctl stop cam-shim, then sudo cam-shim doctor --reload"]
    );
    let lines = doctor_report_lines(&report, 0);
    assert_eq!(lines[3], "Before");
    assert!(lines.contains(&"Actions taken".to_string()));
    assert!(lines.contains(&"After".to_string()));
    assert!(lines.contains(&"  - module reload load failed: io error: again".to_string()));
    assert!(lines.contains(&"v4l2-ctl --list-devices".to_string()));
    assert_eq!(lines.last().map(String::as_str), Some("Status: needs attention"));
}

#[test]
fn doctor_without_force_stops_nothing() {
    let mut run = DoctorRun::start(config(false, true, false), &healthy(), 1);
    assert_eq!(run.phase, DoctorPhase::Repair);
    run.repaired(RestoreReport::default());
    run.cleaned(CleanReport::default());
    run.module_loaded(Ok(()));
    assert_eq!(run.phase, DoctorPhase::Unload);
    run.unloaded(Err(CamShimError::other("in use".into())));
    assert_eq!(run.phase, DoctorPhase::Collect);
    assert_eq!(run.action_issues, vec!["module reload unload failed: io error: in use"]);
    assert!(!run.actions.stopped_daemons);
    assert!(run.actions.module_loaded && !run.actions.module_reloaded);
    assert_eq!(action_lines(&DoctorActions::default()), vec!["  (none)"]);
}

#[test]
fn snapshot_is_written_in_lines() {
    let mut snapshot = healthy();
    snapshot.loopbacks = vec![held_loopback(7)];
    snapshot.supervisor_state = Some(SupervisorStateSnapshot {
        updated_at_ms: 1_000,
        managed: vec![managed("a", 1)],
        quarantined: Vec::new(),
    });
    assert_eq!(
        snapshot_lines("After", &snapshot, 3_500),
        vec![
            "After",
            "-----",
            "  v4l2loopback: loaded",
            "  serve daemon: running",
            "  visible capture devices: 1",
            "  needs shim: 1",
            "  hidden cameras: 0",
            "  ghost nodes: 0",
            "  loopback devices:",
            "    /dev/video10 — Cam - Linux Std [cam-shim, held by Discord (7)]",
            "  supervisor state: /run/cam-shim/state.json",
            "    updated: 2500 ms ago",
            "    managed cameras:",
            "      a → /dev/video10 [active, failures=1]",
            "",
        ]
    );
}

#[test]
fn status_sums_up_the_system() {
    let mut snapshot = healthy();
    snapshot.loopbacks = vec![held_loopback(7)];
    snapshot.supervisor_state = Some(SupervisorStateSnapshot {
        updated_at_ms: 98_000,
        managed: vec![managed("a", 60_000), managed("b", 0)],
        quarantined: vec!["q".into()],
    });
    let report = collect_status(&snapshot, &vec![Some(2)], 100_000);
    assert!(report.serve_running && report.state_present);
    assert_eq!(report.state_file, STATE_FILE);
    assert_eq!(report.state_age_ms, Some(2_000));
    assert_eq!(report.managed[0].heartbeat_age_secs, Some(40));
    assert!(report.managed[0].heartbeat_stale);
    assert_eq!(report.managed[1].heartbeat_age_secs, None);
    assert!(!report.managed[1].heartbeat_stale);
    assert_eq!(report.loopbacks[0].active_readers, Some(2));
    assert_eq!(report.visible_cameras[0].standardized_name, "Cam - Linux Standardized");
    assert_eq!(report.quarantined, vec!["q"]);

    let view = DeviceView {
        path: "/dev/video0".into(),
        name: "Cam".into(),
        role: DeviceRole::Physical,
        tags: vec!["physical".into(), "needs shim".into()],
        paired_with: None,
        use_in_apps: false,
        needs_shim: true,
        compatible: false,
        standardized_name: Some("Cam - Linux Standardized".into()),
        driver: None,
        bus: None,
        advertised_fps: Vec::new(),
        issues: Vec::new(),
    };
    let lines = status_lines(&report, &vec![true, false], &vec![view]);
    assert_eq!(
        &lines[..18],
        [
            "cam-shim status",
            "===============",
            "",
            "Serve:    running",
            "Module:   v4l2loopback loaded",
            "State:    /run/cam-shim/state.json (updated 2s ago)",
            "Cameras:  1 visible, 1 need shim, 0 ghost node(s)",
            "",
            "Managed cameras (2)",
            "  a",
            "    loopback:  /dev/video10",
            "    heartbeat: 40s ago",
            "    failures:  1",
            "    status:    stale",
            "  b",
            "    loopback:  /dev/video10 (missing)",
            "    heartbeat: none",
            "    failures:  1",
        ]
    );
    assert!(lines.contains(
        &"  /dev/video10 — Cam - Linux Std [cam-shim, readers: 2, held by Discord (7)]".to_string()
    ));
    assert!(lines.iter().any(|line| line.contains("/dev/video0  Cam  [physical, needs shim]")));
    assert!(lines.contains(&"Quarantined serials: q".to_string()));
}

#[test]
fn status_of_a_stopped_supervisor() {
    let mut snapshot = healthy();
    snapshot.serve_running = false;
    let report = collect_status(&snapshot, &Vec::new(), 100_000);
    let lines = status_lines(&report, &Vec::new(), &Vec::new());
    assert!(lines.contains(&"Serve:    not running".to_string()));
    assert!(lines.contains(
        &"State:    /run/cam-shim/state.json (missing — serve not running or started with --no-state-file)"
            .to_string()
    ));
    assert!(lines.contains(&"Managed:  none".to_string()));
    assert!(lines.contains(&"Loopback: none".to_string()));
}

#[test]
fn clock_is_read_in_milliseconds() {
    assert_eq!(time_stamp_of(Some(1_700_000_000_123)), 1_700_000_000_123);
    assert_eq!(time_stamp_of(Some(u64::MAX as u128 + 6)), 5);
    assert_eq!(time_stamp_of(None), 0);
    let first = unix_now_ms();
    assert!(first > 1_600_000_000_000);
    assert!(first < 100_000_000_000_000);
}

#[test]
fn empty_snapshot_shows_nothing() {
    let snapshot = RuntimeSnapshot::default();
    assert!(!snapshot.loopback_module_loaded && !snapshot.serve_running);
    assert_eq!((snapshot.hidden_cameras, snapshot.ghost_nodes), (0, 0));
    assert_eq!((snapshot.visible_capture_devices, snapshot.needs_shim_devices), (0, 0));
    assert!(snapshot.loopbacks.is_empty() && snapshot.devices.is_empty());
    assert!(snapshot.supervisor_state.is_none());
}
