use cam_shim::clean::{
    clean_loopback_devices, release_device_holders, CleanFailure, CleanPhase, CleanReport,
    CleanRun, ForceReleaseEntry, HolderRelease, ReleasePhase,
};
use cam_shim::cli::{
    clean_lines, compatible_line, dry_run_lines, fix_lines, install_lines, reload_step,
    restored_loopback_lines, restored_node_lines, serve_config, CleanCommand, CleanCommandPhase,
    ReloadStep, RestoreCommand, RestoreCommandPhase, ServeArgs,
};
use cam_shim::devices::RepairReport;
use cam_shim::error::{CamShimError, IoFailure, IoKind};
use cam_shim::loopback::{DeviceHolder, LoopbackDeviceInfo};

fn device(index: u32, name: &str) -> LoopbackDeviceInfo {
    LoopbackDeviceInfo { path: format!("/dev/video{index}"), index, name: name.into() }
}

fn holder(pid: u32) -> DeviceHolder {
    DeviceHolder { pid, label: "Discord".into() }
}

fn release(pid: u32) -> HolderRelease {
    HolderRelease { holder: holder(pid), signal: "SIGTERM".into() }
}

fn os_error(code: i32) -> CamShimError {
    CamShimError::Io(IoFailure {
        kind: IoKind::Other,
        os_code: Some(code),
        message: "failed".into(),
    })
}

#[test]
fn holders_are_asked_then_killed() {
    let mut run = release_device_holders(1);
    assert_eq!(run.signal(), 15);
    let pids = run.signal_holders(&vec![holder(1), holder(7), holder(9)]);
    assert_eq!(pids, vec![7, 9]);
    run.pass_done(&vec![holder(1), holder(9)]);
    assert_eq!(run.phase, ReleasePhase::Kill);
    assert_eq!(run.signal(), 9);
    assert_eq!(run.signal_holders(&vec![holder(9)]), vec![9]);
    run.pass_done(&vec![holder(9)]);
    assert_eq!(run.phase, ReleasePhase::Fuser);
    assert!(run.finish(&vec![holder(1), holder(9), holder(12)], true));
    let signals: Vec<(u32, &str)> =
        run.releases.iter().map(|r| (r.holder.pid, r.signal.as_str())).collect();
    assert_eq!(
        signals,
        vec![(7, "SIGTERM"), (9, "SIGTERM"), (9, "SIGKILL"), (9, "fuser SIGTERM")]
    );
}

#[test]
fn free_device_is_left_alone() {
    let mut run = release_device_holders(1);
    assert!(run.signal_holders(&vec![holder(1)]).is_empty());
    run.pass_done(&vec![holder(1)]);
    assert_eq!(run.phase, ReleasePhase::Fuser);
    assert!(!run.finish(&vec![holder(1)], true));
    assert!(run.releases.is_empty());
}

#[test]
fn absent_fuser_is_not_used() {
    let mut run = release_device_holders(1);
    run.signal_holders(&vec![holder(7)]);
    run.pass_done(&Vec::new());
    assert_eq!(run.phase, ReleasePhase::Fuser);
    assert!(!run.finish(&vec![holder(7)], false));
    assert_eq!(run.releases.len(), 1);
}

fn clean(devices: &Vec<LoopbackDeviceInfo>, all: bool, force: bool) -> CleanRun {
    let mut run = clean_loopback_devices(all, force);
    if force {
        assert_eq!(run.phase, CleanPhase::StopDaemons);
        run.daemons_stopped();
    }
    assert_eq!(run.phase, CleanPhase::List);
    run.listed(devices);
    run
}

fn finished(run: &CleanRun) -> bool {
    run.phase == CleanPhase::Finished
}

#[test]
fn own_devices_are_removed_from_the_highest_down() {
    let devices = vec![
        device(10, "A - Linux Std"),
        device(11, "OBS Virtual Camera"),
        device(12, "B - Linux Std"),
    ];
    let mut run = clean(&devices, false, false);
    assert_eq!(run.phase, CleanPhase::FirstRemove);
    assert_eq!(run.device().index, 12);
    run.remove_tried(Ok(()), false, Vec::new());
    assert_eq!(run.device().index, 10);
    run.remove_tried(Err(os_error(19)), false, Vec::new());
    assert!(finished(&run));
    assert_eq!(
        run.report.removed,
        vec!["/dev/video12 (B - Linux Std)", "/dev/video10 (A - Linux Std) [already gone]"]
    );
    assert_eq!(run.report.skipped, vec!["/dev/video11 (OBS Virtual Camera)"]);
    assert!(run.report.failed.is_empty());
}

#[test]
fn others_are_removed_on_request_only() {
    let devices = vec![device(11, "OBS Virtual Camera")];
    assert!(finished(&clean(&devices, false, true)));
    let run = clean(&devices, true, false);
    assert_eq!(run.device().index, 11);
}

#[test]
fn failures_say_why() {
    let devices = vec![
        device(10, "A - Linux Std"),
        device(11, "B - Linux Std"),
        device(12, "C - Linux Std"),
        device(13, "D - Linux Std"),
    ];
    let mut run = clean(&devices, false, false);
    run.remove_tried(Ok(()), true, Vec::new());
    run.remove_tried(Err(os_error(16)), true, vec![holder(7)]);
    run.remove_tried(Err(os_error(19)), true, Vec::new());
    run.remove_tried(Err(CamShimError::other("denied".into())), true, Vec::new());
    assert!(finished(&run));
    let reasons: Vec<&str> = run.report.failed.iter().map(|f| f.reason.as_str()).collect();
    assert_eq!(
        reasons,
        vec![
            "device still registered after remove",
            "/dev/video12 is held open by Discord (7) — close those apps or run `cam-shim clean --force`",
            "io error: failed",
            "io error: denied",
        ]
    );
    assert_eq!(run.report.failed[1].holders[0].pid, 7);
}

#[test]
fn busy_device_is_tried_twice_with_force() {
    let devices = vec![device(10, "A - Linux Std")];
    let mut run = clean(&devices, false, true);
    assert_eq!(run.phase, CleanPhase::FirstRelease);
    run.released(vec![release(7)]);
    assert_eq!(run.phase, CleanPhase::FirstRemove);
    run.remove_tried(Err(os_error(16)), true, vec![holder(8)]);
    assert_eq!(run.phase, CleanPhase::SecondRelease);
    run.released(vec![release(8)]);
    assert_eq!(run.phase, CleanPhase::SecondRemove);
    run.remove_tried(Ok(()), false, Vec::new());
    assert!(finished(&run));
    assert_eq!(run.report.removed, vec!["/dev/video10 (A - Linux Std)"]);
    assert_eq!(run.report.force_releases.len(), 1);
    let pids: Vec<u32> =
        run.report.force_releases[0].releases.iter().map(|r| r.holder.pid).collect();
    assert_eq!(pids, vec![7, 8]);
}

#[test]
fn cleaning_without_force_releases_nothing() {
    let devices = vec![device(10, "A - Linux Std")];
    let mut run = clean(&devices, false, false);
    assert_eq!(run.phase, CleanPhase::FirstRemove);
    run.remove_tried(Err(os_error(16)), true, vec![holder(8)]);
    assert!(finished(&run));
    assert!(run.report.force_releases.is_empty());
    assert_eq!(run.report.failed.len(), 1);
}

#[test]
fn every_device_is_accounted_for() {
    let devices = vec![
        device(10, "A - Linux Std"),
        device(11, "B - Linux Std"),
        device(12, "C - Linux Std"),
        device(13, "OBS Virtual Camera"),
    ];
    let mut run = clean(&devices, false, false);
    run.remove_tried(Ok(()), false, Vec::new());
    run.remove_tried(Err(os_error(19)), false, Vec::new());
    run.remove_tried(Err(os_error(16)), true, Vec::new());
    assert!(finished(&run));
    assert_eq!(
        run.report.removed,
        vec!["/dev/video12 (C - Linux Std)", "/dev/video11 (B - Linux Std) [already gone]"]
    );
    assert_eq!(run.report.failed.len(), 1);
    assert_eq!(run.report.failed[0].path, "/dev/video10");
    assert_eq!(run.report.skipped, vec!["/dev/video13 (OBS Virtual Camera)"]);
}

#[test]
fn dry_run_lists_and_is_done() {
    for (all, reload, force) in [(false, false, false), (true, true, true), (false, true, true)] {
        let mut command = CleanCommand::start(all, reload, force, true);
        assert_eq!(command.phase, CleanCommandPhase::List);
        command.listed();
        assert_eq!(command.phase, CleanCommandPhase::Done);
    }
}

#[test]
fn forced_command_stops_daemons_before_cleaning_and_before_the_reload() {
    let mut command = CleanCommand::start(true, true, true, false);
    command.listed();
    assert_eq!(command.phase, CleanCommandPhase::Clean);
    let mut run = command.cleaning();
    assert_eq!(run.phase, CleanPhase::StopDaemons);
    assert!(run.all);
    run.daemons_stopped();
    run.listed(&Vec::new());
    command.cleaned(&run);
    assert_eq!(command.phase, CleanCommandPhase::StopForReload);
    command.daemons_stopped();
    assert_eq!(command.phase, CleanCommandPhase::Unload);
    assert!(matches!(command.unloaded(Ok(())), ReloadStep::LoadAgain));
    assert_eq!(command.phase, CleanCommandPhase::Load);
    command.loaded();
    assert_eq!(command.phase, CleanCommandPhase::Done);
}

#[test]
fn plain_command_reloads_on_request_only() {
    let mut command = CleanCommand::start(false, false, true, false);
    command.listed();
    command.cleaned(&clean(&Vec::new(), false, true));
    assert_eq!(command.phase, CleanCommandPhase::Done);

    let mut command = CleanCommand::start(false, true, false, false);
    command.listed();
    assert_eq!(command.cleaning().phase, CleanPhase::List);
    command.cleaned(&clean(&Vec::new(), false, false));
    assert_eq!(command.phase, CleanCommandPhase::Unload);
    assert!(matches!(
        command.unloaded(Err(CamShimError::other("in use".into()))),
        ReloadStep::Fail(_)
    ));
    assert_eq!(command.phase, CleanCommandPhase::Done);
}

#[test]
fn restore_cleans_first_and_spares_others() {
    let mut command = RestoreCommand::start(true);
    assert_eq!(command.phase, RestoreCommandPhase::Clean);
    let mut run = command.cleaning();
    assert_eq!(run.phase, CleanPhase::StopDaemons);
    run.daemons_stopped();
    run.listed(&vec![device(11, "OBS Virtual Camera")]);
    assert!(finished(&run));
    assert_eq!(run.report.skipped, vec!["/dev/video11 (OBS Virtual Camera)"]);
    command.cleaned(&run);
    assert_eq!(command.phase, RestoreCommandPhase::Repair);
    command.repaired();
    assert_eq!(command.phase, RestoreCommandPhase::Done);
    assert_eq!(RestoreCommand::start(false).phase, RestoreCommandPhase::Repair);
}

#[test]
fn cleaning_is_reported() {
    let report = CleanReport {
        removed: vec!["/dev/video10 (A)".into()],
        failed: vec![CleanFailure {
            path: "/dev/video11".into(),
            reason: "use --reload".into(),
            holders: vec![holder(7)],
        }],
        skipped: vec!["/dev/video12 (OBS)".into()],
        force_releases: vec![ForceReleaseEntry {
            device_path: "/dev/video10".into(),
            releases: vec![release(9)],
        }],
    };
    assert_eq!(
        clean_lines(&report, true),
        vec![
            "Force-released device holders:",
            "  /dev/video10:",
            "    Discord (9) — SIGTERM",
            "",
            "Removed /dev/video10 (A)",
            "Failed to remove /dev/video11: use --reload",
            "  still held by: Discord (7)",
            "Skipped /dev/video12 (OBS)",
        ]
    );
    assert_eq!(clean_lines(&report, false).len(), 4);
    assert_eq!(
        clean_lines(&CleanReport::default(), true),
        vec!["No matching loopback devices to remove."]
    );
    assert_eq!(
        restored_loopback_lines(&report),
        vec![
            "Removed loopback /dev/video10 (A)",
            "Failed to remove /dev/video11: use --reload",
            "  tip: sudo cam-shim clean --force --reload",
            "Left alone /dev/video12 (OBS)",
        ]
    );
}

#[test]
fn repair_is_reported() {
    assert_eq!(
        restored_node_lines(&RepairReport {
            ghosts_removed: vec!["/dev/video2".into(), "/dev/video9".into()],
        }),
        vec!["Removed ghost nodes: /dev/video2, /dev/video9"]
    );
    assert_eq!(
        restored_node_lines(&RepairReport::default()),
        vec!["Device nodes repaired. If the camera still does not appear, unplug and replug it."]
    );
}

#[test]
fn dry_run_lists_devices_and_holders() {
    assert_eq!(
        dry_run_lines(
            &vec![device(10, "A - Linux Std"), device(11, "OBS")],
            &vec![vec![holder(7)], Vec::new()],
        ),
        vec![
            "v4l2loopback devices:",
            "  /dev/video10 — A - Linux Std [cam-shim, held by Discord (7)]",
            "  /dev/video11 — OBS [other]",
        ]
    );
    assert_eq!(
        dry_run_lines(&Vec::new(), &Vec::new()),
        vec!["No v4l2loopback devices found."]
    );
}

#[test]
fn failed_unload_is_a_warning_with_force() {
    assert!(matches!(reload_step(Ok(()), false), ReloadStep::LoadAgain));
    match reload_step(Err(CamShimError::other("in use".into())), true) {
        ReloadStep::Warn(text) => assert_eq!(
            text,
            "Warning: module reload failed after force cleanup: io error: in use"
        ),
        _ => panic!("a forced reload goes on"),
    }
    assert!(matches!(
        reload_step(Err(CamShimError::other("in use".into())), false),
        ReloadStep::Fail(_)
    ));
}

#[test]
fn fix_says_what_it_does() {
    assert_eq!(
        compatible_line("/dev/video0"),
        "/dev/video0 is already compatible — no shim needed."
    );
    let lines = fix_lines("/dev/video0", "/dev/video10", "Cam - Linux Standardized", 30);
    assert!(lines.contains(
        &"Starting shim /dev/video0 → /dev/video10 @ 30 fps (Ctrl+C stops and cleans up)".to_string()
    ));
    assert!(lines.contains(
        &"Pick \"Cam - Linux Standardized\" in your application's camera list.".to_string()
    ));
    assert_eq!(install_lines()[0], "Loaded v4l2loopback module.");
    assert_eq!(install_lines().len(), 9);
}

#[test]
fn arguments_become_a_configuration() {
    let args = |max_width: u32, max_height: u32| ServeArgs {
        target_fps: 30,
        poll_secs: 5,
        max_failures: 5,
        quarantine_secs: u64::MAX,
        backoff_ms: 1_000,
        stale_frame_secs: 10,
        watchdog_secs: 30,
        no_state_file: true,
        no_hotplug: false,
        max_width,
        max_height,
    };
    let config = serve_config(&args(1280, 720)).expect("limits above zero");
    assert_eq!(config.poll_interval_ms, 5_000);
    assert_eq!(config.quarantine_duration_ms, u64::MAX);
    assert_eq!(config.max_backoff_ms, 60_000);
    assert!(!config.write_state_file && config.hotplug);
    assert_eq!(
        serve_config(&args(0, 720)).unwrap_err(),
        "--max-width and --max-height must be greater than 0"
    );
    assert!(serve_config(&args(1280, 0)).is_err());
}
