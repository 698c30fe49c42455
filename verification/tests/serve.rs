use cam_shim::devices::DeviceLevel;
use cam_shim::error::CamShimError;
use cam_shim::probe::DeviceReport;
use cam_shim::reconcile::{Round, RoundPhase};
use cam_shim::serve::{
    discover_candidates, heartbeat_stale, managed_source_stale, shim_config_for, state_snapshot,
    watchdog_stall, CandidateStep, ManagedCamera, SerialState, ServeConfig, ServeLoop,
    ShimCandidate, Supervisor, WaitEvent, WorkerStatus,
};
use cam_shim::table::Table;

const SECOND: u64 = 1_000_000_000;

fn camera(source_path: &str, index: u32) -> ManagedCamera {
    ManagedCamera {
        source_path: source_path.into(),
        loopback_index: index,
        loopback_path: format!("/dev/video{index}"),
    }
}

fn candidate(serial: &str, source_path: &str) -> ShimCandidate {
    ShimCandidate {
        serial: serial.into(),
        source_path: source_path.into(),
        label: "Cam - Linux Standardized".into(),
    }
}

fn workers(list: &[(&str, bool, u64)]) -> Table<WorkerStatus> {
    let mut table = Table::new();
    for (serial, finished, heartbeat_ms) in list {
        table.insert(
            serial.to_string(),
            WorkerStatus { finished: *finished, heartbeat_ms: *heartbeat_ms },
        );
    }
    table
}

fn report(path: &str, name: &str, needs_shim: bool) -> DeviceReport {
    DeviceReport {
        path: path.into(),
        name: name.into(),
        driver: String::new(),
        bus: String::new(),
        standardized_name: format!("{name} - Linux Standardized"),
        compatible: !needs_shim,
        needs_shim,
        advertised_fps: Vec::new(),
        issues: Vec::new(),
    }
}

fn level(serial: &str) -> DeviceLevel {
    DeviceLevel {
        has_vendor: true,
        vendor: Some("046d".into()),
        product: Some("0825".into()),
        serial: Some(serial.into()),
    }
}

#[test]
fn backoff_grows_with_failures() {
    let config = ServeConfig::default();
    let mut state = SerialState::default();

    state.record_failure(&config, 0);
    assert_eq!(state.consecutive_failures, 1);
    assert!(state.retry_after.is_some());

    for _ in 0..config.max_failures {
        state.record_failure(&config, 0);
    }
    assert!(state.is_quarantined(0));
}

#[test]
fn success_clears_failure_state() {
    let config = ServeConfig::default();
    let mut state = SerialState::default();
    state.record_failure(&config, 0);
    state.record_success();
    assert_eq!(state.consecutive_failures, 0);
    assert!(state.can_start(0));
}

#[test]
fn backoff_doubles_up_to_its_limit() {
    let config = ServeConfig { max_failures: 100, ..ServeConfig::default() };
    let mut state = SerialState::default();
    let mut waits = Vec::new();
    for _ in 0..8 {
        state.record_failure(&config, 0);
        waits.push(state.retry_after.unwrap() / 1_000_000);
    }
    assert_eq!(
        waits,
        vec![1_000, 2_000, 4_000, 8_000, 16_000, 32_000, 60_000, 60_000]
    );
}

#[test]
fn backoff_ends_on_time() {
    let config = ServeConfig::default();
    let mut state = SerialState::default();
    state.record_failure(&config, 5 * SECOND);
    assert!(!state.can_start(6 * SECOND - 1));
    assert!(state.can_start(6 * SECOND));
}

#[test]
fn quarantine_starts_with_the_last_allowed_failure_and_ends() {
    let config = ServeConfig::default();
    let mut state = SerialState::default();
    for _ in 0..4 {
        state.record_failure(&config, 0);
    }
    assert!(!state.is_quarantined(0));
    state.record_failure(&config, 0);
    assert!(state.is_quarantined(120 * SECOND - 1));
    assert!(!state.can_start(120 * SECOND - 1));
    assert!(!state.is_quarantined(120 * SECOND));
    assert!(state.can_start(120 * SECOND));
}

#[test]
fn failures_at_the_limit_do_not_wrap() {
    let config = ServeConfig::default();
    let mut state = SerialState {
        consecutive_failures: u32::MAX,
        quarantined_until: None,
        retry_after: None,
    };
    state.record_failure(&config, u64::MAX);
    assert_eq!(state.consecutive_failures, u32::MAX);
    assert!(!state.can_start(u64::MAX));
}

#[test]
fn cameras_that_need_a_shim_are_candidates_once() {
    let reports = vec![
        report("/dev/video0", "A", true),
        report("/dev/video2", "B", false),
        report("/dev/video4", "A", true),
        report("/dev/video6", "C", true),
    ];
    let levels = vec![
        Some(vec![level("S1")]),
        Some(vec![level("S2")]),
        Some(vec![level("S1")]),
        Some(vec![level("S3")]),
    ];
    let candidates = discover_candidates(&reports, &levels);
    let found: Vec<&str> = candidates.iter().map(|c| c.source_path.as_str()).collect();
    assert_eq!(found, vec!["/dev/video0", "/dev/video6"]);
    assert_eq!(candidates[0].label, "A - Linux Standardized");
}

#[test]
fn finished_worker_is_taken_out_and_counts_as_failure() {
    let config = ServeConfig::default();
    let mut supervisor = Supervisor::new();
    supervisor.started("a", camera("/dev/video0", 10));
    supervisor.started("b", camera("/dev/video2", 11));
    let mut round = Round::begin(0);
    let statuses = workers(&[("a", true, 1_000), ("b", false, 1_000)]);
    round.reap_dead(&mut supervisor, &statuses);
    assert_eq!(round.phase, RoundPhase::StopDead);
    assert_eq!(round.reaped.len(), 1);
    assert_eq!(round.stopping().serial, "a");
    assert_eq!(round.stopping().camera.loopback_index, 10);
    assert!(!supervisor.managed.contains_key("a"));
    assert!(supervisor.managed.contains_key("b"));
    round.stop_done(&mut supervisor, &config, 3 * SECOND);
    assert_eq!(round.phase, RoundPhase::ReapStale);
    let state = supervisor.serial_states.get("a").unwrap();
    assert_eq!(state.consecutive_failures, 1);
    assert_eq!(state.retry_after, Some(4 * SECOND as u128));
}

#[test]
fn silent_worker_is_taken_out() {
    let config = ServeConfig::default();
    let mut supervisor = Supervisor::new();
    supervisor.started("a", camera("/dev/video0", 10));
    let alive = workers(&[("a", false, 1_000)]);
    assert!(supervisor.reap_stale_workers(&config, 11_000, &alive).is_empty());
    assert!(supervisor.reap_dead_workers(&alive).is_empty());
    let mut round = Round::begin(0);
    round.reap_dead(&mut supervisor, &alive);
    round.reap_stale(&mut supervisor, &config, &alive, 11_001);
    assert_eq!(round.phase, RoundPhase::StopStale);
    assert_eq!(round.stopping().camera.loopback_path, "/dev/video10");
    round.stop_done(&mut supervisor, &config, 2 * SECOND);
    assert_eq!(round.phase, RoundPhase::Discover);
    assert_eq!(
        supervisor.serial_states.get("a").unwrap().retry_after,
        Some(3 * SECOND as u128)
    );
}

#[test]
fn slow_failure_is_waited_for_from_its_end() {
    let config = ServeConfig::default();
    let mut supervisor = Supervisor::new();
    let none = workers(&[]);
    let mut round = Round::begin(0);
    round.reap_dead(&mut supervisor, &none);
    round.reap_stale(&mut supervisor, &config, &none, 0);
    round.discovered(&supervisor, vec![candidate("slow", "/dev/video0")]);
    round.unplug(&mut supervisor, &Vec::new());
    assert!(matches!(round.attend(&mut supervisor, false), CandidateStep::Start(None)));
    let failed = Err(CamShimError::other("no".into()));
    round.start_tried(&mut supervisor, &config, failed, 10 * SECOND);
    let state = supervisor.serial_states.get("slow").unwrap();
    assert_eq!(state.retry_after, Some(11 * SECOND as u128));
    assert!(!state.can_start(11 * SECOND - 1));
    assert!(state.can_start(11 * SECOND));
}

#[test]
fn heartbeats_are_stale_after_the_limit() {
    assert!(!heartbeat_stale(1_000, 11_000, 10_000));
    assert!(heartbeat_stale(1_000, 11_001, 10_000));
    assert!(heartbeat_stale(0, 1_000, 10_000));
    assert!(!heartbeat_stale(5_000, 1_000, 10_000));
}

#[test]
fn unplugged_camera_leaves() {
    let mut supervisor = Supervisor::new();
    supervisor.started("a", camera("/dev/video0", 10));
    supervisor.started("b", camera("/dev/video2", 11));
    supervisor.started("c", camera("/dev/video4", 12));
    let stopped = supervisor.unplug(&vec![candidate("a", "/dev/video0")], &vec!["b".to_string()]);
    let serials: Vec<&str> = stopped.iter().map(|s| s.serial.as_str()).collect();
    assert_eq!(serials, vec!["c"]);
    assert_eq!(supervisor.managed.len(), 2);
}

#[test]
fn camera_is_started_kept_and_started_again() {
    let config = ServeConfig::default();
    let mut supervisor = Supervisor::new();
    let cam = candidate("a", "/dev/video0");
    assert!(matches!(supervisor.consider(&cam, true, 0), CandidateStep::Start(None)));
    supervisor.started("a", camera("/dev/video0", 10));
    assert!(matches!(supervisor.consider(&cam, true, 0), CandidateStep::Keep));

    let moved = candidate("a", "/dev/video2");
    match supervisor.consider(&moved, true, 0) {
        CandidateStep::Start(Some(old)) => assert_eq!(old.source_path, "/dev/video0"),
        _ => panic!("camera that moved is started again"),
    }

    supervisor.note_failure("a", &config, 0);
    assert!(matches!(supervisor.consider(&moved, true, 0), CandidateStep::Backoff));
    for _ in 0..4 {
        supervisor.note_failure("a", &config, 0);
    }
    assert!(matches!(supervisor.consider(&moved, true, 0), CandidateStep::Quarantined));
    supervisor.started("a", camera("/dev/video2", 10));
    assert_eq!(
        supervisor.serial_states.get("a").map(|s| s.consecutive_failures),
        Some(0)
    );
}

#[test]
fn a_source_is_stale_when_it_moved_or_vanished() {
    let managed = camera("/dev/video0", 10);
    assert!(!managed_source_stale(&managed, &candidate("a", "/dev/video0"), true));
    assert!(managed_source_stale(&managed, &candidate("a", "/dev/video0"), false));
    assert!(managed_source_stale(&managed, &candidate("a", "/dev/video2"), true));
}

#[test]
fn state_lists_managed_and_quarantined_cameras() {
    let config = ServeConfig::default();
    let mut supervisor = Supervisor::new();
    supervisor.started("a", camera("/dev/video0", 10));
    for _ in 0..5 {
        supervisor.note_failure("q", &config, 0);
    }
    let state = state_snapshot(&supervisor, &workers(&[("a", false, 77)]), 0, 99);
    assert_eq!(state.updated_at_ms, 99);
    assert_eq!(state.managed.len(), 1);
    assert_eq!(state.managed[0].serial, "a");
    assert_eq!(state.managed[0].loopback_path, "/dev/video10");
    assert_eq!(state.managed[0].last_heartbeat_ms, 77);
    assert!(!state.managed[0].quarantined);
    assert_eq!(state.quarantined, vec!["q"]);
}

#[test]
fn shim_runs_with_the_limits_of_the_supervisor() {
    let config = ServeConfig { target_fps: 25, max_capture_width: 1280, ..ServeConfig::default() };
    let shim = shim_config_for(&candidate("a", "/dev/video0"), "/dev/video10", &config);
    assert_eq!(shim.source_path, "/dev/video0");
    assert_eq!(shim.target_path, "/dev/video10");
    assert_eq!(shim.target_fps, 25);
    assert_eq!((shim.max_capture_width, shim.max_capture_height), (1280, 1080));
}

#[test]
fn watchdog_reports_stalls() {
    assert_eq!(watchdog_stall(31_000, 1_000, 30_000), None);
    assert_eq!(watchdog_stall(31_001, 1_000, 30_000), Some(30_001));
    assert_eq!(watchdog_stall(500, 1_000, 30_000), None);
}

#[test]
fn supervisor_looks_often_after_a_plug() {
    let config = ServeConfig::default();
    let mut serve = ServeLoop::new(true);
    assert_eq!(serve.wait_ms(&config, 0), 5_000);
    assert!(serve.waited(WaitEvent::Hotplug, 0));
    assert_eq!(serve.wait_ms(&config, SECOND), 250);
    serve.round_done(true);
    assert_eq!(serve.wait_ms(&config, SECOND), 5_000);
    serve.waited(WaitEvent::Hotplug, SECOND);
    serve.round_done(false);
    assert_eq!(serve.wait_ms(&config, SECOND), 250);
    assert_eq!(serve.wait_ms(&config, 4 * SECOND), 5_000);
    serve.waited(WaitEvent::MonitorGone, 4 * SECOND);
    assert!(!serve.hotplug_active);
}

#[test]
fn round_attends_to_every_candidate() {
    let config = ServeConfig::default();
    let mut supervisor = Supervisor::new();
    supervisor.started("kept", camera("/dev/video0", 10));
    supervisor.started("ended", camera("/dev/video2", 11));
    supervisor.started("gone", camera("/dev/video4", 12));
    let alive = workers(&[("kept", false, 1_000), ("ended", true, 1_000), ("gone", false, 1_000)]);
    let mut round = Round::begin(0);
    round.reap_dead(&mut supervisor, &alive);
    assert_eq!(round.stopping().serial, "ended");
    round.stop_done(&mut supervisor, &config, 0);
    round.reap_stale(&mut supervisor, &config, &alive, 1_000);
    assert_eq!(round.phase, RoundPhase::Discover);
    assert_eq!(round.reaped.len(), 1);

    round.discovered(
        &supervisor,
        vec![
            candidate("kept", "/dev/video0"),
            candidate("ended", "/dev/video2"),
            candidate("new", "/dev/video6"),
            candidate("bad", "/dev/video8"),
        ],
    );
    let stopped = round.unplug(&mut supervisor, &Vec::new());
    assert_eq!(stopped.len(), 1);
    assert_eq!(stopped[0].serial, "gone");

    assert!(matches!(round.attend(&mut supervisor, true), CandidateStep::Keep));
    assert!(matches!(round.attend(&mut supervisor, false), CandidateStep::Backoff));
    assert_eq!(round.candidate().serial, "new");
    assert!(matches!(round.attend(&mut supervisor, false), CandidateStep::Start(None)));
    assert_eq!(round.phase, RoundPhase::Starting);
    round.start_tried(&mut supervisor, &config, Ok(camera("/dev/video6", 13)), 0);
    assert!(matches!(round.attend(&mut supervisor, false), CandidateStep::Start(None)));
    round.start_tried(&mut supervisor, &config, Err(CamShimError::other("no".into())), 0);
    assert_eq!(round.phase, RoundPhase::Finished);
    assert!(round.started);
    for serial in ["kept", "new"] {
        assert!(supervisor.managed.contains_key(serial));
    }
    for serial in ["ended", "bad"] {
        assert!(!supervisor.managed.contains_key(serial));
        assert_eq!(
            supervisor.serial_states.get(serial).map(|s| s.consecutive_failures),
            Some(1)
        );
    }
}

#[test]
fn round_without_candidates_ends_at_once() {
    let config = ServeConfig::default();
    let mut supervisor = Supervisor::new();
    let mut round = Round::begin(0);
    round.reap_dead(&mut supervisor, &workers(&[]));
    round.reap_stale(&mut supervisor, &config, &workers(&[]), 0);
    round.discovered(&supervisor, Vec::new());
    round.unplug(&mut supervisor, &Vec::new());
    assert_eq!(round.phase, RoundPhase::Finished);
    assert!(!round.started);
}
