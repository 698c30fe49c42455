//! The supervisor: which cameras get a shim, and when a failing one is tried again.
use vstd::prelude::*;

use crate::compat::{DEFAULT_MAX_CAPTURE_HEIGHT, DEFAULT_MAX_CAPTURE_WIDTH, DEFAULT_TARGET_FPS};
use crate::devices::{camera_key, physical_camera_key, DeviceLevel};
use crate::probe::{report_models, DeviceReport, ReportModel};
use crate::runtime::{age_ms, age_ms_since, ManagedCameraSnapshot, ManagedModel, SupervisorStateSnapshot};
use crate::shim::ShimConfig;
use crate::split::{file_name, file_name_of};
use crate::table::Table;
use crate::text::{has_text, str_eq, texts};

verus! {

broadcast use crate::text::group_texts;

pub const DEFAULT_POLL_MS: u64 = 5_000;

pub const DEFAULT_MAX_FAILURES: u32 = 5;

pub const DEFAULT_QUARANTINE_MS: u64 = 120_000;

pub const DEFAULT_BACKOFF_BASE_MS: u64 = 1_000;

pub const DEFAULT_MAX_BACKOFF_MS: u64 = 60_000;

pub const DEFAULT_STALE_FRAME_MS: u64 = 10_000;

pub const DEFAULT_WATCHDOG_MS: u64 = 30_000;

/// For how long discovery is tried again after a camera was plugged in, in milliseconds.
pub const HOTPLUG_SETTLE_MS: u64 = 2_000;

/// The time between two such tries, in milliseconds.
pub const HOTPLUG_SETTLE_RETRY_MS: u64 = 250;

/// What the supervisor runs with. Times are in milliseconds.
#[derive(Debug)]
pub struct ServeConfig {
    pub target_fps: u32,
    pub poll_interval_ms: u64,
    pub max_failures: u32,
    pub quarantine_duration_ms: u64,
    pub backoff_base_ms: u64,
    pub max_backoff_ms: u64,
    pub stale_frame_timeout_ms: u64,
    pub watchdog_timeout_ms: u64,
    pub write_state_file: bool,
    pub hotplug: bool,
    pub max_capture_width: u32,
    pub max_capture_height: u32,
}

impl Default for ServeConfig {
    fn default() -> (r: Self)
        ensures
            r.target_fps == 30,
            r.poll_interval_ms == 5_000,
            r.max_failures == 5,
            r.quarantine_duration_ms == 120_000,
            r.backoff_base_ms == 1_000,
            r.max_backoff_ms == 60_000,
            r.stale_frame_timeout_ms == 10_000,
            r.watchdog_timeout_ms == 30_000,
            r.write_state_file,
            r.hotplug,
            r.max_capture_width == 1920,
            r.max_capture_height == 1080,
    {
        ServeConfig {
            target_fps: DEFAULT_TARGET_FPS,
            poll_interval_ms: DEFAULT_POLL_MS,
            max_failures: DEFAULT_MAX_FAILURES,
            quarantine_duration_ms: DEFAULT_QUARANTINE_MS,
            backoff_base_ms: DEFAULT_BACKOFF_BASE_MS,
            max_backoff_ms: DEFAULT_MAX_BACKOFF_MS,
            stale_frame_timeout_ms: DEFAULT_STALE_FRAME_MS,
            watchdog_timeout_ms: DEFAULT_WATCHDOG_MS,
            write_state_file: true,
            hotplug: true,
            max_capture_width: DEFAULT_MAX_CAPTURE_WIDTH,
            max_capture_height: DEFAULT_MAX_CAPTURE_HEIGHT,
        }
    }
}

/// How a camera has fared. Points in time are on a steady clock, in nanoseconds.
#[derive(Debug, Clone, Copy, PartialEq, Eq, Structural)]
pub struct SerialState {
    pub consecutive_failures: u32,
    pub quarantined_until: Option<u128>,
    pub retry_after: Option<u128>,
}

/// A camera that has not failed.
pub open spec fn fresh_state() -> SerialState {
    SerialState { consecutive_failures: 0, quarantined_until: None, retry_after: None }
}

impl Default for SerialState {
    fn default() -> (r: Self)
        ensures
            r == fresh_state(),
    {
        SerialState { consecutive_failures: 0, quarantined_until: None, retry_after: None }
    }
}

/// How often the base time is doubled after so many failures: once per failure after the first, six
/// times at most.
pub open spec fn doublings(failures: int) -> int {
    if failures <= 1 {
        0
    } else if failures >= 7 {
        6
    } else {
        failures - 1
    }
}

/// Two to the given power, up to six.
pub open spec fn power_of_two(exp: int) -> int {
    if exp <= 0 {
        1
    } else if exp == 1 {
        2
    } else if exp == 2 {
        4
    } else if exp == 3 {
        8
    } else if exp == 4 {
        16
    } else if exp == 5 {
        32
    } else {
        64
    }
}

/// How long a camera is left alone after so many failures, in milliseconds.
pub open spec fn backoff_ms(failures: int, config: ServeConfig) -> int {
    let wanted = config.backoff_base_ms * power_of_two(doublings(failures));
    if wanted < config.max_backoff_ms {
        wanted
    } else {
        config.max_backoff_ms as int
    }
}

/// The number of failures with one more.
pub open spec fn one_more(failures: u32) -> u32 {
    if failures == u32::MAX {
        failures
    } else {
        (failures + 1) as u32
    }
}

/// A point in time, so many milliseconds later.
pub open spec fn later_by(now_ns: u64, ms: int) -> u128 {
    (now_ns + ms * 1_000_000) as u128
}

/// The state of a camera after a failure: it is left alone for a while, longer with every failure,
/// and after too many of them it is in quarantine.
pub open spec fn after_failure(state: SerialState, config: ServeConfig, now_ns: u64) -> SerialState {
    let failures = one_more(state.consecutive_failures);
    SerialState {
        consecutive_failures: failures,
        quarantined_until: if failures >= config.max_failures {
            Some(later_by(now_ns, config.quarantine_duration_ms as int))
        } else {
            state.quarantined_until
        },
        retry_after: Some(later_by(now_ns, backoff_ms(failures as int, config))),
    }
}

/// The camera is in quarantine.
pub open spec fn in_quarantine(state: SerialState, now_ns: u64) -> bool {
    state.quarantined_until matches Some(until) && now_ns < until
}

/// A camera that is in quarantine or left alone has failed.
pub open spec fn waits_for_a_reason(state: SerialState) -> bool {
    state.quarantined_until is Some || state.retry_after is Some ==> state.consecutive_failures
        >= 1
}

/// A shim may be started for the camera: it is not in quarantine, and it was left alone for long
/// enough.
pub open spec fn may_start(state: SerialState, now_ns: u64) -> bool {
    !in_quarantine(state, now_ns) && !(state.retry_after matches Some(after) && now_ns < after)
}

impl SerialState {
    /// Notes a failure.
    pub fn record_failure(&mut self, config: &ServeConfig, now_ns: u64)
        ensures
            *final(self) == after_failure(*old(self), *config, now_ns),
    {
        if self.consecutive_failures < u32::MAX {
            self.consecutive_failures += 1;
        }
        let factor: u128 = match self.consecutive_failures {
            0 | 1 => 1,
            2 => 2,
            3 => 4,
            4 => 8,
            5 => 16,
            6 => 32,
            _ => 64,
        };
        let base: u128 = config.backoff_base_ms as u128;
        assert(base * factor <= 0xFFFF_FFFF_FFFF_FFFFu128 * 64) by (nonlinear_arith)
            requires
                base <= 0xFFFF_FFFF_FFFF_FFFFu128,
                factor <= 64,
        ;
        let wanted: u128 = base * factor;
        let max: u128 = config.max_backoff_ms as u128;
        let backoff: u128 = if wanted < max {
            wanted
        } else {
            max
        };
        self.retry_after = Some(now_ns as u128 + backoff * 1_000_000);
        if self.consecutive_failures >= config.max_failures {
            self.quarantined_until = Some(
                now_ns as u128 + config.quarantine_duration_ms as u128 * 1_000_000,
            );
        }
    }

    /// Notes a success: what was before does not count any more.
    pub fn record_success(&mut self)
        ensures
            *final(self) == fresh_state(),
    {
        self.consecutive_failures = 0;
        self.quarantined_until = None;
        self.retry_after = None;
    }

    /// Whether a shim may be started for the camera.
    pub fn can_start(&self, now_ns: u64) -> (r: bool)
        ensures
            r == may_start(*self, now_ns),
    {
        if self.is_quarantined(now_ns) {
            return false;
        }
        match self.retry_after {
            Some(after) => now_ns as u128 >= after,
            None => true,
        }
    }

    /// Whether the camera is in quarantine.
    pub fn is_quarantined(&self, now_ns: u64) -> (r: bool)
        ensures
            r == in_quarantine(*self, now_ns),
    {
        match self.quarantined_until {
            Some(until) => (now_ns as u128) < until,
            None => false,
        }
    }
}

/// The state of a camera after so many failures in a row, all at the same time.
pub open spec fn after_failures(
    state: SerialState,
    config: ServeConfig,
    now_ns: u64,
    n: nat,
) -> SerialState
    decreases n,
{
    if n == 0 {
        state
    } else {
        after_failure(
            after_failures(state, config, now_ns, (n - 1) as nat),
            config,
            now_ns,
        )
    }
}

proof fn lemma_failures_count(state: SerialState, config: ServeConfig, now_ns: u64, n: nat)
    requires
        state.consecutive_failures + n <= u32::MAX,
    ensures
        after_failures(state, config, now_ns, n).consecutive_failures == state.consecutive_failures
            + n,
    decreases n,
{
    if n > 0 {
        lemma_failures_count(state, config, now_ns, (n - 1) as nat);
    }
}

/// A camera that fails as often in a row as is allowed is in quarantine, for as long as was asked
/// for, and may not be started meanwhile.
pub proof fn lemma_quarantined_after_max_failures(
    state: SerialState,
    config: ServeConfig,
    now_ns: u64,
    n: nat,
    later_ns: u64,
)
    requires
        n >= 1,
        n >= config.max_failures,
        state.consecutive_failures + n <= u32::MAX,
        later_ns < now_ns + config.quarantine_duration_ms * 1_000_000,
    ensures
        in_quarantine(after_failures(state, config, now_ns, n), later_ns),
        !may_start(after_failures(state, config, now_ns, n), later_ns),
{
    lemma_failures_count(state, config, now_ns, n);
}

/// A failure leaves the camera alone for the backoff time and no longer, unless it is in quarantine;
/// the time never gets shorter with more failures, and never longer than the maximum.
pub proof fn lemma_backoff_grows(config: ServeConfig, failures: int)
    requires
        failures >= 1,
    ensures
        0 <= backoff_ms(failures, config) <= backoff_ms(failures + 1, config)
            <= config.max_backoff_ms,
        failures >= 7 ==> backoff_ms(failures + 1, config) == backoff_ms(failures, config),
        failures < 7 && 2 * backoff_ms(failures, config) <= config.max_backoff_ms ==> backoff_ms(
            failures + 1,
            config,
        ) == 2 * backoff_ms(failures, config),
        failures < 7 && 2 * backoff_ms(failures, config) > config.max_backoff_ms ==> backoff_ms(
            failures + 1,
            config,
        ) == config.max_backoff_ms,
        backoff_ms(1, config) == if config.backoff_base_ms < config.max_backoff_ms {
            config.backoff_base_ms as int
        } else {
            config.max_backoff_ms as int
        },
{
    let a = power_of_two(doublings(failures));
    let b = power_of_two(doublings(failures + 1));
    let base = config.backoff_base_ms as int;
    assert(base * a >= 0) by (nonlinear_arith)
        requires
            base >= 0,
            a >= 0,
    ;
    assert(base * a <= base * b) by (nonlinear_arith)
        requires
            base >= 0,
            a <= b,
    ;
    if failures < 7 {
        assert(b == 2 * a);
        assert(base * (2 * a) == 2 * (base * a)) by (nonlinear_arith);
    }
}

/// Once the backoff time is over and there is no quarantine, the camera may be started; before that
/// it may not.
pub proof fn lemma_retry_after_backoff(
    state: SerialState,
    config: ServeConfig,
    now_ns: u64,
    later_ns: u64,
)
    requires
        state.quarantined_until is None,
        one_more(state.consecutive_failures) < config.max_failures,
    ensures
        may_start(after_failure(state, config, now_ns), later_ns) <==> later_ns >= now_ns
            + backoff_ms(one_more(state.consecutive_failures) as int, config) * 1_000_000,
{
    assert(backoff_ms(one_more(state.consecutive_failures) as int, config) <= u64::MAX);
    assert(backoff_ms(one_more(state.consecutive_failures) as int, config) >= 0) by {
        let a = power_of_two(doublings(one_more(state.consecutive_failures) as int));
        assert(config.backoff_base_ms * a >= 0) by (nonlinear_arith)
            requires
                config.backoff_base_ms >= 0,
                a >= 0,
        ;
    }
}

/// After a success the camera may be started at any time.
pub proof fn lemma_success_clears(now_ns: u64)
    ensures
        may_start(fresh_state(), now_ns),
        !in_quarantine(fresh_state(), now_ns),
{
}

/// A camera to make a virtual camera for.
#[derive(Debug)]
pub struct ShimCandidate {
    pub serial: String,
    pub source_path: String,
    pub label: String,
}

impl View for ShimCandidate {
    type V = (Seq<char>, Seq<char>, Seq<char>);

    open spec fn view(&self) -> (Seq<char>, Seq<char>, Seq<char>) {
        (self.serial@, self.source_path@, self.label@)
    }
}

/// The views of candidates.
pub open spec fn candidate_views(list: Seq<ShimCandidate>) -> Seq<
    (Seq<char>, Seq<char>, Seq<char>),
> {
    list.map_values(|candidate: ShimCandidate| candidate@)
}

/// The key of the camera of a report, where it can be told.
pub open spec fn report_key(report: ReportModel, levels: Option<Vec<DeviceLevel>>) -> Option<
    Seq<char>,
> {
    match levels {
        Some(levels) => Some(camera_key(levels@, report.path, Seq::empty())),
        None => None,
    }
}

/// One of the candidates is the camera with the given key.
pub open spec fn has_candidate(
    list: Seq<(Seq<char>, Seq<char>, Seq<char>)>,
    serial: Seq<char>,
) -> bool {
    exists|i: int| 0 <= i < list.len() && (#[trigger] list[i]).0 == serial
}

/// The candidates among the first `n` reports: cameras that need a shim, each with its first report.
pub open spec fn candidates(
    reports: Seq<ReportModel>,
    levels: Seq<Option<Vec<DeviceLevel>>>,
    n: int,
) -> Seq<(Seq<char>, Seq<char>, Seq<char>)>
    decreases n,
{
    if n <= 0 {
        Seq::empty()
    } else {
        let rest = candidates(reports, levels, n - 1);
        let report = reports[n - 1];
        match report_key(report, levels[n - 1]) {
            Some(key) => if report.needs_shim && !has_candidate(rest, key) {
                rest.push((key, report.path, report.standardized_name))
            } else {
                rest
            },
            None => rest,
        }
    }
}

fn knows_serial(list: &Vec<ShimCandidate>, serial: &str) -> (r: bool)
    ensures
        r == has_candidate(candidate_views(list@), serial@),
{
    let ghost views = candidate_views(list@);
    let mut i: usize = 0;
    while i < list.len()
        invariant
            i <= list@.len(),
            views == candidate_views(list@),
            forall|j: int| 0 <= j < i ==> (#[trigger] views[j]).0 != serial@,
        decreases list@.len() - i,
    {
        assert(views[i as int] == list@[i as int]@);
        if str_eq(&list[i].serial, serial) {
            return true;
        }
        i += 1;
    }
    false
}

/// The cameras to make virtual cameras for. `levels` holds, for each report, the directories above
/// its node, where the camera can be told.
pub fn discover_candidates(
    reports: &Vec<DeviceReport>,
    levels: &Vec<Option<Vec<DeviceLevel>>>,
) -> (r: Vec<ShimCandidate>)
    requires
        levels@.len() == reports@.len(),
    ensures
        candidate_views(r@) == candidates(
            report_models(reports@),
            levels@,
            reports@.len() as int,
        ),
{
    let ghost models = report_models(reports@);
    let mut out: Vec<ShimCandidate> = Vec::new();
    let mut i: usize = 0;
    assert(candidate_views(out@) =~= Seq::<(Seq<char>, Seq<char>, Seq<char>)>::empty());
    while i < reports.len()
        invariant
            i <= reports@.len(),
            levels@.len() == reports@.len(),
            models == report_models(reports@),
            candidate_views(out@) == candidates(models, levels@, i as int),
        decreases reports@.len() - i,
    {
        let ghost before = out@;
        assert(models[i as int] == reports@[i as int]@);
        if reports[i].needs_shim {
            if let Some(dirs) = &levels[i] {
                let serial = physical_camera_key(dirs, &reports[i].path);
                if !knows_serial(&out, &serial) {
                    let candidate = ShimCandidate {
                        serial,
                        source_path: reports[i].path.clone(),
                        label: reports[i].standardized_name.clone(),
                    };
                    out.push(candidate);
                    assert(candidate_views(out@) =~= candidate_views(before).push(candidate@));
                }
            }
        }
        i += 1;
    }
    out
}

/// The candidate is the camera of the report, which needs a shim.
pub open spec fn is_candidate_of(
    candidate: (Seq<char>, Seq<char>, Seq<char>),
    report: ReportModel,
    levels: Option<Vec<DeviceLevel>>,
) -> bool {
    &&& report.needs_shim
    &&& report_key(report, levels) == Some(candidate.0)
    &&& candidate.1 == report.path
    &&& candidate.2 == report.standardized_name
}

/// A camera is a candidate once, however many nodes it has; every camera that needs a shim and can
/// be told from others is a candidate, and no other camera is.
pub proof fn lemma_one_candidate_per_camera(
    reports: Seq<ReportModel>,
    levels: Seq<Option<Vec<DeviceLevel>>>,
    n: int,
)
    requires
        0 <= n <= reports.len(),
    ensures
        forall|i: int, j: int|
            0 <= i < j < candidates(reports, levels, n).len() ==> (#[trigger] candidates(
                reports,
                levels,
                n,
            )[i]).0 != (#[trigger] candidates(reports, levels, n)[j]).0,
        forall|k: int|
            0 <= k < n && (#[trigger] reports[k]).needs_shim && report_key(
                reports[k],
                levels[k],
            ) is Some ==> has_candidate(
                candidates(reports, levels, n),
                report_key(reports[k], levels[k])->0,
            ),
        forall|i: int|
            0 <= i < candidates(reports, levels, n).len() ==> exists|k: int|
                0 <= k < n && is_candidate_of(
                    #[trigger] candidates(reports, levels, n)[i],
                    #[trigger] reports[k],
                    levels[k],
                ),
    decreases n,
{
    if n > 0 {
        lemma_one_candidate_per_camera(reports, levels, n - 1);
        let rest = candidates(reports, levels, n - 1);
        let list = candidates(reports, levels, n);
        let report = reports[n - 1];
        let key = report_key(report, levels[n - 1]);
        assert(forall|i: int| 0 <= i < rest.len() ==> list[i] == rest[i]);
        assert forall|k: int|
            0 <= k < n && (#[trigger] reports[k]).needs_shim && report_key(
                reports[k],
                levels[k],
            ) is Some implies has_candidate(list, report_key(reports[k], levels[k])->0) by {
            let wanted = report_key(reports[k], levels[k])->0;
            if k < n - 1 || has_candidate(rest, wanted) {
                let i = choose|i: int| 0 <= i < rest.len() && (#[trigger] rest[i]).0 == wanted;
                assert(list[i].0 == wanted);
            } else {
                assert(list[rest.len() as int].0 == wanted);
            }
        }
        assert forall|i: int| 0 <= i < list.len() implies exists|k: int|
            0 <= k < n && is_candidate_of(
                #[trigger] list[i],
                #[trigger] reports[k],
                levels[k],
            ) by {
            if i < rest.len() {
                let k = choose|k: int|
                    0 <= k < n - 1 && is_candidate_of(
                        #[trigger] rest[i],
                        #[trigger] reports[k],
                        levels[k],
                    );
                assert(is_candidate_of(list[i], reports[k], levels[k]));
            } else {
                assert(is_candidate_of(list[i], reports[n - 1], levels[n - 1]));
            }
        }
        assert forall|i: int, j: int| 0 <= i < j < list.len() implies (#[trigger] list[i]).0 != (
        #[trigger] list[j]).0 by {
            if j < rest.len() {
                assert(rest[i].0 != rest[j].0);
            } else {
                assert(rest[i].0 == list[i].0);
                assert(key == Some(list[j].0));
            }
        }
    }
}

/// A camera that has a shim.
#[derive(Debug)]
pub struct ManagedCamera {
    pub source_path: String,
    pub loopback_index: u32,
    pub loopback_path: String,
}

/// What is known of a worker.
#[derive(Debug, Clone, Copy)]
pub struct WorkerStatus {
    pub finished: bool,
    /// When the worker last handed over a frame, in milliseconds; 0 if it never did.
    pub heartbeat_ms: u64,
}

/// A camera whose shim was taken away.
#[derive(Debug)]
pub struct StoppedCamera {
    pub serial: String,
    pub camera: ManagedCamera,
}

/// The supervisor: the cameras that have a shim, and how each camera has fared.
#[derive(Debug)]
pub struct Supervisor {
    pub managed: Table<ManagedCamera>,
    pub serial_states: Table<SerialState>,
}

/// How a camera has fared.
pub open spec fn state_of(states: Map<Seq<char>, SerialState>, serial: Seq<char>) -> SerialState {
    if states.contains_key(serial) {
        states[serial]
    } else {
        fresh_state()
    }
}

/// The cameras that were stopped are those that `p` names, each once.
pub open spec fn stops(
    before: Map<Seq<char>, ManagedCamera>,
    stopped: Seq<StoppedCamera>,
    p: spec_fn(Seq<char>) -> bool,
) -> bool {
    &&& forall|i: int|
        0 <= i < stopped.len() ==> before.contains_key((#[trigger] stopped[i]).serial@)
            && before[stopped[i].serial@] == stopped[i].camera && p(stopped[i].serial@)
    &&& forall|i: int, j: int|
        0 <= i < j < stopped.len() ==> (#[trigger] stopped[i]).serial@ != (
        #[trigger] stopped[j]).serial@
    &&& forall|serial: Seq<char>| #[trigger]
        before.contains_key(serial) && p(serial) ==> was_stopped(stopped, serial)
}

/// The camera is among those that were stopped.
pub open spec fn was_stopped(stopped: Seq<StoppedCamera>, serial: Seq<char>) -> bool {
    exists|i: int| 0 <= i < stopped.len() && (#[trigger] stopped[i]).serial@ == serial
}

/// The shims of the cameras that `p` names are gone, and the others are as they were.
pub open spec fn managed_without(
    before: Map<Seq<char>, ManagedCamera>,
    after: Map<Seq<char>, ManagedCamera>,
    p: spec_fn(Seq<char>) -> bool,
) -> bool {
    &&& forall|serial: Seq<char>| #[trigger]
        after.contains_key(serial) <==> before.contains_key(serial) && !p(serial)
    &&& forall|serial: Seq<char>| #[trigger]
        after.contains_key(serial) ==> after[serial] == before[serial]
}

/// Cameras whose worker has ended, as a predicate.
pub open spec fn has_ended(workers: Map<Seq<char>, WorkerStatus>) -> spec_fn(Seq<char>) -> bool {
    |serial: Seq<char>| workers.contains_key(serial) && workers[serial].finished
}

/// No frame came for longer than the limit.
pub open spec fn is_stale(heartbeat_ms: u64, now_ms: u64, limit_ms: u64) -> bool {
    heartbeat_ms == 0 || age_ms(now_ms, heartbeat_ms) > limit_ms
}

/// Whether no frame came for longer than the limit.
pub fn heartbeat_stale(heartbeat_ms: u64, now_ms: u64, limit_ms: u64) -> (r: bool)
    ensures
        r == is_stale(heartbeat_ms, now_ms, limit_ms),
        r <==> heartbeat_ms == 0 || now_ms > heartbeat_ms + limit_ms,
{
    heartbeat_ms == 0 || age_ms_since(now_ms, heartbeat_ms) > limit_ms
}

/// Cameras whose worker runs but hands over no frames, as a predicate.
pub open spec fn has_stalled(
    workers: Map<Seq<char>, WorkerStatus>,
    now_ms: u64,
    limit_ms: u64,
) -> spec_fn(Seq<char>) -> bool {
    |serial: Seq<char>|
        workers.contains_key(serial) && !workers[serial].finished && is_stale(
            workers[serial].heartbeat_ms,
            now_ms,
            limit_ms,
        )
}

/// Texts of a list, as a predicate.
pub open spec fn is_listed(list: Seq<Seq<char>>) -> spec_fn(Seq<char>) -> bool {
    |text: Seq<char>| list.contains(text)
}

impl Supervisor {
    /// Of a camera that has a shim no failure is on record, and none is made to wait without one.
    pub open spec fn wf(self) -> bool {
        &&& forall|serial: Seq<char>| #[trigger]
            self.managed@.contains_key(serial) ==> self.serial_states@.contains_key(serial)
                && self.serial_states@[serial] == fresh_state()
        &&& forall|serial: Seq<char>| #[trigger]
            self.serial_states@.contains_key(serial) ==> waits_for_a_reason(
                self.serial_states@[serial],
            )
    }

    /// A supervisor without cameras.
    pub fn new() -> (r: Self)
        ensures
            r.wf(),
            r.managed@ == Map::<Seq<char>, ManagedCamera>::empty(),
            r.serial_states@ == Map::<Seq<char>, SerialState>::empty(),
    {
        Supervisor { managed: Table::new(), serial_states: Table::new() }
    }

    /// Takes away the shims of the listed cameras.
    fn remove_listed(&mut self, serials: &Vec<String>) -> (r: Vec<StoppedCamera>)
        ensures
            managed_without(old(self).managed@, final(self).managed@, is_listed(texts(serials@))),
            stops(old(self).managed@, r@, is_listed(texts(serials@))),
            final(self).serial_states == old(self).serial_states,
    {
        let ghost before = self.managed@;
        let ghost all = texts(serials@);
        let mut stopped: Vec<StoppedCamera> = Vec::new();
        let mut i: usize = 0;
        assert(all.len() == serials@.len());
        while i < serials.len()
            invariant
                i <= serials@.len(),
                all == texts(serials@),
                all.len() == serials@.len(),
                before == old(self).managed@,
                self.serial_states == old(self).serial_states,
                managed_without(before, self.managed@, is_listed(all.take(i as int))),
                stops(before, stopped@, is_listed(all.take(i as int))),
            decreases serials@.len() - i,
        {
            let ghost seen = all.take(i as int);
            let ghost more = all.take(i + 1);
            let ghost serial = all[i as int];
            let ghost known = self.managed@;
            let ghost was = stopped@;
            proof {
                assert(serial == serials@[i as int]@);
                assert(more =~= seen.push(serial));
                assert forall|s: Seq<char>| #[trigger] is_listed(more)(s) <==> is_listed(seen)(s)
                    || s == serial by {
                    crate::order::lemma_push_contains(seen, serial, s);
                }
            }
            let found = self.managed.remove(&serials[i]);
            match found {
                Some(camera) => {
                    let entry = StoppedCamera { serial: serials[i].clone(), camera };
                    proof {
                        assert(known.contains_key(serial));
                        assert(!is_listed(seen)(serial));
                        assert forall|j: int| 0 <= j < was.len() implies (
                        #[trigger] was[j]).serial@ != serial by {
                            assert(is_listed(seen)(was[j].serial@));
                        }
                    }
                    stopped.push(entry);
                    proof {
                        assert forall|j: int| 0 <= j < stopped@.len() implies before.contains_key(
                            (#[trigger] stopped@[j]).serial@,
                        ) && before[stopped@[j].serial@] == stopped@[j].camera && is_listed(more)(
                            stopped@[j].serial@,
                        ) by {
                            if j < was.len() {
                                assert(stopped@[j] == was[j]);
                            }
                        }
                        assert forall|s: Seq<char>| #[trigger] before.contains_key(s) && is_listed(
                            more,
                        )(s) implies was_stopped(stopped@, s) by {
                            if s == serial {
                                assert(stopped@[was.len() as int].serial@ == serial);
                            } else {
                                assert(was_stopped(was, s));
                                let j = choose|j: int|
                                    0 <= j < was.len() && (#[trigger] was[j]).serial@ == s;
                                assert(stopped@[j].serial@ == s);
                            }
                        }
                    }
                },
                None => {
                    proof {
                        assert(!known.contains_key(serial));
                        assert forall|s: Seq<char>| #[trigger] before.contains_key(s) && is_listed(
                            more,
                        )(s) implies was_stopped(stopped@, s) by {
                            if s == serial {
                                assert(is_listed(seen)(serial));
                            }
                        }
                    }
                },
            }
            i += 1;
        }
        assert(all.take(i as int) =~= all);
        stopped
    }

    /// Takes away the shims whose worker has ended.
    pub fn reap_dead_workers(&mut self, workers: &Table<WorkerStatus>) -> (r: Vec<StoppedCamera>)
        ensures
            managed_without(old(self).managed@, final(self).managed@, has_ended(workers@)),
            stops(old(self).managed@, r@, has_ended(workers@)),
            forall|serial: Seq<char>| #[trigger]
                final(self).managed@.contains_key(serial) <==> old(self).managed@.contains_key(
                    serial,
                ) && !(workers@.contains_key(serial) && workers@[serial].finished),
            final(self).serial_states == old(self).serial_states,
            old(self).wf() ==> final(self).wf(),
    {
        let ghost p = has_ended(workers@);
        let mut dead: Vec<String> = Vec::new();
        let mut i: usize = 0;
        let n: usize = self.managed.len();
        let ghost keys = self.managed.keys();
        let ghost before = self.managed@;
        while i < n
            invariant
                i <= n,
                n == keys.len(),
                keys == self.managed.keys(),
                p == has_ended(workers@),
                before == self.managed@,
                *self == *old(self),
                forall|s: Seq<char>| #[trigger]
                    texts(dead@).contains(s) <==> keys.take(i as int).contains(s) && p(s),
                forall|s: Seq<char>| #[trigger] before.contains_key(s) <==> keys.contains(s),
            decreases n - i,
        {
            let ghost listed = texts(dead@);
            let ghost key = keys[i as int];
            proof {
                assert(keys.take(i + 1) =~= keys.take(i as int).push(key));
                assert forall|s: Seq<char>| #[trigger] keys.take(i + 1).contains(s) <==> keys.take(
                    i as int,
                ).contains(s) || s == key by {
                    crate::order::lemma_push_contains(keys.take(i as int), key, s);
                }
                assert forall|s: Seq<char>| #[trigger] listed.push(key).contains(s) <==> (
                listed.contains(s) || s == key) by {
                    crate::order::lemma_push_contains(listed, key, s);
                }
            }
            let serial = self.managed.key_at(i);
            let ended = match workers.get(serial) {
                Some(worker) => worker.finished,
                None => false,
            };
            assert(ended == p(key));
            if ended {
                dead.push(serial.clone());
            }
            i += 1;
        }
        proof {
            assert(keys.take(i as int) =~= keys);
        }
        let stopped = self.remove_listed(&dead);
        proof {
            lemma_same_stops(before, self.managed@, stopped@, is_listed(texts(dead@)), p);
        }
        stopped
    }

    /// Takes away the shims whose worker hands over no frames.
    pub fn reap_stale_workers(
        &mut self,
        config: &ServeConfig,
        now_ms: u64,
        workers: &Table<WorkerStatus>,
    ) -> (r: Vec<StoppedCamera>)
        ensures
            managed_without(
                old(self).managed@,
                final(self).managed@,
                has_stalled(workers@, now_ms, config.stale_frame_timeout_ms),
            ),
            stops(
                old(self).managed@,
                r@,
                has_stalled(workers@, now_ms, config.stale_frame_timeout_ms),
            ),
            forall|serial: Seq<char>| #[trigger]
                final(self).managed@.contains_key(serial) <==> old(self).managed@.contains_key(
                    serial,
                ) && !(workers@.contains_key(serial) && !workers@[serial].finished && (
                workers@[serial].heartbeat_ms == 0 || now_ms > workers@[serial].heartbeat_ms
                    + config.stale_frame_timeout_ms)),
            final(self).serial_states == old(self).serial_states,
            old(self).wf() ==> final(self).wf(),
    {
        let ghost p = has_stalled(workers@, now_ms, config.stale_frame_timeout_ms);
        let mut stale: Vec<String> = Vec::new();
        let mut i: usize = 0;
        let n: usize = self.managed.len();
        let ghost keys = self.managed.keys();
        let ghost before = self.managed@;
        while i < n
            invariant
                i <= n,
                n == keys.len(),
                keys == self.managed.keys(),
                p == has_stalled(workers@, now_ms, config.stale_frame_timeout_ms),
                before == self.managed@,
                *self == *old(self),
                forall|s: Seq<char>| #[trigger]
                    texts(stale@).contains(s) <==> keys.take(i as int).contains(s) && p(s),
                forall|s: Seq<char>| #[trigger] before.contains_key(s) <==> keys.contains(s),
            decreases n - i,
        {
            let ghost listed = texts(stale@);
            let ghost key = keys[i as int];
            proof {
                assert(keys.take(i + 1) =~= keys.take(i as int).push(key));
                assert forall|s: Seq<char>| #[trigger] keys.take(i + 1).contains(s) <==> keys.take(
                    i as int,
                ).contains(s) || s == key by {
                    crate::order::lemma_push_contains(keys.take(i as int), key, s);
                }
                assert forall|s: Seq<char>| #[trigger] listed.push(key).contains(s) <==> (
                listed.contains(s) || s == key) by {
                    crate::order::lemma_push_contains(listed, key, s);
                }
            }
            let serial = self.managed.key_at(i);
            let stalled = match workers.get(serial) {
                Some(worker) => !worker.finished && heartbeat_stale(
                    worker.heartbeat_ms,
                    now_ms,
                    config.stale_frame_timeout_ms,
                ),
                None => false,
            };
            assert(stalled == p(key));
            if stalled {
                stale.push(serial.clone());
            }
            i += 1;
        }
        proof {
            assert(keys.take(i as int) =~= keys);
        }
        let stopped = self.remove_listed(&stale);
        proof {
            lemma_same_stops(before, self.managed@, stopped@, is_listed(texts(stale@)), p);
        }
        stopped
    }
}

/// A shim is taken away exactly when its worker has ended, and is handed out to be stopped then. The
/// others stay as they are.
pub proof fn lemma_dead_workers_are_reaped(
    before: Map<Seq<char>, ManagedCamera>,
    after: Map<Seq<char>, ManagedCamera>,
    stopped: Seq<StoppedCamera>,
    workers: Map<Seq<char>, WorkerStatus>,
    serial: Seq<char>,
)
    requires
        managed_without(before, after, has_ended(workers)),
        stops(before, stopped, has_ended(workers)),
        before.contains_key(serial),
    ensures
        workers.contains_key(serial) && workers[serial].finished ==> !after.contains_key(serial)
            && exists|i: int|
            0 <= i < stopped.len() && (#[trigger] stopped[i]).serial@ == serial && stopped[i].camera
                == before[serial],
        !(workers.contains_key(serial) && workers[serial].finished) ==> after.contains_key(serial)
            && after[serial] == before[serial] && forall|i: int|
            0 <= i < stopped.len() ==> (#[trigger] stopped[i]).serial@ != serial,
{
    assert(has_ended(workers)(serial) == (workers.contains_key(serial) && workers[serial].finished));
    if has_ended(workers)(serial) {
        assert(was_stopped(stopped, serial));
        let i = choose|i: int| 0 <= i < stopped.len() && (#[trigger] stopped[i]).serial@ == serial;
        assert(stopped[i].camera == before[serial]);
    } else {
        assert(after.contains_key(serial));
        assert forall|i: int| 0 <= i < stopped.len() implies (#[trigger] stopped[i]).serial@
            != serial by {
            assert(has_ended(workers)(stopped[i].serial@));
        }
    }
}

/// A shim whose worker runs is taken away exactly when no frame came for longer than the limit, or
/// none ever came. The others stay as they are.
pub proof fn lemma_silent_workers_are_reaped(
    before: Map<Seq<char>, ManagedCamera>,
    after: Map<Seq<char>, ManagedCamera>,
    stopped: Seq<StoppedCamera>,
    workers: Map<Seq<char>, WorkerStatus>,
    now_ms: u64,
    limit_ms: u64,
    serial: Seq<char>,
)
    requires
        managed_without(before, after, has_stalled(workers, now_ms, limit_ms)),
        stops(before, stopped, has_stalled(workers, now_ms, limit_ms)),
        before.contains_key(serial),
    ensures
        ({
            let silent = {
                &&& workers.contains_key(serial)
                &&& !workers[serial].finished
                &&& workers[serial].heartbeat_ms == 0 || now_ms > workers[serial].heartbeat_ms
                    + limit_ms
            };
            &&& silent ==> !after.contains_key(serial) && exists|i: int|
                0 <= i < stopped.len() && (#[trigger] stopped[i]).serial@ == serial
                    && stopped[i].camera == before[serial]
            &&& !silent ==> after.contains_key(serial) && after[serial] == before[serial]
                && forall|i: int|
                0 <= i < stopped.len() ==> (#[trigger] stopped[i]).serial@ != serial
        }),
{
    let p = has_stalled(workers, now_ms, limit_ms);
    if p(serial) {
        assert(was_stopped(stopped, serial));
        let i = choose|i: int| 0 <= i < stopped.len() && (#[trigger] stopped[i]).serial@ == serial;
        assert(stopped[i].camera == before[serial]);
    } else {
        assert(after.contains_key(serial));
        assert forall|i: int| 0 <= i < stopped.len() implies (#[trigger] stopped[i]).serial@
            != serial by {
            assert(p(stopped[i].serial@));
        }
    }
}

/// Two predicates that agree on the managed cameras stop the same ones.
proof fn lemma_same_stops(
    before: Map<Seq<char>, ManagedCamera>,
    after: Map<Seq<char>, ManagedCamera>,
    stopped: Seq<StoppedCamera>,
    p: spec_fn(Seq<char>) -> bool,
    q: spec_fn(Seq<char>) -> bool,
)
    requires
        managed_without(before, after, p),
        stops(before, stopped, p),
        forall|s: Seq<char>| #[trigger] before.contains_key(s) ==> p(s) == q(s),
    ensures
        managed_without(before, after, q),
        stops(before, stopped, q),
{
}

/// Cameras that are neither candidates nor present, as a predicate.
pub open spec fn is_unplugged(
    candidates: Seq<(Seq<char>, Seq<char>, Seq<char>)>,
    present: Seq<Seq<char>>,
) -> spec_fn(Seq<char>) -> bool {
    |serial: Seq<char>| !has_candidate(candidates, serial) && !present.contains(serial)
}

/// How the cameras that `p` names and that had a shim have fared is forgotten.
pub open spec fn states_forgotten(
    managed: Map<Seq<char>, ManagedCamera>,
    before: Map<Seq<char>, SerialState>,
    after: Map<Seq<char>, SerialState>,
    p: spec_fn(Seq<char>) -> bool,
) -> bool {
    &&& forall|serial: Seq<char>| #[trigger]
        after.contains_key(serial) <==> before.contains_key(serial) && !(managed.contains_key(
            serial,
        ) && p(serial))
    &&& forall|serial: Seq<char>| #[trigger]
        after.contains_key(serial) ==> after[serial] == before[serial]
}

/// A shim is taken away exactly when its camera is neither a candidate nor still plugged in, and then
/// nothing is left on record of the camera. Of the others nothing changes.
pub proof fn lemma_unplugged_cameras_are_forgotten(
    before: Supervisor,
    after: Supervisor,
    stopped: Seq<StoppedCamera>,
    candidates: Seq<ShimCandidate>,
    present: Seq<String>,
    serial: Seq<char>,
)
    requires
        managed_without(
            before.managed@,
            after.managed@,
            is_unplugged(candidate_views(candidates), texts(present)),
        ),
        stops(
            before.managed@,
            stopped,
            is_unplugged(candidate_views(candidates), texts(present)),
        ),
        states_forgotten(
            before.managed@,
            before.serial_states@,
            after.serial_states@,
            is_unplugged(candidate_views(candidates), texts(present)),
        ),
        before.managed@.contains_key(serial),
    ensures
        ({
            let plugged_in = (exists|i: int|
                0 <= i < candidates.len() && (#[trigger] candidates[i]).serial@ == serial) || (
            exists|i: int| 0 <= i < present.len() && (#[trigger] present[i])@ == serial);
            &&& after.managed@.contains_key(serial) <==> plugged_in
            &&& plugged_in ==> after.managed@[serial] == before.managed@[serial]
            &&& plugged_in ==> after.serial_states@.contains_key(serial)
                == before.serial_states@.contains_key(serial)
            &&& plugged_in && before.serial_states@.contains_key(serial)
                ==> after.serial_states@[serial] == before.serial_states@[serial]
            &&& !plugged_in ==> !after.serial_states@.contains_key(serial) && exists|i: int|
                0 <= i < stopped.len() && (#[trigger] stopped[i]).serial@ == serial
                    && stopped[i].camera == before.managed@[serial]
        }),
{
    let views = candidate_views(candidates);
    let p = is_unplugged(views, texts(present));
    assert(has_candidate(views, serial) <==> exists|i: int|
        0 <= i < candidates.len() && (#[trigger] candidates[i]).serial@ == serial) by {
        if has_candidate(views, serial) {
            let i = choose|i: int| 0 <= i < views.len() && (#[trigger] views[i]).0 == serial;
            assert(candidates[i].serial@ == serial);
        }
        if exists|i: int| 0 <= i < candidates.len() && (#[trigger] candidates[i]).serial@ == serial {
            let i = choose|i: int|
                0 <= i < candidates.len() && (#[trigger] candidates[i]).serial@ == serial;
            assert(views[i].0 == serial);
        }
    }
    assert(texts(present).contains(serial) <==> exists|i: int|
        0 <= i < present.len() && (#[trigger] present[i])@ == serial) by {
        if texts(present).contains(serial) {
            let i = choose|i: int| 0 <= i < texts(present).len() && texts(present)[i] == serial;
            assert(present[i]@ == serial);
        }
        if exists|i: int| 0 <= i < present.len() && (#[trigger] present[i])@ == serial {
            let i = choose|i: int| 0 <= i < present.len() && (#[trigger] present[i])@ == serial;
            assert(texts(present)[i] == serial);
        }
    }
    if p(serial) {
        assert(was_stopped(stopped, serial));
        let i = choose|i: int| 0 <= i < stopped.len() && (#[trigger] stopped[i]).serial@ == serial;
        assert(stopped[i].camera == before.managed@[serial]);
    } else {
        assert(after.managed@.contains_key(serial));
        if before.serial_states@.contains_key(serial) {
            assert(after.serial_states@.contains_key(serial));
        }
    }
}

/// What is done about a candidate.
#[derive(Debug)]
pub enum CandidateStep {
    /// It has a shim already.
    Keep,
    /// It is in quarantine.
    Quarantined,
    /// It failed a short while ago.
    Backoff,
    /// A shim is to be started, once the one that it has, if any, was stopped.
    Start(Option<ManagedCamera>),
}

/// The shim of a camera reads from a device that is gone or is not the camera's any more.
pub open spec fn source_stale(
    source_path: Seq<char>,
    candidate_path: Seq<char>,
    source_exists: bool,
) -> bool {
    !source_exists || file_name_of(source_path) != file_name_of(candidate_path)
}

/// Whether the shim of a camera reads from a device that is gone or is not the camera's any more.
pub fn managed_source_stale(
    camera: &ManagedCamera,
    candidate: &ShimCandidate,
    source_exists: bool,
) -> (r: bool)
    ensures
        r == source_stale(camera.source_path@, candidate.source_path@, source_exists),
{
    if !source_exists {
        return true;
    }
    match (file_name(&camera.source_path), file_name(&candidate.source_path)) {
        (Some(a), Some(b)) => !str_eq(&a, &b),
        (None, None) => false,
        _ => true,
    }
}

/// What is decided about a candidate, and what becomes of the supervisor.
pub open spec fn is_considered(
    before: Supervisor,
    after: Supervisor,
    candidate: (Seq<char>, Seq<char>, Seq<char>),
    source_exists: bool,
    now_ns: u64,
    r: CandidateStep,
) -> bool {
    let serial = candidate.0;
    let managed = before.managed@;
    let states = before.serial_states@;
    if managed.contains_key(serial) {
        if source_stale(managed[serial].source_path@, candidate.1, source_exists) {
            &&& r == CandidateStep::Start(Some(managed[serial]))
            &&& after.managed@ == managed.remove(serial)
            &&& after.serial_states@ == states.insert(serial, fresh_state())
        } else {
            &&& r is Keep
            &&& after == before
        }
    } else {
        let state = state_of(states, serial);
        &&& after.managed@ == managed
        &&& after.serial_states@ == states.insert(serial, state)
        &&& r == if may_start(state, now_ns) {
            CandidateStep::Start(None)
        } else if in_quarantine(state, now_ns) {
            CandidateStep::Quarantined
        } else {
            CandidateStep::Backoff
        }
    }
}

impl Supervisor {
    /// Takes away the shims of cameras that were unplugged, and forgets how they have fared.
    pub fn unplug(&mut self, candidates: &Vec<ShimCandidate>, present: &Vec<String>) -> (r: Vec<
        StoppedCamera,
    >)
        ensures
            managed_without(
                old(self).managed@,
                final(self).managed@,
                is_unplugged(candidate_views(candidates@), texts(present@)),
            ),
            stops(
                old(self).managed@,
                r@,
                is_unplugged(candidate_views(candidates@), texts(present@)),
            ),
            states_forgotten(
                old(self).managed@,
                old(self).serial_states@,
                final(self).serial_states@,
                is_unplugged(candidate_views(candidates@), texts(present@)),
            ),
            old(self).wf() ==> final(self).wf(),
    {
        let ghost p = is_unplugged(candidate_views(candidates@), texts(present@));
        let mut gone: Vec<String> = Vec::new();
        let mut i: usize = 0;
        let n: usize = self.managed.len();
        let ghost keys = self.managed.keys();
        let ghost before = self.managed@;
        let ghost states = self.serial_states@;
        while i < n
            invariant
                i <= n,
                n == keys.len(),
                keys == self.managed.keys(),
                p == is_unplugged(candidate_views(candidates@), texts(present@)),
                before == self.managed@,
                *self == *old(self),
                forall|s: Seq<char>| #[trigger]
                    texts(gone@).contains(s) <==> keys.take(i as int).contains(s) && p(s),
                forall|s: Seq<char>| #[trigger] before.contains_key(s) <==> keys.contains(s),
            decreases n - i,
        {
            let ghost listed = texts(gone@);
            let ghost key = keys[i as int];
            proof {
                assert(keys.take(i + 1) =~= keys.take(i as int).push(key));
                assert forall|s: Seq<char>| #[trigger] keys.take(i + 1).contains(s) <==> keys.take(
                    i as int,
                ).contains(s) || s == key by {
                    crate::order::lemma_push_contains(keys.take(i as int), key, s);
                }
                assert forall|s: Seq<char>| #[trigger] listed.push(key).contains(s) <==> (
                listed.contains(s) || s == key) by {
                    crate::order::lemma_push_contains(listed, key, s);
                }
            }
            let serial = self.managed.key_at(i);
            let unplugged = !knows_serial(candidates, serial) && !has_text(present, serial);
            assert(unplugged == p(key));
            if unplugged {
                gone.push(serial.clone());
            }
            i += 1;
        }
        proof {
            assert(keys.take(i as int) =~= keys);
        }
        let stopped = self.remove_listed(&gone);
        proof {
            lemma_same_stops(before, self.managed@, stopped@, is_listed(texts(gone@)), p);
        }
        let ghost managed = self.managed;
        let mut k: usize = 0;
        while k < stopped.len()
            invariant
                k <= stopped@.len(),
                self.managed == managed,
                forall|serial: Seq<char>| #[trigger]
                    self.serial_states@.contains_key(serial) <==> states.contains_key(serial)
                        && !was_stopped(stopped@.take(k as int), serial),
                forall|serial: Seq<char>| #[trigger]
                    self.serial_states@.contains_key(serial) ==> self.serial_states@[serial]
                        == states[serial],
            decreases stopped@.len() - k,
        {
            let ghost seen = stopped@.take(k as int);
            let ghost more = stopped@.take(k + 1);
            let ghost serial = stopped@[k as int].serial@;
            proof {
                assert forall|s: Seq<char>| #[trigger] was_stopped(more, s) <==> was_stopped(seen, s)
                    || s == serial by {
                    if was_stopped(more, s) {
                        let j = choose|j: int|
                            0 <= j < more.len() && (#[trigger] more[j]).serial@ == s;
                        if j < k {
                            assert(seen[j].serial@ == s);
                        }
                    }
                    if was_stopped(seen, s) {
                        let j = choose|j: int|
                            0 <= j < seen.len() && (#[trigger] seen[j]).serial@ == s;
                        assert(more[j].serial@ == s);
                    }
                    assert(more[k as int].serial@ == serial);
                }
            }
            let _ = self.serial_states.remove(&stopped[k].serial);
            k += 1;
        }
        proof {
            assert(stopped@.take(k as int) =~= stopped@);
            assert forall|s: Seq<char>| #[trigger] was_stopped(stopped@, s) <==> (
            before.contains_key(s) && p(s)) by {
                if was_stopped(stopped@, s) {
                    let j = choose|j: int|
                        0 <= j < stopped@.len() && (#[trigger] stopped@[j]).serial@ == s;
                    assert(before.contains_key(stopped@[j].serial@));
                }
            }
        }
        stopped
    }

    /// Decides about a candidate, given whether the device that its shim reads from is still there.
    /// A camera with a shim keeps it unless its device changed: then it gets a new one, and its
    /// earlier failures do not count. Another camera gets one if it may be started.
    pub fn consider(&mut self, candidate: &ShimCandidate, source_exists: bool, now_ns: u64) -> (r:
        CandidateStep)
        ensures
            is_considered(*old(self), *final(self), candidate@, source_exists, now_ns, r),
            !old(self).managed@.contains_key(candidate.serial@) ==> (r is Start <==> !(old(
                self,
            ).serial_states@.contains_key(candidate.serial@) && (old(
                self,
            ).serial_states@[candidate.serial@].retry_after matches Some(until) && now_ns < until))
                && !(old(self).serial_states@.contains_key(candidate.serial@) && (old(
                self,
            ).serial_states@[candidate.serial@].quarantined_until matches Some(until) && now_ns < until))),
            r is Start ==> may_start(
                state_of(final(self).serial_states@, candidate.serial@),
                now_ns,
            ),
            r is Start ==> !final(self).managed@.contains_key(candidate.serial@),
            old(self).wf() ==> final(self).wf(),
    {
        let restart = match self.managed.get(&candidate.serial) {
            Some(camera) => {
                if !managed_source_stale(camera, candidate, source_exists) {
                    return CandidateStep::Keep;
                }
                true
            },
            None => false,
        };
        if restart {
            let camera = self.managed.remove(&candidate.serial);
            self.serial_states.insert(candidate.serial.clone(), SerialState::default());
            return CandidateStep::Start(camera);
        }
        let state: SerialState = match self.serial_states.get(&candidate.serial) {
            Some(state) => *state,
            None => SerialState::default(),
        };
        self.serial_states.insert(candidate.serial.clone(), state);
        if state.can_start(now_ns) {
            CandidateStep::Start(None)
        } else if state.is_quarantined(now_ns) {
            CandidateStep::Quarantined
        } else {
            CandidateStep::Backoff
        }
    }

    /// Notes that a shim was started.
    pub fn started(&mut self, serial: &str, camera: ManagedCamera)
        ensures
            final(self).managed@ == old(self).managed@.insert(serial@, camera),
            final(self).serial_states@ == old(self).serial_states@.insert(serial@, fresh_state()),
            old(self).wf() ==> final(self).wf(),
    {
        self.serial_states.insert(serial.to_string(), SerialState::default());
        self.managed.insert(serial.to_string(), camera);
    }

    /// Notes that the shim of a camera failed: that it could not be started, or that its worker was
    /// taken away. The time is that of the note, when what has failed is over.
    pub fn note_failure(&mut self, serial: &str, config: &ServeConfig, now_ns: u64)
        ensures
            final(self).managed == old(self).managed,
            final(self).serial_states@ == old(self).serial_states@.insert(
                serial@,
                after_failure(state_of(old(self).serial_states@, serial@), *config, now_ns),
            ),
            old(self).wf() && !old(self).managed@.contains_key(serial@) ==> final(self).wf(),
    {
        let mut state: SerialState = match self.serial_states.get(serial) {
            Some(state) => *state,
            None => SerialState::default(),
        };
        state.record_failure(config, now_ns);
        self.serial_states.insert(serial.to_string(), state);
    }
}

/// For a camera without a shim the times on record decide alone, however often it has failed: a shim
/// is started once the camera is past the time of its next try and past its quarantine. Nothing
/// changes on record.
pub proof fn lemma_start_when_no_wait_is_left(
    before: Supervisor,
    after: Supervisor,
    candidate: (Seq<char>, Seq<char>, Seq<char>),
    source_exists: bool,
    now_ns: u64,
    r: CandidateStep,
)
    requires
        is_considered(before, after, candidate, source_exists, now_ns, r),
        !before.managed@.contains_key(candidate.0),
    ensures
        ({
            let known = before.serial_states@.contains_key(candidate.0);
            let state = before.serial_states@[candidate.0];
            let retry_is_ahead = known && (state.retry_after matches Some(until) && now_ns < until);
            let quarantine_is_ahead = known && (state.quarantined_until matches Some(until)
                && now_ns < until);
            &&& r is Start <==> !retry_is_ahead && !quarantine_is_ahead
            &&& r is Start ==> r == CandidateStep::Start(None)
            &&& r is Quarantined <==> quarantine_is_ahead
            &&& r is Backoff <==> retry_is_ahead && !quarantine_is_ahead
            &&& known ==> after.serial_states@ == before.serial_states@
            &&& forall|serial: Seq<char>|
                serial != candidate.0 ==> (#[trigger] after.serial_states@.contains_key(serial)
                    <==> before.serial_states@.contains_key(serial))
        }),
        after.managed@ == before.managed@,
{
    if before.serial_states@.contains_key(candidate.0) {
        assert(after.serial_states@ =~= before.serial_states@);
    }
}

/// A camera that failed is tried again: not before the shortest wait is over, and at the latest when
/// the longest wait and the quarantine are over. After a first failure that is not yet one too many
/// the wait is the base time, and after one too many the camera is in quarantine until that ends.
pub proof fn lemma_failed_camera_is_tried_again(
    before: Supervisor,
    noted: Supervisor,
    after: Supervisor,
    config: ServeConfig,
    failed_ns: u64,
    candidate: (Seq<char>, Seq<char>, Seq<char>),
    source_exists: bool,
    now_ns: u64,
    r: CandidateStep,
)
    requires
        before.wf(),
        !before.managed@.contains_key(candidate.0),
        noted.managed == before.managed,
        noted.serial_states@ == before.serial_states@.insert(
            candidate.0,
            after_failure(state_of(before.serial_states@, candidate.0), config, failed_ns),
        ),
        is_considered(noted, after, candidate, source_exists, now_ns, r),
    ensures
        ({
            let first_wait = if config.backoff_base_ms < config.max_backoff_ms {
                config.backoff_base_ms as int
            } else {
                config.max_backoff_ms as int
            };
            let known = before.serial_states@.contains_key(candidate.0);
            let failures = if known {
                before.serial_states@[candidate.0].consecutive_failures as int
            } else {
                0
            };
            let was_quarantined_until = if known {
                before.serial_states@[candidate.0].quarantined_until
            } else {
                None
            };
            &&& now_ns < failed_ns + first_wait * 1_000_000 ==> !(r is Start)
            &&& now_ns >= failed_ns + config.max_backoff_ms * 1_000_000 && now_ns >= failed_ns
                + config.quarantine_duration_ms * 1_000_000 && !(was_quarantined_until matches Some(
                until,
            ) && now_ns < until) ==> r == CandidateStep::Start(None)
            &&& failures == 0 && config.max_failures > 1 ==> (r == CandidateStep::Start(None)
                <==> now_ns >= failed_ns + first_wait * 1_000_000)
            &&& failures + 1 >= config.max_failures && now_ns < failed_ns
                + config.quarantine_duration_ms * 1_000_000 ==> r is Quarantined
        }),
{
    let state = state_of(before.serial_states@, candidate.0);
    let failures = one_more(state.consecutive_failures);
    assert(failures >= 1);
    lemma_waits_grow(config, failures as int);
    lemma_backoff_grows(config, failures as int);
    lemma_backoff_grows(config, 1);
    let wait = backoff_ms(failures as int, config);
    assert(later_by(failed_ns, wait) == failed_ns + wait * 1_000_000);
    assert(later_by(failed_ns, config.quarantine_duration_ms as int) == failed_ns
        + config.quarantine_duration_ms * 1_000_000);
    assert(noted.serial_states@[candidate.0] == after_failure(state, config, failed_ns));
    if state.consecutive_failures == 0 {
        assert(state.quarantined_until is None);
    }
    lemma_start_when_no_wait_is_left(noted, after, candidate, source_exists, now_ns, r);
}

proof fn lemma_waits_grow(config: ServeConfig, failures: int)
    requires
        failures >= 1,
    ensures
        backoff_ms(1, config) <= backoff_ms(failures, config),
    decreases failures,
{
    if failures > 1 {
        lemma_waits_grow(config, failures - 1);
        lemma_backoff_grows(config, failures - 1);
    }
}

/// A camera with a shim keeps it while its device is there under the same path. Where the device is
/// gone, the shim is replaced whatever is on record of the camera, and the record starts anew.
pub proof fn lemma_shim_follows_its_device(
    before: Supervisor,
    after: Supervisor,
    candidate: (Seq<char>, Seq<char>, Seq<char>),
    source_exists: bool,
    now_ns: u64,
    r: CandidateStep,
)
    requires
        is_considered(before, after, candidate, source_exists, now_ns, r),
        before.managed@.contains_key(candidate.0),
    ensures
        r is Keep || r is Start,
        source_exists && before.managed@[candidate.0].source_path@ == candidate.1 ==> r is Keep,
        source_exists && file_name_of(before.managed@[candidate.0].source_path@) != file_name_of(
            candidate.1,
        ) ==> r is Start,
        !source_exists ==> r is Start,
        r is Keep ==> after == before,
        r is Start ==> {
            &&& r == CandidateStep::Start(Some(before.managed@[candidate.0]))
            &&& after.managed@ == before.managed@.remove(candidate.0)
            &&& after.serial_states@.contains_key(candidate.0)
            &&& after.serial_states@[candidate.0].consecutive_failures == 0
            &&& after.serial_states@[candidate.0].retry_after is None
            &&& after.serial_states@[candidate.0].quarantined_until is None
        },
{
}

/// A camera that has a shim is not in quarantine, has no failures on record and may be restarted at
/// any time.
pub proof fn lemma_managed_camera_is_sound(supervisor: Supervisor, serial: Seq<char>, now_ns: u64)
    requires
        supervisor.wf(),
        supervisor.managed@.contains_key(serial),
    ensures
        state_of(supervisor.serial_states@, serial) == fresh_state(),
        !in_quarantine(state_of(supervisor.serial_states@, serial), now_ns),
        may_start(state_of(supervisor.serial_states@, serial), now_ns),
{
}

/// When a worker last handed over a frame.
pub open spec fn heartbeat_of(workers: Map<Seq<char>, WorkerStatus>, serial: Seq<char>) -> u64 {
    if workers.contains_key(serial) {
        workers[serial].heartbeat_ms
    } else {
        0
    }
}

/// A managed camera as the state file shows it.
pub open spec fn managed_snapshot(
    supervisor: Supervisor,
    workers: Map<Seq<char>, WorkerStatus>,
    now_ns: u64,
    serial: Seq<char>,
) -> ManagedModel {
    let state = state_of(supervisor.serial_states@, serial);
    ManagedModel {
        serial,
        loopback_path: supervisor.managed@[serial].loopback_path@,
        consecutive_failures: state.consecutive_failures,
        quarantined: in_quarantine(state, now_ns),
        last_heartbeat_ms: heartbeat_of(workers, serial),
    }
}

/// The managed cameras as the state file shows them.
pub open spec fn managed_snapshots(
    supervisor: Supervisor,
    workers: Map<Seq<char>, WorkerStatus>,
    now_ns: u64,
) -> Seq<ManagedModel> {
    supervisor.managed.keys().map_values(
        |serial: Seq<char>| managed_snapshot(supervisor, workers, now_ns, serial),
    )
}

/// Cameras in quarantine, as a predicate.
pub open spec fn is_in_quarantine(
    states: Map<Seq<char>, SerialState>,
    now_ns: u64,
) -> spec_fn(Seq<char>) -> bool {
    |serial: Seq<char>| in_quarantine(states[serial], now_ns)
}

/// The state of the supervisor, as the state file shows it.
pub fn state_snapshot(
    supervisor: &Supervisor,
    workers: &Table<WorkerStatus>,
    now_ns: u64,
    now_ms: u64,
) -> (r: SupervisorStateSnapshot)
    ensures
        is_state_snapshot(*supervisor, workers@, now_ns, now_ms, r),
        r.updated_at_ms == now_ms,
        crate::runtime::managed_models(r.managed@) == managed_snapshots(
            *supervisor,
            workers@,
            now_ns,
        ),
        texts(r.quarantined@) == supervisor.serial_states.keys().filter(
            is_in_quarantine(supervisor.serial_states@, now_ns),
        ),
{
    let mut managed: Vec<ManagedCameraSnapshot> = Vec::new();
    let ghost all = managed_snapshots(*supervisor, workers@, now_ns);
    let n: usize = supervisor.managed.len();
    let mut i: usize = 0;
    assert(crate::runtime::managed_models(managed@) =~= all.take(0));
    while i < n
        invariant
            i <= n,
            n == supervisor.managed.keys().len(),
            all == managed_snapshots(*supervisor, workers@, now_ns),
            crate::runtime::managed_models(managed@) == all.take(i as int),
        decreases n - i,
    {
        let ghost before = managed@;
        let serial = supervisor.managed.key_at(i);
        let camera = supervisor.managed.value_at(i);
        let state: SerialState = match supervisor.serial_states.get(serial) {
            Some(state) => *state,
            None => SerialState::default(),
        };
        let last_heartbeat_ms: u64 = match workers.get(serial) {
            Some(worker) => worker.heartbeat_ms,
            None => 0,
        };
        let entry = ManagedCameraSnapshot {
            serial: serial.clone(),
            loopback_path: camera.loopback_path.clone(),
            consecutive_failures: state.consecutive_failures,
            quarantined: state.is_quarantined(now_ns),
            last_heartbeat_ms,
        };
        assert(entry@ =~= all[i as int]);
        managed.push(entry);
        assert(crate::runtime::managed_models(managed@) =~= crate::runtime::managed_models(
            before,
        ).push(entry@));
        assert(all.take(i + 1) =~= all.take(i as int).push(entry@));
        i += 1;
    }
    assert(all.take(i as int) =~= all);
    let mut quarantined: Vec<String> = Vec::new();
    let ghost keys = supervisor.serial_states.keys();
    let ghost p = is_in_quarantine(supervisor.serial_states@, now_ns);
    let m: usize = supervisor.serial_states.len();
    let mut k: usize = 0;
    proof {
        crate::split::lemma_filter_nothing(keys, p);
        assert(texts(quarantined@) =~= keys.take(0).filter(p));
    }
    while k < m
        invariant
            k <= m,
            m == keys.len(),
            keys == supervisor.serial_states.keys(),
            p == is_in_quarantine(supervisor.serial_states@, now_ns),
            texts(quarantined@) == keys.take(k as int).filter(p),
        decreases m - k,
    {
        proof {
            crate::split::lemma_filter_step(keys, p, k as int);
        }
        let state = supervisor.serial_states.value_at(k);
        if state.is_quarantined(now_ns) {
            quarantined.push(supervisor.serial_states.key_at(k).clone());
        }
        k += 1;
    }
    proof {
        crate::split::lemma_filter_nothing(keys, p);
    }
    SupervisorStateSnapshot { updated_at_ms: now_ms, managed, quarantined }
}

/// The state file shows every camera with a shim once, with its device, its failures and its last
/// frame, and names in quarantine exactly the cameras whose quarantine has not ended.
pub proof fn lemma_state_shows_all(
    supervisor: Supervisor,
    workers: Map<Seq<char>, WorkerStatus>,
    now_ns: u64,
    now_ms: u64,
    r: SupervisorStateSnapshot,
    serial: Seq<char>,
)
    requires
        is_state_snapshot(supervisor, workers, now_ns, now_ms, r),
        forall|key: Seq<char>| #[trigger]
            supervisor.managed@.contains_key(key) <==> supervisor.managed.keys().contains(key),
        forall|key: Seq<char>| #[trigger]
            supervisor.serial_states@.contains_key(key)
                <==> supervisor.serial_states.keys().contains(key),
    ensures
        r.updated_at_ms == now_ms,
        supervisor.managed@.contains_key(serial) ==> exists|k: int|
            0 <= k < r.managed@.len() && (#[trigger] r.managed@[k]).serial@ == serial,
        forall|k: int|
            0 <= k < r.managed@.len() && (#[trigger] r.managed@[k]).serial@ == serial ==> {
                &&& supervisor.managed@.contains_key(serial)
                &&& r.managed@[k].loopback_path@ == supervisor.managed@[serial].loopback_path@
                &&& supervisor.serial_states@.contains_key(serial)
                    ==> r.managed@[k].consecutive_failures
                    == supervisor.serial_states@[serial].consecutive_failures
                &&& workers.contains_key(serial) ==> r.managed@[k].last_heartbeat_ms
                    == workers[serial].heartbeat_ms
                &&& !workers.contains_key(serial) ==> r.managed@[k].last_heartbeat_ms == 0
                &&& r.managed@[k].quarantined <==> supervisor.serial_states@.contains_key(serial)
                    && (supervisor.serial_states@[serial].quarantined_until matches Some(until)
                    && now_ns < until)
            },
        (exists|k: int| 0 <= k < r.quarantined@.len() && (#[trigger] r.quarantined@[k])@ == serial)
            <==> supervisor.serial_states@.contains_key(serial) && (
        supervisor.serial_states@[serial].quarantined_until matches Some(until) && now_ns < until),
{
    broadcast use vstd::seq_lib::group_filter_ensures;

    let keys = supervisor.managed.keys();
    let models = crate::runtime::managed_models(r.managed@);
    assert(models.len() == r.managed@.len());
    assert(models.len() == keys.len());
    if supervisor.managed@.contains_key(serial) {
        let k = choose|k: int| 0 <= k < keys.len() && keys[k] == serial;
        assert(models[k] == r.managed@[k]@);
        assert(r.managed@[k].serial@ == serial);
    }
    assert forall|k: int|
        0 <= k < r.managed@.len() && (#[trigger] r.managed@[k]).serial@ == serial implies keys[k]
        == serial && models[k] == managed_snapshot(supervisor, workers, now_ns, serial) && models[k]
        == r.managed@[k]@ && keys.contains(serial) by {
        assert(models[k] == r.managed@[k]@);
        assert(models[k] == managed_snapshot(supervisor, workers, now_ns, keys[k]));
    }
    let known = supervisor.serial_states.keys();
    let p = is_in_quarantine(supervisor.serial_states@, now_ns);
    let listed = texts(r.quarantined@);
    assert(listed == known.filter(p));
    if exists|k: int| 0 <= k < r.quarantined@.len() && (#[trigger] r.quarantined@[k])@ == serial {
        let k = choose|k: int|
            0 <= k < r.quarantined@.len() && (#[trigger] r.quarantined@[k])@ == serial;
        assert(listed[k] == serial);
        assert(known.filter(p).contains(serial));
        known.lemma_filter_contains_rev(p, serial);
        assert(p(serial));
    }
    if supervisor.serial_states@.contains_key(serial) && p(serial) {
        let k = choose|k: int| 0 <= k < known.len() && known[k] == serial;
        assert(known.filter(p).contains(known[k]));
        let m = choose|m: int| 0 <= m < listed.len() && listed[m] == serial;
        assert(r.quarantined@[m]@ == serial);
    }
}

/// The state of the supervisor, as the state file shows it.
pub open spec fn is_state_snapshot(
    supervisor: Supervisor,
    workers: Map<Seq<char>, WorkerStatus>,
    now_ns: u64,
    now_ms: u64,
    r: SupervisorStateSnapshot,
) -> bool {
    &&& r.updated_at_ms == now_ms
    &&& crate::runtime::managed_models(r.managed@) == managed_snapshots(
        supervisor,
        workers,
        now_ns,
    )
    &&& texts(r.quarantined@) == supervisor.serial_states.keys().filter(
        is_in_quarantine(supervisor.serial_states@, now_ns),
    )
}

/// The shim of a camera is set up.
pub open spec fn is_shim_config(
    candidate: (Seq<char>, Seq<char>, Seq<char>),
    loopback_path: Seq<char>,
    config: ServeConfig,
    r: ShimConfig,
) -> bool {
    &&& r.source_path@ == candidate.1
    &&& r.target_path@ == loopback_path
    &&& r.target_fps == config.target_fps
    &&& r.max_capture_width == config.max_capture_width
    &&& r.max_capture_height == config.max_capture_height
}

/// Every shim reads from its own camera and writes to its own virtual camera; the shims of two cameras
/// agree in everything else.
pub proof fn lemma_shims_are_set_up_alike(
    first: (Seq<char>, Seq<char>, Seq<char>),
    first_path: Seq<char>,
    second: (Seq<char>, Seq<char>, Seq<char>),
    second_path: Seq<char>,
    config: ServeConfig,
    a: ShimConfig,
    b: ShimConfig,
)
    requires
        is_shim_config(first, first_path, config, a),
        is_shim_config(second, second_path, config, b),
    ensures
        a.source_path@ == first.1 && a.target_path@ == first_path,
        first.1 != second.1 ==> a.source_path@ != b.source_path@,
        first_path != second_path ==> a.target_path@ != b.target_path@,
        a.target_fps == b.target_fps && a.target_fps == config.target_fps,
        a.max_capture_width == b.max_capture_width && a.max_capture_width
            == config.max_capture_width,
        a.max_capture_height == b.max_capture_height && a.max_capture_height
            == config.max_capture_height,
{
}

/// What the shim of a candidate runs with.
pub fn shim_config_for(
    candidate: &ShimCandidate,
    loopback_path: &str,
    config: &ServeConfig,
) -> (r: ShimConfig)
    ensures
        is_shim_config(candidate@, loopback_path@, *config, r),
        r.source_path@ == candidate.source_path@,
        r.target_path@ == loopback_path@,
        r.target_fps == config.target_fps,
        r.max_capture_width == config.max_capture_width,
        r.max_capture_height == config.max_capture_height,
{
    ShimConfig {
        source_path: candidate.source_path.clone(),
        target_path: loopback_path.to_string(),
        target_fps: config.target_fps,
        max_capture_width: config.max_capture_width,
        max_capture_height: config.max_capture_height,
    }
}

/// For how long the supervisor has not been at work, in milliseconds, where that is longer than the
/// limit. Before it first was at work, it is not late.
pub fn watchdog_stall(now_ms: u64, last_reconcile_ms: u64, limit_ms: u64) -> (r: Option<u64>)
    ensures
        match r {
            Some(age) => last_reconcile_ms != 0 && age == age_ms(now_ms, last_reconcile_ms) && age
                > limit_ms,
            None => last_reconcile_ms == 0 || age_ms(now_ms, last_reconcile_ms) <= limit_ms,
        },
        r is Some <==> last_reconcile_ms != 0 && now_ms > last_reconcile_ms + limit_ms,
        r matches Some(age) ==> age == now_ms - last_reconcile_ms,
{
    if last_reconcile_ms == 0 {
        return None;
    }
    let age: u64 = age_ms_since(now_ms, last_reconcile_ms);
    if age > limit_ms {
        Some(age)
    } else {
        None
    }
}

/// How the supervisor waits between two rounds.
#[derive(Debug)]
pub struct ServeLoop {
    /// The hotplug monitor runs.
    pub hotplug_active: bool,
    /// Until when discovery is tried again after a camera was plugged in, in nanoseconds.
    pub settle_until_ns: Option<u128>,
}

/// What ended a wait.
#[derive(Debug, Clone, Copy, PartialEq, Eq, Structural)]
pub enum WaitEvent {
    /// A camera came or went.
    Hotplug,
    /// The time was up.
    Timeout,
    /// The hotplug monitor is gone.
    MonitorGone,
}

/// Discovery is being tried again.
pub open spec fn is_settling(settle_until_ns: Option<u128>, now_ns: u64) -> bool {
    settle_until_ns matches Some(until) && now_ns < until
}

/// For how long a loop waits, in milliseconds.
pub open spec fn wait_of(serve: ServeLoop, config: ServeConfig, now_ns: u64) -> u64 {
    if is_settling(serve.settle_until_ns, now_ns) && HOTPLUG_SETTLE_RETRY_MS
        < config.poll_interval_ms {
        HOTPLUG_SETTLE_RETRY_MS
    } else {
        config.poll_interval_ms
    }
}

/// A loop after a wait.
pub open spec fn after_wait(serve: ServeLoop, event: WaitEvent, now_ns: u64) -> ServeLoop {
    ServeLoop {
        hotplug_active: serve.hotplug_active && event != WaitEvent::MonitorGone,
        settle_until_ns: match event {
            WaitEvent::Hotplug => Some(later_by(now_ns, HOTPLUG_SETTLE_MS as int)),
            _ => serve.settle_until_ns,
        },
    }
}

/// A loop after a round.
pub open spec fn after_round(serve: ServeLoop, started_shim: bool) -> ServeLoop {
    ServeLoop {
        settle_until_ns: if started_shim {
            None
        } else {
            serve.settle_until_ns
        },
        ..serve
    }
}

/// After a camera was plugged in, the loop looks again every 250 ms, or as often as it polls where
/// that is more often, until 2 s have passed or a shim was started; rounds on other occasions do not
/// change that. At all other times it waits for the poll interval.
pub proof fn lemma_plug_is_followed_up(
    serve: ServeLoop,
    config: ServeConfig,
    plugged_ns: u64,
    between_ns: u64,
    now_ns: u64,
)
    ensures
        ({
            let plugged = after_wait(serve, WaitEvent::Hotplug, plugged_ns);
            let looked = after_round(plugged, false);
            let polled = after_round(after_wait(looked, WaitEvent::Timeout, between_ns), false);
            let often = if config.poll_interval_ms < 250 {
                config.poll_interval_ms as int
            } else {
                250
            };
            &&& now_ns < plugged_ns + 2_000_000_000 ==> wait_of(plugged, config, now_ns) == often
                && wait_of(looked, config, now_ns) == often && wait_of(polled, config, now_ns)
                == often
            &&& now_ns >= plugged_ns + 2_000_000_000 ==> wait_of(looked, config, now_ns)
                == config.poll_interval_ms && wait_of(polled, config, now_ns)
                == config.poll_interval_ms
            &&& wait_of(after_round(plugged, true), config, now_ns) == config.poll_interval_ms
            &&& serve.settle_until_ns is None ==> wait_of(serve, config, now_ns)
                == config.poll_interval_ms
        }),
        after_wait(serve, WaitEvent::Hotplug, plugged_ns).hotplug_active == serve.hotplug_active,
        after_wait(serve, WaitEvent::Timeout, plugged_ns) == serve,
        after_round(serve, true).hotplug_active == serve.hotplug_active,
        !after_wait(serve, WaitEvent::MonitorGone, plugged_ns).hotplug_active,
        after_wait(serve, WaitEvent::MonitorGone, plugged_ns).settle_until_ns
            == serve.settle_until_ns,
{
}

impl ServeLoop {
    /// A loop that is about to wait for the first time.
    pub fn new(hotplug_active: bool) -> (r: Self)
        ensures
            r.hotplug_active == hotplug_active,
            r.settle_until_ns is None,
    {
        ServeLoop { hotplug_active, settle_until_ns: None }
    }

    /// For how long to wait, in milliseconds: the poll interval, or less while discovery is being
    /// tried again.
    pub fn wait_ms(&self, config: &ServeConfig, now_ns: u64) -> (r: u64)
        ensures
            r == if is_settling(self.settle_until_ns, now_ns) && HOTPLUG_SETTLE_RETRY_MS
                < config.poll_interval_ms {
                HOTPLUG_SETTLE_RETRY_MS
            } else {
                config.poll_interval_ms
            },
            r == wait_of(*self, *config, now_ns),
    {
        if let Some(until) = self.settle_until_ns {
            if (now_ns as u128) < until && HOTPLUG_SETTLE_RETRY_MS < config.poll_interval_ms {
                return HOTPLUG_SETTLE_RETRY_MS;
            }
        }
        config.poll_interval_ms
    }

    /// Takes note of what ended a wait. Whether a round follows: always, but for the first wait
    /// after the hotplug monitor has gone, after which the loop only polls.
    pub fn waited(&mut self, event: WaitEvent, now_ns: u64) -> (r: bool)
        ensures
            r == (event != WaitEvent::MonitorGone),
            final(self).hotplug_active == (old(self).hotplug_active && event
                != WaitEvent::MonitorGone),
            final(self).settle_until_ns == match event {
                WaitEvent::Hotplug => Some(later_by(now_ns, HOTPLUG_SETTLE_MS as int)),
                _ => old(self).settle_until_ns,
            },
            *final(self) == after_wait(*old(self), event, now_ns),
    {
        match event {
            WaitEvent::Hotplug => {
                self.settle_until_ns = Some(
                    now_ns as u128 + HOTPLUG_SETTLE_MS as u128 * 1_000_000,
                );
                true
            },
            WaitEvent::Timeout => true,
            WaitEvent::MonitorGone => {
                self.hotplug_active = false;
                false
            },
        }
    }

    /// Takes note of a round: once it started a shim, discovery is not tried again.
    pub fn round_done(&mut self, started_shim: bool)
        ensures
            final(self).hotplug_active == old(self).hotplug_active,
            final(self).settle_until_ns == if started_shim {
                None
            } else {
                old(self).settle_until_ns
            },
            *final(self) == after_round(*old(self), started_shim),
    {
        if started_shim {
            self.settle_until_ns = None;
        }
    }
}

} // verus!
