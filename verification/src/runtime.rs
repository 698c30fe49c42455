//! What is going on: the running supervisor, its heartbeats, and who uses which device.
use vstd::prelude::*;

use crate::clean::ProcessCmdline;
use crate::loopback::{
    command_args, is_cam_shim_loopback, is_own_executable, is_own_name, text_args, DeviceHolder,
    LoopbackDeviceInfo,
};
use crate::probe::{report_models, DeviceReport, ReportModel};
use crate::sys::clock_ms;
use crate::table::Table;
use crate::text::{
    concat2, concat4, contains, decimal, decimal_of, ends_with, join, joined, str_eq, texts, trim, trimmed,
};

verus! {

broadcast use crate::text::group_texts;

/// Where the supervisor writes its state.
pub const STATE_FILE: &'static str = "/run/cam-shim/state.json";

/// After how many seconds without a frame a heartbeat is stale.
pub const HEARTBEAT_STALE_SECS: u64 = 30;

/// A process that uses a device.
#[derive(Debug)]
pub struct ProcessHolder {
    pub pid: u32,
    pub name: String,
}

impl View for ProcessHolder {
    type V = (u32, Seq<char>);

    open spec fn view(&self) -> (u32, Seq<char>) {
        (self.pid, self.name@)
    }
}

impl Clone for ProcessHolder {
    fn clone(&self) -> (r: Self)
        ensures
            r == *self,
    {
        ProcessHolder { pid: self.pid, name: self.name.clone() }
    }
}

/// The views of holders.
pub open spec fn holder_views(holders: Seq<ProcessHolder>) -> Seq<(u32, Seq<char>)> {
    holders.map_values(|holder: ProcessHolder| holder@)
}

/// A loopback device and who uses it.
#[derive(Debug)]
pub struct LoopbackSnapshot {
    pub path: String,
    pub name: String,
    /// Whether the device is one of this program.
    pub cam_shim: bool,
    pub holders: Vec<ProcessHolder>,
}

/// The contents of a loopback snapshot.
#[verifier::ext_equal]
pub ghost struct LoopbackModel {
    pub path: Seq<char>,
    pub name: Seq<char>,
    pub cam_shim: bool,
    pub holders: Seq<(u32, Seq<char>)>,
}

impl View for LoopbackSnapshot {
    type V = LoopbackModel;

    open spec fn view(&self) -> LoopbackModel {
        LoopbackModel {
            path: self.path@,
            name: self.name@,
            cam_shim: self.cam_shim,
            holders: holder_views(self.holders@),
        }
    }
}

/// The contents of loopback snapshots.
pub open spec fn loopback_models(loopbacks: Seq<LoopbackSnapshot>) -> Seq<LoopbackModel> {
    loopbacks.map_values(|loopback: LoopbackSnapshot| loopback@)
}

/// A camera that the supervisor manages.
#[derive(Debug)]
pub struct ManagedCameraSnapshot {
    pub serial: String,
    pub loopback_path: String,
    pub consecutive_failures: u32,
    pub quarantined: bool,
    pub last_heartbeat_ms: u64,
}

/// The contents of a managed camera.
#[verifier::ext_equal]
pub ghost struct ManagedModel {
    pub serial: Seq<char>,
    pub loopback_path: Seq<char>,
    pub consecutive_failures: u32,
    pub quarantined: bool,
    pub last_heartbeat_ms: u64,
}

impl View for ManagedCameraSnapshot {
    type V = ManagedModel;

    open spec fn view(&self) -> ManagedModel {
        ManagedModel {
            serial: self.serial@,
            loopback_path: self.loopback_path@,
            consecutive_failures: self.consecutive_failures,
            quarantined: self.quarantined,
            last_heartbeat_ms: self.last_heartbeat_ms,
        }
    }
}

impl Default for ManagedCameraSnapshot {
    fn default() -> (r: Self)
        ensures
            r.serial@.len() == 0,
            r.loopback_path@.len() == 0,
            r.consecutive_failures == 0,
            !r.quarantined,
            r.last_heartbeat_ms == 0,
    {
        ManagedCameraSnapshot {
            serial: String::new(),
            loopback_path: String::new(),
            consecutive_failures: 0,
            quarantined: false,
            last_heartbeat_ms: 0,
        }
    }
}

/// The contents of managed cameras.
pub open spec fn managed_models(managed: Seq<ManagedCameraSnapshot>) -> Seq<ManagedModel> {
    managed.map_values(|camera: ManagedCameraSnapshot| camera@)
}

/// The state of the supervisor.
#[derive(Debug)]
pub struct SupervisorStateSnapshot {
    pub updated_at_ms: u64,
    pub managed: Vec<ManagedCameraSnapshot>,
    pub quarantined: Vec<String>,
}

impl Default for SupervisorStateSnapshot {
    fn default() -> (r: Self)
        ensures
            r.updated_at_ms == 0,
            r.managed@.len() == 0,
            r.quarantined@.len() == 0,
    {
        SupervisorStateSnapshot { updated_at_ms: 0, managed: Vec::new(), quarantined: Vec::new() }
    }
}

/// What is going on in the system.
#[derive(Debug)]
pub struct RuntimeSnapshot {
    pub loopback_module_loaded: bool,
    pub serve_running: bool,
    pub hidden_cameras: usize,
    pub ghost_nodes: usize,
    pub visible_capture_devices: usize,
    pub needs_shim_devices: usize,
    pub loopbacks: Vec<LoopbackSnapshot>,
    pub supervisor_state: Option<SupervisorStateSnapshot>,
    pub devices: Vec<DeviceReport>,
}

impl Default for RuntimeSnapshot {
    fn default() -> (r: Self)
        ensures
            !r.loopback_module_loaded,
            !r.serve_running,
            r.hidden_cameras == 0,
            r.ghost_nodes == 0,
            r.visible_capture_devices == 0,
            r.needs_shim_devices == 0,
            r.loopbacks@.len() == 0,
            r.supervisor_state is None,
            r.devices@.len() == 0,
    {
        RuntimeSnapshot {
            loopback_module_loaded: false,
            serve_running: false,
            hidden_cameras: 0,
            ghost_nodes: 0,
            visible_capture_devices: 0,
            needs_shim_devices: 0,
            loopbacks: Vec::new(),
            supervisor_state: None,
            devices: Vec::new(),
        }
    }
}

/// What a snapshot is made from.
#[derive(Debug)]
pub struct RuntimeInputs {
    pub holder_map: Table<Vec<DeviceHolder>>,
    pub devices: Vec<DeviceReport>,
    pub loopbacks: Vec<LoopbackDeviceInfo>,
    pub loopback_module_loaded: bool,
    pub serve_running: bool,
    /// The number of hidden cameras, where it can be had.
    pub hidden_cameras: Option<usize>,
    /// The number of left-over device files, where it can be had.
    pub ghost_nodes: Option<usize>,
    pub supervisor_state: Option<SupervisorStateSnapshot>,
}

/// The number and name of holders.
pub open spec fn named_holders(holders: Seq<DeviceHolder>) -> Seq<(u32, Seq<char>)> {
    holders.map_values(|holder: DeviceHolder| (holder.pid, holder.label@))
}

/// A loopback device with those that hold its path.
pub open spec fn loopback_snapshot(
    device: LoopbackDeviceInfo,
    map: Map<Seq<char>, Vec<DeviceHolder>>,
) -> LoopbackModel {
    LoopbackModel {
        path: device.path@,
        name: device.name@,
        cam_shim: is_own_name(device.name@),
        holders: if map.contains_key(device.path@) {
            named_holders(map[device.path@]@)
        } else {
            Seq::empty()
        },
    }
}

/// The snapshots of loopback devices.
pub open spec fn loopback_snapshots(
    devices: Seq<LoopbackDeviceInfo>,
    map: Map<Seq<char>, Vec<DeviceHolder>>,
) -> Seq<LoopbackModel> {
    devices.map_values(|device: LoopbackDeviceInfo| loopback_snapshot(device, map))
}

/// The reports that ask for a shim.
pub open spec fn needing_shim(reports: Seq<ReportModel>) -> Seq<ReportModel> {
    reports.filter(|report: ReportModel| report.needs_shim)
}

/// The number of cameras that need a shim counts each of them once: it is zero exactly when none does,
/// and one camera more makes it one more exactly when that camera does.
pub proof fn lemma_needing_shim(reports: Seq<ReportModel>, next: ReportModel)
    ensures
        needing_shim(reports).len() == 0 <==> forall|i: int|
            0 <= i < reports.len() ==> !(#[trigger] reports[i]).needs_shim,
        needing_shim(reports.push(next)).len() == needing_shim(reports).len() + if next.needs_shim {
            1int
        } else {
            0int
        },
{
    let p = |report: ReportModel| report.needs_shim;
    let kept = needing_shim(reports);
    assert(kept == reports.filter(p));
    if kept.len() == 0 {
        assert forall|i: int| 0 <= i < reports.len() implies !(
        #[trigger] reports[i]).needs_shim by {
            crate::split::lemma_filter_members(reports, p, reports[i]);
            if reports[i].needs_shim {
                assert(p(reports[i]));
                assert(reports.contains(reports[i]));
                let k = choose|k: int| 0 <= k < kept.len() && kept[k] == reports[i];
            }
        }
    } else {
        assert(kept.contains(kept[0]));
        crate::split::lemma_filter_members(reports, p, kept[0]);
        let i = choose|i: int| 0 <= i < reports.len() && reports[i] == kept[0];
        assert(reports[i].needs_shim);
    }
    let longer = reports.push(next);
    crate::split::lemma_filter_nothing(longer, p);
    crate::split::lemma_filter_step(longer, p, reports.len() as int);
    assert(longer.take(reports.len() as int) =~= reports);
}

/// A loopback device is shown under its path and name, as one of this program by its name, and with
/// every process that holds it.
pub proof fn lemma_loopback_snapshots(
    devices: Seq<LoopbackDeviceInfo>,
    map: Map<Seq<char>, Vec<DeviceHolder>>,
    i: int,
)
    requires
        0 <= i < devices.len(),
    ensures
        loopback_snapshots(devices, map).len() == devices.len(),
        ({
            let shown = loopback_snapshots(devices, map)[i];
            &&& shown.path == devices[i].path@
            &&& shown.name == devices[i].name@
            &&& shown.cam_shim <==> is_own_name(devices[i].name@)
            &&& shown.holders.len() > 0 ==> map.contains_key(devices[i].path@)
            &&& map.contains_key(devices[i].path@) ==> shown.holders.len()
                == map[devices[i].path@]@.len() && forall|k: int|
                0 <= k < shown.holders.len() ==> (#[trigger] shown.holders[k]).0
                    == map[devices[i].path@]@[k].pid && shown.holders[k].1
                    == map[devices[i].path@]@[k].label@
        }),
{
}

fn name_holders(holders: &Vec<DeviceHolder>) -> (r: Vec<ProcessHolder>)
    ensures
        holder_views(r@) == named_holders(holders@),
{
    let mut out: Vec<ProcessHolder> = Vec::new();
    let mut i: usize = 0;
    while i < holders.len()
        invariant
            i <= holders@.len(),
            holder_views(out@) == named_holders(holders@).take(i as int),
        decreases holders@.len() - i,
    {
        let ghost before = out@;
        let holder = ProcessHolder { pid: holders[i].pid, name: holders[i].label.clone() };
        out.push(holder);
        assert(holder_views(out@) =~= holder_views(before).push(holder@));
        assert(named_holders(holders@).take(i + 1) =~= named_holders(holders@).take(i as int).push(
            holder@,
        ));
        i += 1;
    }
    assert(named_holders(holders@).take(i as int) =~= named_holders(holders@));
    out
}

/// Puts together what is going on.
pub fn collect_runtime_snapshot(inputs: RuntimeInputs) -> (r: RuntimeSnapshot)
    ensures
        r.loopback_module_loaded == inputs.loopback_module_loaded,
        r.serve_running == inputs.serve_running,
        r.hidden_cameras == match inputs.hidden_cameras {
            Some(n) => n,
            None => 0,
        },
        r.ghost_nodes == match inputs.ghost_nodes {
            Some(n) => n,
            None => 0,
        },
        r.visible_capture_devices == inputs.devices@.len(),
        r.needs_shim_devices == needing_shim(report_models(inputs.devices@)).len(),
        loopback_models(r.loopbacks@) == loopback_snapshots(
            inputs.loopbacks@,
            inputs.holder_map@,
        ),
        r.supervisor_state == inputs.supervisor_state,
        r.devices == inputs.devices,
{
    let ghost models = report_models(inputs.devices@);
    let ghost p = |report: ReportModel| report.needs_shim;
    let mut needs: usize = 0;
    let mut i: usize = 0;
    proof {
        crate::split::lemma_filter_nothing(models, p);
    }
    while i < inputs.devices.len()
        invariant
            i <= inputs.devices@.len(),
            models == report_models(inputs.devices@),
            p == (|report: ReportModel| report.needs_shim),
            needs == models.take(i as int).filter(p).len(),
            needs <= i,
        decreases inputs.devices@.len() - i,
    {
        proof {
            assert(models[i as int] == inputs.devices@[i as int]@);
            crate::split::lemma_filter_step(models, p, i as int);
        }
        if inputs.devices[i].needs_shim {
            needs += 1;
        }
        i += 1;
    }
    let mut loopbacks: Vec<LoopbackSnapshot> = Vec::new();
    let ghost all = loopback_snapshots(inputs.loopbacks@, inputs.holder_map@);
    let mut k: usize = 0;
    assert(loopback_models(loopbacks@) =~= all.take(0));
    while k < inputs.loopbacks.len()
        invariant
            k <= inputs.loopbacks@.len(),
            all == loopback_snapshots(inputs.loopbacks@, inputs.holder_map@),
            loopback_models(loopbacks@) == all.take(k as int),
        decreases inputs.loopbacks@.len() - k,
    {
        let ghost before = loopbacks@;
        let device = &inputs.loopbacks[k];
        let holders = match inputs.holder_map.get(&device.path) {
            Some(holders) => name_holders(holders),
            None => Vec::new(),
        };
        let snapshot = LoopbackSnapshot {
            path: device.path.clone(),
            name: device.name.clone(),
            cam_shim: is_cam_shim_loopback(&device.name),
            holders,
        };
        proof {
            if !inputs.holder_map@.contains_key(device.path@) {
                assert(holder_views(snapshot.holders@) =~= Seq::<(u32, Seq<char>)>::empty());
            }
            assert(snapshot@ == all[k as int]);
        }
        loopbacks.push(snapshot);
        assert(loopback_models(loopbacks@) =~= loopback_models(before).push(snapshot@));
        assert(all.take(k + 1) =~= all.take(k as int).push(snapshot@));
        k += 1;
    }
    assert(all.take(k as int) =~= all);
    proof {
        crate::split::lemma_filter_nothing(models, p);
    }
    RuntimeSnapshot {
        loopback_module_loaded: inputs.loopback_module_loaded,
        serve_running: inputs.serve_running,
        hidden_cameras: match inputs.hidden_cameras {
            Some(n) => n,
            None => 0,
        },
        ghost_nodes: match inputs.ghost_nodes {
            Some(n) => n,
            None => 0,
        },
        visible_capture_devices: inputs.devices.len(),
        needs_shim_devices: needs,
        loopbacks,
        supervisor_state: inputs.supervisor_state,
        devices: inputs.devices,
    }
}

/// A command line runs this program as the supervisor.
pub open spec fn is_serve_cmdline(cmdline: Seq<u8>) -> bool {
    let args = text_args(cmdline);
    args.len() > 1 && is_own_executable(args[0]) && args[1] == "serve"@
}

/// The process is another run of this program, as the supervisor.
pub open spec fn is_other_serve(process: ProcessCmdline, own_pid: u32) -> bool {
    process.pid != own_pid && (process.cmdline matches Some(cmdline) && is_serve_cmdline(cmdline@))
}

/// A text without the zero character is read back from its bytes, and has no zero byte.
pub proof fn lemma_text_bytes(s: Seq<char>)
    requires
        s.len() > 0,
        !s.contains('\0'),
    ensures
        vstd::utf8::encode_utf8(s).len() > 0,
        !vstd::utf8::encode_utf8(s).contains(0u8),
        vstd::utf8::valid_utf8(vstd::utf8::encode_utf8(s)),
        vstd::utf8::decode_utf8(vstd::utf8::encode_utf8(s)) == s,
{
    crate::compat::lemma_no_zero_bytes(s);
    vstd::utf8::encode_utf8_valid_utf8(s);
    vstd::utf8::encode_utf8_decode_utf8(s);
    if vstd::utf8::encode_utf8(s).len() == 0 {
        vstd::utf8::encode_utf8_first_scalar(s);
    }
}

/// The arguments of a command line are read back.
proof fn lemma_two_args(a: Seq<u8>, b: Seq<u8>)
    requires
        a.len() > 0,
        b.len() > 0,
        !a.contains(0u8),
        !b.contains(0u8),
        vstd::utf8::valid_utf8(a),
        vstd::utf8::valid_utf8(b),
    ensures
        text_args(a + seq![0u8] + b + seq![0u8]) == seq![
            vstd::utf8::decode_utf8(a),
            vstd::utf8::decode_utf8(b),
        ],
{
    crate::split::lemma_two_zero_ended(a, b);
    crate::split::lemma_filter_two(a, b, crate::loopback::is_text());
    assert(text_args(a + seq![0u8] + b + seq![0u8]) =~= seq![
        vstd::utf8::decode_utf8(a),
        vstd::utf8::decode_utf8(b),
    ]);
}

/// The command line of this program with a mode is that of a daemon exactly when the mode is `serve`,
/// `fix` or `relay`, and that of a supervisor exactly when it is `serve`, wherever the program is kept.
pub proof fn lemma_own_command_line(dir: Seq<char>, mode: Seq<char>)
    requires
        !dir.contains('\0'),
        !mode.contains('\0'),
        mode.len() > 0,
    ensures
        ({
            let cmdline = vstd::utf8::encode_utf8(dir + "/cam-shim"@) + seq![0u8]
                + vstd::utf8::encode_utf8(mode) + seq![0u8];
            &&& is_serve_cmdline(cmdline) <==> mode == "serve"@
            &&& crate::loopback::is_daemon_cmdline(cmdline) <==> mode == "serve"@ || mode == "fix"@
                || mode == "relay"@
        }),
{
    let exe = dir + "/cam-shim"@;
    reveal_strlit("/cam-shim");
    assert(!exe.contains('\0')) by {
        if exe.contains('\0') {
            let i = choose|i: int| 0 <= i < exe.len() && exe[i] == '\0';
            if i < dir.len() {
                assert(dir[i] == '\0');
            } else {
                assert("/cam-shim"@[i - dir.len()] == '\0');
            }
        }
    }
    lemma_text_bytes(exe);
    lemma_text_bytes(mode);
    lemma_two_args(vstd::utf8::encode_utf8(exe), vstd::utf8::encode_utf8(mode));
    lemma_own_executable(dir, exe);
}

/// The program is recognised under its own name, and under that name in any directory; a name that
/// holds it nowhere is another program.
pub proof fn lemma_own_executable(dir: Seq<char>, exe: Seq<char>)
    ensures
        is_own_executable("cam-shim"@),
        is_own_executable(dir + "/cam-shim"@),
        !crate::text::occurs(exe, "cam-shim"@) ==> !is_own_executable(exe),
{
    reveal_strlit("/cam-shim");
    reveal_strlit("cam-shim");
    let whole = dir + "/cam-shim"@;
    assert("cam-shim"@.is_suffix_of("cam-shim"@));
    assert(whole.subrange(whole.len() - 8, whole.len() as int) =~= "cam-shim"@);
    assert("cam-shim"@.is_suffix_of(whole));
    if is_own_executable(exe) {
        if "cam-shim"@.is_suffix_of(exe) {
            assert(crate::text::occurs_at(exe, "cam-shim"@, exe.len() - 8));
        } else {
            let at = choose|at: int| crate::text::occurs_at(exe, "/cam-shim"@, at);
            assert(exe.subrange(at + 1, at + 9) =~= exe.subrange(at, at + 9).subrange(1, 9));
            assert("/cam-shim"@.subrange(1, 9) =~= "cam-shim"@);
            assert(crate::text::occurs_at(exe, "cam-shim"@, at + 1));
        }
    }
}

/// A supervisor runs, other than this process.
pub open spec fn serve_runs(processes: Seq<ProcessCmdline>, own_pid: u32) -> bool {
    exists|i: int| 0 <= i < processes.len() && is_other_serve(#[trigger] processes[i], own_pid)
}

/// A supervisor runs whenever some process other than this one has its command line, wherever that
/// process stands in the list; this process alone never counts.
pub proof fn lemma_serve_runs(processes: Seq<ProcessCmdline>, own_pid: u32)
    ensures
        serve_runs(processes, own_pid) <==> exists|i: int|
            0 <= i < processes.len() && (#[trigger] processes[i]).pid != own_pid && (
            processes[i].cmdline matches Some(cmdline) && is_serve_cmdline(cmdline@)),
        (forall|i: int| 0 <= i < processes.len() ==> (#[trigger] processes[i]).pid == own_pid)
            ==> !serve_runs(processes, own_pid),
{
    if exists|i: int|
        0 <= i < processes.len() && (#[trigger] processes[i]).pid != own_pid && (
        processes[i].cmdline matches Some(cmdline) && is_serve_cmdline(cmdline@)) {
        let i = choose|i: int|
            0 <= i < processes.len() && (#[trigger] processes[i]).pid != own_pid && (
            processes[i].cmdline matches Some(cmdline) && is_serve_cmdline(cmdline@));
        assert(is_other_serve(processes[i], own_pid));
    }
}

/// Whether a supervisor runs, other than this process.
pub fn cam_shim_serve_running(processes: &Vec<ProcessCmdline>, own_pid: u32) -> (r: bool)
    ensures
        r == serve_runs(processes@, own_pid),
        r <==> exists|i: int|
            0 <= i < processes@.len() && is_other_serve(#[trigger] processes@[i], own_pid),
{
    let mut i: usize = 0;
    while i < processes.len()
        invariant
            i <= processes@.len(),
            forall|j: int| 0 <= j < i ==> !is_other_serve(#[trigger] processes@[j], own_pid),
        decreases processes@.len() - i,
    {
        if processes[i].pid != own_pid {
            if let Some(cmdline) = &processes[i].cmdline {
                let args = command_args(cmdline.as_slice());
                assert(texts(args@).len() == args@.len());
                if args.len() > 1 {
                    assert(texts(args@)[0] == args@[0]@);
                    assert(texts(args@)[1] == args@[1]@);
                    if (ends_with(&args[0], "cam-shim") || contains(&args[0], "/cam-shim"))
                        && str_eq(&args[1], "serve") {
                        assert(is_other_serve(processes@[i as int], own_pid));
                        return true;
                    }
                }
            }
        }
        i += 1;
    }
    false
}

/// The name of a process, from the kernel's short name for it, where that can be read.
pub fn process_name(pid: u32, comm: Option<String>) -> (r: String)
    ensures
        r@ == match comm {
            Some(comm) => trimmed(comm@),
            None => "pid-"@ + decimal(pid as nat),
        },
{
    match comm {
        Some(comm) => trim(&comm),
        None => concat2("pid-", &decimal_of(pid as u64)),
    }
}

/// A time stamp, from what the clock shows: zero for a clock that is set to before 1970.
pub open spec fn time_stamp(clock: Option<u128>) -> u64 {
    match clock {
        Some(ms) => (ms % 0x1_0000_0000_0000_0000) as u64,
        None => 0,
    }
}

/// A time stamp, from what the clock shows.
pub fn time_stamp_of(clock: Option<u128>) -> (r: u64)
    ensures
        r == time_stamp(clock),
{
    match clock {
        Some(ms) => (ms % 0x1_0000_0000_0000_0000) as u64,
        None => 0,
    }
}

/// The time stamp of this moment, in milliseconds since 1970. What it is depends on the clock alone.
pub fn unix_now_ms() -> (r: u64)
    ensures
        exists|clock: Option<u128>| r == #[trigger] time_stamp(clock),
{
    time_stamp_of(clock_ms())
}

/// The time since a time stamp, in milliseconds: zero for one in the future.
pub open spec fn age_ms(now_ms: u64, timestamp_ms: u64) -> nat {
    if now_ms <= timestamp_ms {
        0
    } else {
        (now_ms - timestamp_ms) as nat
    }
}

/// The age of a time stamp leads from it to now; a time stamp from the future has no age. A clock that
/// is set to before 1970 shows zero.
pub proof fn lemma_age(now_ms: u64, timestamp_ms: u64, clock: u64)
    ensures
        timestamp_ms <= now_ms ==> timestamp_ms + age_ms(now_ms, timestamp_ms) == now_ms,
        timestamp_ms > now_ms ==> age_ms(now_ms, timestamp_ms) == 0,
        time_stamp(Some(clock as u128)) == clock,
        time_stamp(None) == 0,
{
}

/// The time since a time stamp, in milliseconds.
pub fn age_ms_since(now_ms: u64, timestamp_ms: u64) -> (r: u64)
    ensures
        r == age_ms(now_ms, timestamp_ms),
{
    if now_ms <= timestamp_ms {
        0
    } else {
        now_ms - timestamp_ms
    }
}

/// The age of a heartbeat in seconds; none where there was none yet.
pub fn heartbeat_age_secs(now_ms: u64, last_heartbeat_ms: u64) -> (r: Option<u64>)
    ensures
        match r {
            None => last_heartbeat_ms == 0,
            Some(secs) => last_heartbeat_ms != 0 && secs == age_ms(now_ms, last_heartbeat_ms)
                / 1000,
        },
{
    if last_heartbeat_ms == 0 {
        return None;
    }
    Some(age_ms_since(now_ms, last_heartbeat_ms) / 1000)
}

/// Whether a heartbeat of the given age is stale.
pub fn heartbeat_is_stale(age_secs: u64) -> (r: bool)
    ensures
        r == (age_secs > HEARTBEAT_STALE_SECS),
{
    age_secs > HEARTBEAT_STALE_SECS
}

/// A holder for people.
pub open spec fn holder_with_pid(holder: (u32, Seq<char>)) -> Seq<char> {
    holder.1 + " ("@ + decimal(holder.0 as nat) + ")"@
}

/// Holders for people.
pub open spec fn holders_text(holders: Seq<(u32, Seq<char>)>) -> Seq<char> {
    joined(holders.map_values(|holder: (u32, Seq<char>)| holder_with_pid(holder)), ", "@)
}

/// Holders for people.
pub fn join_holders(holders: &Vec<ProcessHolder>) -> (r: String)
    ensures
        r@ == holders_text(holder_views(holders@)),
{
    let ghost views = holder_views(holders@);
    let ghost all = views.map_values(|holder: (u32, Seq<char>)| holder_with_pid(holder));
    let mut parts: Vec<String> = Vec::new();
    let mut i: usize = 0;
    assert(texts(parts@) =~= all.take(0));
    while i < holders.len()
        invariant
            i <= holders@.len(),
            views == holder_views(holders@),
            all == views.map_values(|holder: (u32, Seq<char>)| holder_with_pid(holder)),
            texts(parts@) == all.take(i as int),
        decreases holders@.len() - i,
    {
        let part = concat4(&holders[i].name, " (", &decimal_of(holders[i].pid as u64), ")");
        assert(views[i as int] == holders@[i as int]@);
        assert(part@ == all[i as int]);
        parts.push(part);
        assert(all.take(i + 1) =~= all.take(i as int).push(part@));
        i += 1;
    }
    assert(all.take(i as int) =~= all);
    join(&parts, ", ")
}

} // verus!
