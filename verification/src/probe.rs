//! What is found out about the cameras of the system.
use vstd::prelude::*;

use crate::compat::{
    display_rates, frame_time, lemma_compatible_frame_times, lists_rates, rate_issues, rate_texts, standardized, standardized_label, CompatReport,
    CompatStatus, FpsRate,
};
use crate::create::{lemma_number_is_read_back, node_name};
use crate::devices::{
    camera_key, device_file, is_metadata_name, is_video_node_name, names_metadata, names_video_node,
    physical_camera_key_with_name, DeviceLevel,
};
use crate::error::{CamShimError, IoKind};
use crate::loopback::{node_number, video_number};
use crate::media::{DiscreteSize, FourCC, FrameInterval};
use crate::order::{
    as_positions, lemma_order_of_items, lemma_positions_in_range, pick, picked, sorted_by, stable_order,
    text_before,
};
use crate::split::{
    file_name, file_name_of, lemma_filter_nothing, lemma_filter_step, lemma_map_push,
};
use crate::table::Table;
use crate::text::{
    concat2, concat3, concat4, contains, decimal, has_text, occurs, opt_text, texts, trim,
    trimmed,
};

verus! {

broadcast use crate::text::group_texts;

/// How closely cameras are looked at.
#[derive(Debug, Clone, Copy, PartialEq, Eq, Structural)]
pub enum ProbeDepth {
    /// Every format and size.
    Full,
    /// The current format only, for discovering cameras to serve.
    Quick,
    /// The name only; no device is opened.
    Sysfs,
}

/// What is known of a camera.
#[derive(Debug)]
pub struct DeviceReport {
    pub path: String,
    pub name: String,
    pub driver: String,
    pub bus: String,
    pub standardized_name: String,
    pub compatible: bool,
    pub needs_shim: bool,
    pub advertised_fps: Vec<String>,
    pub issues: Vec<String>,
}

/// The contents of a report.
#[verifier::ext_equal]
pub ghost struct ReportModel {
    pub path: Seq<char>,
    pub name: Seq<char>,
    pub driver: Seq<char>,
    pub bus: Seq<char>,
    pub standardized_name: Seq<char>,
    pub compatible: bool,
    pub needs_shim: bool,
    pub advertised_fps: Seq<Seq<char>>,
    pub issues: Seq<Seq<char>>,
}

impl View for DeviceReport {
    type V = ReportModel;

    open spec fn view(&self) -> ReportModel {
        ReportModel {
            path: self.path@,
            name: self.name@,
            driver: self.driver@,
            bus: self.bus@,
            standardized_name: self.standardized_name@,
            compatible: self.compatible,
            needs_shim: self.needs_shim,
            advertised_fps: texts(self.advertised_fps@),
            issues: texts(self.issues@),
        }
    }
}

impl Clone for DeviceReport {
    fn clone(&self) -> (r: Self)
        ensures
            r@ == self@,
    {
        DeviceReport {
            path: self.path.clone(),
            name: self.name.clone(),
            driver: self.driver.clone(),
            bus: self.bus.clone(),
            standardized_name: self.standardized_name.clone(),
            compatible: self.compatible,
            needs_shim: self.needs_shim,
            advertised_fps: self.advertised_fps.clone(),
            issues: self.issues.clone(),
        }
    }
}

/// The contents of reports.
pub open spec fn report_models(reports: Seq<DeviceReport>) -> Seq<ReportModel> {
    reports.map_values(|report: DeviceReport| report@)
}

/// The report on a camera that advertises the given rates.
pub open spec fn probed_report(
    path: Seq<char>,
    name: Seq<char>,
    driver: Seq<char>,
    bus: Seq<char>,
    rates: Seq<FpsRate>,
) -> ReportModel {
    ReportModel {
        path,
        name,
        driver,
        bus,
        standardized_name: standardized(name),
        compatible: rate_issues(rates).len() == 0,
        needs_shim: rate_issues(rates).len() != 0,
        advertised_fps: rate_texts(rates),
        issues: rate_issues(rates),
    }
}

/// What a device says of itself.
#[derive(Debug)]
pub struct DeviceCaps {
    /// The device captures video.
    pub video_capture: bool,
    pub card: String,
    pub driver: String,
    pub bus: String,
}

/// What came of opening a device and asking it.
#[derive(Debug)]
pub struct DeviceProbe {
    pub caps: Result<DeviceCaps, CamShimError>,
    pub intervals: Result<Vec<FrameInterval>, CamShimError>,
}

/// The outcome of a probe: each failure in the order in which it is met, or the report on the rates
/// that the device advertises.
pub open spec fn probe_outcome(
    path: Seq<char>,
    depth: ProbeDepth,
    probe: Option<DeviceProbe>,
    r: Result<DeviceReport, CamShimError>,
) -> bool {
    match probe {
        None => r matches Err(CamShimError::DeviceNotFound(what)) && what@ == path,
        Some(probe) => match probe.caps {
            Err(err) => r == Err::<DeviceReport, CamShimError>(err),
            Ok(caps) => if !caps.video_capture {
                r matches Err(CamShimError::NotCaptureDevice(what)) && what@ == path
            } else if depth == ProbeDepth::Sysfs {
                r matches Err(err) && err.is_io(
                    IoKind::InvalidInput,
                    "sysfs probe does not open devices"@,
                )
            } else {
                match probe.intervals {
                    Err(err) => r == Err::<DeviceReport, CamShimError>(err),
                    Ok(intervals) => r matches Ok(report) && exists|rates: Seq<FpsRate>| #[trigger]
                        lists_rates(rates, intervals@) && report@ == probed_report(
                            path,
                            caps.card@,
                            caps.driver@,
                            caps.bus@,
                            rates,
                        ),
                }
            },
        },
    }
}

/// A camera with these intervals can be used as it is: one of them gives 30 or 60 frames per second,
/// and none gives a variable rate.
pub open spec fn is_compatible(intervals: Seq<FrameInterval>) -> bool {
    &&& exists|i: int|
        0 <= i < intervals.len() && (frame_time(#[trigger] intervals[i]) == (1u32, 30u32)
            || frame_time(intervals[i]) == (1u32, 60u32))
    &&& forall|i: int|
        0 <= i < intervals.len() ==> frame_time(#[trigger] intervals[i]).0 > 0 && frame_time(
            intervals[i],
        ).1 > 0
}

/// A probed camera is said to be compatible exactly when one of its intervals gives 30 or 60 frames
/// per second and none gives a variable rate, and to need a shim exactly when it is not compatible.
/// Issues are given exactly for a camera that needs a shim. The report is on the device that was
/// asked, under its own names.
pub proof fn lemma_probe_verdict(
    path: Seq<char>,
    depth: ProbeDepth,
    probe: DeviceProbe,
    report: DeviceReport,
)
    requires
        probe_outcome(path, depth, Some(probe), Ok(report)),
    ensures
        probe.intervals matches Ok(intervals) && (report.compatible <==> {
            &&& exists|i: int|
                0 <= i < intervals@.len() && (frame_time(#[trigger] intervals@[i]) == (1u32, 30u32)
                    || frame_time(intervals@[i]) == (1u32, 60u32))
            &&& forall|i: int|
                0 <= i < intervals@.len() ==> frame_time(#[trigger] intervals@[i]).0 > 0
                    && frame_time(intervals@[i]).1 > 0
        }),
        report.needs_shim == !report.compatible,
        report.needs_shim <==> report.issues@.len() > 0,
        depth != ProbeDepth::Sysfs,
        probe.caps matches Ok(caps) && caps.video_capture && report.name@ == caps.card@
            && report.driver@ == caps.driver@ && report.bus@ == caps.bus@,
        report.path@ == path,
        report.standardized_name@ == standardized(report.name@),
{
    let intervals = probe.intervals->Ok_0@;
    let caps = probe.caps->Ok_0;
    let rates = choose|rates: Seq<FpsRate>| #[trigger]
        lists_rates(rates, intervals) && report@ == probed_report(
            path,
            caps.card@,
            caps.driver@,
            caps.bus@,
            rates,
        );
    lemma_compatible_frame_times(rates, intervals);
    assert(texts(report.issues@) == rate_issues(rates));
    assert(texts(report.issues@).len() == report.issues@.len());
}

/// A device that was opened, says that it captures video and names its intervals gets a report,
/// unless devices are not to be opened; every other device gets none.
pub proof fn lemma_probe_succeeds(
    path: Seq<char>,
    depth: ProbeDepth,
    probe: Option<DeviceProbe>,
    r: Result<DeviceReport, CamShimError>,
)
    requires
        probe_outcome(path, depth, probe, r),
    ensures
        r is Ok <==> {
            &&& depth != ProbeDepth::Sysfs
            &&& probe matches Some(found)
            &&& found.intervals is Ok
            &&& found.caps matches Ok(caps)
            &&& caps.video_capture
        },
{
}

/// The report on a device, from what came of opening it and asking it. No probe stands for a device
/// that could not be opened.
pub fn probe_device(path: &str, depth: ProbeDepth, probe: Option<DeviceProbe>) -> (r: Result<
    DeviceReport,
    CamShimError,
>)
    ensures
        probe_outcome(path@, depth, probe, r),
        r matches Ok(report) ==> report.needs_shim == !report.compatible && (
        probe matches Some(probe) && probe.intervals matches Ok(intervals) && (report.compatible
            <==> is_compatible(intervals@))),
{
    let probe = match probe {
        Some(probe) => probe,
        None => {
            return Err(CamShimError::DeviceNotFound(path.to_string()));
        },
    };
    let caps = match probe.caps {
        Ok(caps) => caps,
        Err(err) => {
            return Err(err);
        },
    };
    if !caps.video_capture {
        return Err(CamShimError::NotCaptureDevice(path.to_string()));
    }
    if let ProbeDepth::Sysfs = depth {
        return Err(
            CamShimError::io(
                IoKind::InvalidInput,
                "sysfs probe does not open devices".to_string(),
            ),
        );
    }
    let intervals = match probe.intervals {
        Ok(intervals) => intervals,
        Err(err) => {
            return Err(err);
        },
    };
    let compat = CompatReport::from_intervals(intervals.as_slice());
    let compatible = match compat.status {
        CompatStatus::Compatible => true,
        _ => false,
    };
    let report = DeviceReport {
        path: path.to_string(),
        standardized_name: standardized_label(&caps.card),
        name: caps.card,
        driver: caps.driver,
        bus: caps.bus,
        compatible,
        needs_shim: !compatible,
        advertised_fps: display_rates(&compat.advertised_fps),
        issues: compat.issues,
    };
    proof {
        assert(texts(compat.issues@).len() == compat.issues@.len());
        lemma_compatible_frame_times(compat.advertised_fps@, intervals@);
    }
    Ok(report)
}

/// The report of a device at full depth.
pub fn probe_device_path(path: &str, probe: Option<DeviceProbe>) -> (r: Result<
    DeviceReport,
    CamShimError,
>)
    ensures
        probe_outcome(path@, ProbeDepth::Full, probe, r),
        r matches Ok(report) ==> report.needs_shim == !report.compatible && (
        probe matches Some(probe) && probe.intervals matches Ok(intervals) && (report.compatible
            <==> is_compatible(intervals@))),
{
    probe_device(path, ProbeDepth::Full, probe)
}

/// Whether the name is that of a device that this program standardized.
pub fn is_standardized_device_name(name: &str) -> (r: bool)
    ensures
        r == occurs(name@, "Linux Standardized"@),
{
    contains(name, "Linux Standardized")
}

/// The issues of a camera that was not opened: the note, if there is one.
pub open spec fn unopened_issues(name: Seq<char>, note: Option<Seq<char>>) -> Seq<Seq<char>> {
    match note {
        Some(note) => seq![note],
        None => if occurs(name, "Linux Standardized"@) {
            Seq::empty()
        } else {
            seq!["run cam-shim scan to verify fps compatibility"@]
        },
    }
}

/// The report on a camera that was not opened, of which only the name is known.
pub open spec fn unopened_report(
    path: Seq<char>,
    name: Seq<char>,
    note: Option<Seq<char>>,
) -> ReportModel {
    ReportModel {
        path,
        name,
        driver: Seq::empty(),
        bus: Seq::empty(),
        standardized_name: standardized(name),
        compatible: occurs(name, "Linux Standardized"@),
        needs_shim: !occurs(name, "Linux Standardized"@),
        advertised_fps: Seq::empty(),
        issues: unopened_issues(name, note),
    }
}

/// A camera that was not opened is taken for compatible exactly when its name shows that it is a virtual
/// one of this program; any other needs a shim, and something is said of it.
pub proof fn lemma_unopened_report(path: Seq<char>, name: Seq<char>, note: Option<Seq<char>>)
    ensures
        ({
            let report = unopened_report(path, name, note);
            &&& report.path == path
            &&& report.name == name
            &&& report.compatible <==> occurs(name, "Linux Standardized"@)
            &&& report.needs_shim <==> !report.compatible
            &&& report.issues.len() == 0 <==> note is None && report.compatible
            &&& note matches Some(text) ==> report.issues == seq![text]
        }),
{
}

/// The text of an optional note.
pub open spec fn opt_note(note: Option<&str>) -> Option<Seq<char>> {
    match note {
        Some(note) => Some(note@),
        None => None,
    }
}

/// The report on a device that is not opened, from its name as the system gives it, or why that
/// could not be read.
pub fn probe_device_sysfs(path: &str, note: Option<&str>, name: Result<String, String>) -> (r:
    Result<DeviceReport, CamShimError>)
    ensures
        match (file_name_of(path@), name) {
            (None, _) => r matches Err(CamShimError::DeviceNotFound(what)) && what@ == path@,
            (Some(node), Err(why)) => r matches Err(err) && err.is_other(
                "could not read "@ + ("/sys/class/video4linux/"@ + node + "/name"@) + ": "@ + why@,
            ),
            (Some(_), Ok(name)) => r matches Ok(report) && report@ == unopened_report(
                path@,
                trimmed(name@),
                opt_note(note),
            ),
        },
        r matches Ok(report) ==> {
            &&& report.path@ == path@
            &&& name matches Ok(name) && report.name@ == trimmed(name@)
            &&& report.compatible <==> occurs(report.name@, "Linux Standardized"@)
            &&& report.needs_shim == !report.compatible
        },
{
    let node = match file_name(path) {
        Some(node) => node,
        None => {
            return Err(CamShimError::DeviceNotFound(path.to_string()));
        },
    };
    let name = match name {
        Ok(name) => trim(&name),
        Err(why) => {
            let name_path = concat3("/sys/class/video4linux/", &node, "/name");
            return Err(CamShimError::other(concat4("could not read ", &name_path, ": ", &why)));
        },
    };
    let standard = is_standardized_device_name(&name);
    let mut issues: Vec<String> = Vec::new();
    match note {
        Some(note) => {
            issues.push(note.to_string());
        },
        None => {
            if !standard {
                issues.push("run cam-shim scan to verify fps compatibility".to_string());
            }
        },
    }
    proof {
        assert(texts(issues@) =~= unopened_issues(name@, opt_note(note)));
    }
    let report = DeviceReport {
        path: path.to_string(),
        standardized_name: standardized_label(&name),
        name,
        driver: String::new(),
        bus: String::new(),
        compatible: standard,
        needs_shim: !standard,
        advertised_fps: Vec::new(),
        issues,
    };
    assert(report@.advertised_fps =~= Seq::<Seq<char>>::empty());
    assert(report@.driver =~= Seq::<char>::empty());
    assert(report@.bus =~= Seq::<char>::empty());
    Ok(report)
}

/// A pixel format with the frame sizes that a device has in it.
#[derive(Debug)]
pub struct FormatSizes {
    pub fourcc: FourCC,
    pub sizes: Vec<DiscreteSize>,
}

/// The frame size of a format for which a device is asked for its intervals.
#[derive(Debug, Clone, Copy)]
pub struct IntervalQuery {
    pub fourcc: FourCC,
    pub width: u32,
    pub height: u32,
}

/// The queries for one format.
pub open spec fn format_queries(format: FormatSizes) -> Seq<IntervalQuery> {
    format.sizes@.map_values(
        |size: DiscreteSize|
            IntervalQuery { fourcc: format.fourcc, width: size.width, height: size.height },
    )
}

/// The queries for several formats, format by format.
pub open spec fn all_queries(formats: Seq<FormatSizes>) -> Seq<IntervalQuery>
    decreases formats.len(),
{
    if formats.len() == 0 {
        Seq::empty()
    } else {
        all_queries(formats.drop_last()) + format_queries(formats.last())
    }
}

/// What a device is asked at full depth: its intervals in every format and size.
pub fn interval_queries(formats: &Vec<FormatSizes>) -> (r: Vec<IntervalQuery>)
    ensures
        r@ == all_queries(formats@),
{
    let mut out: Vec<IntervalQuery> = Vec::new();
    let mut i: usize = 0;
    assert(formats@.take(0) =~= Seq::<FormatSizes>::empty());
    while i < formats.len()
        invariant
            i <= formats@.len(),
            out@ == all_queries(formats@.take(i as int)),
        decreases formats@.len() - i,
    {
        let ghost before = out@;
        let ghost format = formats@[i as int];
        let mut j: usize = 0;
        while j < formats[i].sizes.len()
            invariant
                i < formats@.len(),
                format == formats@[i as int],
                j <= format.sizes@.len(),
                out@ == before + format_queries(format).take(j as int),
            decreases format.sizes@.len() - j,
        {
            let size = formats[i].sizes[j];
            out.push(
                IntervalQuery {
                    fourcc: formats[i].fourcc,
                    width: size.width,
                    height: size.height,
                },
            );
            assert(out@ =~= before + format_queries(format).take(j + 1));
            j += 1;
        }
        assert(format_queries(format).take(j as int) =~= format_queries(format));
        assert(formats@.take(i + 1).drop_last() =~= formats@.take(i as int));
        i += 1;
    }
    assert(formats@.take(i as int) =~= formats@);
    out
}

/// The intervals of the answers, in order. A query that failed adds none.
pub open spec fn answered_intervals(answers: Seq<Result<Vec<FrameInterval>, CamShimError>>) -> Seq<
    FrameInterval,
>
    decreases answers.len(),
{
    if answers.len() == 0 {
        Seq::empty()
    } else {
        answered_intervals(answers.drop_last()) + match answers.last() {
            Ok(intervals) => intervals@,
            Err(_) => Seq::empty(),
        }
    }
}

/// The intervals that a device answered with.
pub fn collect_all_intervals(answers: Vec<Result<Vec<FrameInterval>, CamShimError>>) -> (r: Vec<
    FrameInterval,
>)
    ensures
        r@ == answered_intervals(answers@),
{
    let mut out: Vec<FrameInterval> = Vec::new();
    let mut i: usize = 0;
    assert(answers@.take(0) =~= Seq::empty());
    while i < answers.len()
        invariant
            i <= answers@.len(),
            out@ == answered_intervals(answers@.take(i as int)),
        decreases answers@.len() - i,
    {
        let ghost before = out@;
        proof {
            assert(answers@.take(i + 1).drop_last() =~= answers@.take(i as int));
        }
        match &answers[i] {
            Ok(intervals) => {
                let mut j: usize = 0;
                while j < intervals.len()
                    invariant
                        j <= intervals@.len(),
                        out@ == before + intervals@.take(j as int),
                    decreases intervals@.len() - j,
                {
                    out.push(intervals[j]);
                    assert(out@ =~= before + intervals@.take(j + 1));
                    j += 1;
                }
                assert(intervals@.take(j as int) =~= intervals@);
            },
            Err(_) => {
                assert(out@ =~= before + Seq::<FrameInterval>::empty());
            },
        }
        i += 1;
    }
    assert(answers@.take(i as int) =~= answers@);
    out
}

/// An entry of the system's list of video nodes.
#[derive(Debug)]
pub struct VideoNode {
    pub name: String,
    /// Whether the node belongs to a virtual device.
    pub loopback: bool,
    /// Whether the device file is there.
    pub present: bool,
}

/// Video nodes of physical cameras, as a predicate.
pub open spec fn is_physical_node() -> spec_fn(VideoNode) -> bool {
    |node: VideoNode| names_video_node(node.name@) && !node.loopback && node.present
}

/// The paths of nodes.
pub open spec fn video_node_paths(nodes: Seq<VideoNode>) -> Seq<Seq<char>> {
    nodes.map_values(|node: VideoNode| device_file(node.name@))
}

/// The number of the video node at a path.
pub open spec fn path_number(path: Seq<char>) -> Option<nat> {
    match file_name_of(path) {
        Some(name) => node_number(name),
        None => None,
    }
}

/// The number of the video node at a path.
pub fn video_index(path: &str) -> (r: Option<usize>)
    ensures
        match r {
            Some(n) => path_number(path@) == Some(n as nat),
            None => path_number(path@) is None,
        },
{
    match file_name(path) {
        Some(name) => video_number(&name),
        None => None,
    }
}

/// The rank of a path: its number, or the highest one where it has none.
pub open spec fn path_rank(path: Seq<char>) -> nat {
    match path_number(path) {
        Some(n) => n,
        None => usize::MAX as nat,
    }
}

/// Paths with a lower rank come first.
pub open spec fn rank_order() -> spec_fn(Seq<char>, Seq<char>) -> bool {
    |a: Seq<char>, b: Seq<char>| path_rank(a) < path_rank(b)
}

/// The device files of the physical cameras, by number.
pub fn list_video_nodes(nodes: &Vec<VideoNode>) -> (r: Vec<String>)
    ensures
        sorted_by(
            video_node_paths(nodes@.filter(is_physical_node())),
            texts(r@),
            rank_order(),
        ),
{
    let ghost p = is_physical_node();
    let ghost f = |node: VideoNode| device_file(node.name@);
    let mut out: Vec<String> = Vec::new();
    let mut keys: Vec<u64> = Vec::new();
    let mut i: usize = 0;
    proof {
        lemma_filter_nothing(nodes@, p);
        assert(texts(out@) =~= video_node_paths(nodes@.take(0).filter(p)));
    }
    while i < nodes.len()
        invariant
            i <= nodes@.len(),
            p == is_physical_node(),
            f == (|node: VideoNode| device_file(node.name@)),
            texts(out@) == video_node_paths(nodes@.take(i as int).filter(p)),
            keys@.len() == out@.len(),
            forall|k: int| 0 <= k < keys@.len() ==> #[trigger] keys@[k] == path_rank(out@[k]@),
        decreases nodes@.len() - i,
    {
        proof {
            lemma_filter_step(nodes@, p, i as int);
            lemma_map_push(nodes@.take(i as int).filter(p), f, nodes@[i as int]);
        }
        if is_video_node_name(&nodes[i].name) && !nodes[i].loopback && nodes[i].present {
            let path = concat2("/dev/", &nodes[i].name);
            let rank: usize = match video_index(&path) {
                Some(n) => n,
                None => usize::MAX,
            };
            keys.push(rank as u64);
            out.push(path);
        }
        i += 1;
    }
    proof {
        lemma_filter_nothing(nodes@, p);
    }
    let order = stable_order(&keys);
    proof {
        lemma_order_of_items(keys@, texts(out@), rank_order(), as_positions(order@));
        lemma_positions_in_range(texts(out@), rank_order(), order@);
    }
    let r = pick(&out, &order);
    assert(texts(r@) =~= picked(texts(out@), as_positions(order@)));
    r
}

/// How the report on a node is made.
#[derive(Debug, Clone, Copy, PartialEq, Eq, Structural)]
pub enum ProbePlan {
    /// From the name alone.
    Name,
    /// From the name alone, with a note that the device is in use.
    NameOfBusy,
    /// By opening the device.
    Open,
}

/// How the report on a node is made: no device is opened at the lowest depth, nor one to skip.
pub open spec fn plan_for(
    path: Seq<char>,
    depth: ProbeDepth,
    skip_paths: Seq<Seq<char>>,
) -> ProbePlan {
    if depth == ProbeDepth::Sysfs {
        ProbePlan::Name
    } else if skip_paths.contains(path) {
        ProbePlan::NameOfBusy
    } else {
        ProbePlan::Open
    }
}

/// A node is opened unless only names are asked for or it is among the paths to be left alone; whatever
/// else holds, asking for names opens none.
pub proof fn lemma_plan_for(path: Seq<char>, depth: ProbeDepth, skip_paths: Seq<Seq<char>>)
    ensures
        plan_for(path, depth, skip_paths) == ProbePlan::Open <==> depth != ProbeDepth::Sysfs
            && !skip_paths.contains(path),
        plan_for(path, depth, skip_paths) == ProbePlan::Name <==> depth == ProbeDepth::Sysfs,
        plan_for(path, depth, skip_paths) == ProbePlan::NameOfBusy <==> depth != ProbeDepth::Sysfs
            && skip_paths.contains(path),
{
}

/// How the report on a node is made.
pub fn probe_plan(path: &str, depth: ProbeDepth, skip_paths: &Vec<String>) -> (r: ProbePlan)
    ensures
        r == plan_for(path@, depth, texts(skip_paths@)),
        r == ProbePlan::Open <==> depth != ProbeDepth::Sysfs && !texts(skip_paths@).contains(path@),
        r == ProbePlan::Name <==> depth == ProbeDepth::Sysfs,
{
    if let ProbeDepth::Sysfs = depth {
        return ProbePlan::Name;
    }
    if has_text(skip_paths, path) {
        ProbePlan::NameOfBusy
    } else {
        ProbePlan::Open
    }
}

/// The note on a device that is in use.
pub fn plan_note(plan: ProbePlan) -> (r: Option<String>)
    ensures
        opt_text(r) == if plan == ProbePlan::NameOfBusy {
            Some("in use by cam-shim (sysfs-only snapshot)"@)
        } else {
            None
        },
{
    match plan {
        ProbePlan::NameOfBusy => Some("in use by cam-shim (sysfs-only snapshot)".to_string()),
        _ => None,
    }
}

/// The reports among outcomes.
pub open spec fn reports_among(outcomes: Seq<Result<DeviceReport, CamShimError>>) -> Seq<
    ReportModel,
>
    decreases outcomes.len(),
{
    if outcomes.len() == 0 {
        Seq::empty()
    } else {
        let rest = reports_among(outcomes.drop_last());
        match outcomes.last() {
            Ok(report) => rest.push(report@),
            Err(_) => rest,
        }
    }
}

/// Reports are listed by path.
pub open spec fn path_order() -> spec_fn(ReportModel, ReportModel) -> bool {
    |a: ReportModel, b: ReportModel| text_before(a.path, b.path)
}

/// Sorts reports by path.
fn sort_reports(reports: &Vec<DeviceReport>) -> (r: Vec<DeviceReport>)
    ensures
        sorted_by(report_models(reports@), report_models(r@), path_order()),
{
    let mut keys: Vec<String> = Vec::new();
    let mut i: usize = 0;
    while i < reports.len()
        invariant
            i <= reports@.len(),
            keys@.len() == i,
            forall|k: int| 0 <= k < i ==> (#[trigger] keys@[k])@ == reports@[k].path@,
        decreases reports@.len() - i,
    {
        keys.push(reports[i].path.clone());
        i += 1;
    }
    let order = stable_order(&keys);
    proof {
        lemma_order_of_items(keys@, report_models(reports@), path_order(), as_positions(order@));
        lemma_positions_in_range(report_models(reports@), path_order(), order@);
    }
    let mut out: Vec<DeviceReport> = Vec::new();
    let ghost all = picked(report_models(reports@), as_positions(order@));
    let mut k: usize = 0;
    while k < order.len()
        invariant
            k <= order@.len(),
            forall|i: int| 0 <= i < order@.len() ==> #[trigger] order@[i] < reports@.len(),
            all == picked(report_models(reports@), as_positions(order@)),
            report_models(out@) == all.take(k as int),
        decreases order@.len() - k,
    {
        let ghost before = out@;
        let report = reports[order[k]].clone();
        out.push(report);
        assert(report_models(out@) =~= report_models(before).push(report@));
        assert(all.take(k + 1) =~= all.take(k as int).push(report@));
        k += 1;
    }
    assert(all.take(k as int) =~= all);
    out
}

/// The reports of a scan, by path. Devices whose probe failed are left out.
pub fn scan_devices_with_options(outcomes: Vec<Result<DeviceReport, CamShimError>>) -> (r: Vec<
    DeviceReport,
>)
    ensures
        sorted_by(reports_among(outcomes@), report_models(r@), path_order()),
{
    let mut reports: Vec<DeviceReport> = Vec::new();
    let mut i: usize = 0;
    assert(outcomes@.take(0) =~= Seq::empty());
    assert(report_models(reports@) =~= Seq::<ReportModel>::empty());
    while i < outcomes.len()
        invariant
            i <= outcomes@.len(),
            report_models(reports@) == reports_among(outcomes@.take(i as int)),
        decreases outcomes@.len() - i,
    {
        let ghost before = reports@;
        assert(outcomes@.take(i + 1).drop_last() =~= outcomes@.take(i as int));
        if let Ok(report) = &outcomes[i] {
            let report = report.clone();
            reports.push(report);
            assert(report_models(reports@) =~= report_models(before).push(report@));
        }
        i += 1;
    }
    assert(outcomes@.take(i as int) =~= outcomes@);
    sort_reports(&reports)
}

/// The rank of a node among those of its camera: capture nodes go before metadata nodes, then lower
/// numbers before higher ones.
pub open spec fn rank_of(report: ReportModel) -> (nat, nat) {
    (
        if names_metadata(report.name) {
            1
        } else {
            0
        },
        path_rank(report.path),
    )
}

/// The rank of a node among those of its camera.
pub fn node_rank(report: &DeviceReport) -> (r: (usize, usize))
    ensures
        r.0 == rank_of(report@).0,
        r.1 == rank_of(report@).1,
{
    let metadata: usize = if is_metadata_name(&report.name) {
        1
    } else {
        0
    };
    let index: usize = match video_index(&report.path) {
        Some(n) => n,
        None => usize::MAX,
    };
    (metadata, index)
}

/// The first rank goes before the second.
pub open spec fn better(a: (nat, nat), b: (nat, nat)) -> bool {
    a.0 < b.0 || a.0 == b.0 && a.1 < b.1
}

/// The keys of the cameras that nodes belong to.
pub open spec fn node_keys(reports: Seq<ReportModel>, levels: Seq<Vec<DeviceLevel>>) -> Seq<
    Seq<char>,
> {
    Seq::new(
        reports.len(),
        |i: int| camera_key(levels[i]@, reports[i].path, reports[i].name),
    )
}

/// Of the first `n` nodes, node `i` is the one that stands for its camera: the first one of the best
/// rank.
pub open spec fn is_best(
    reports: Seq<ReportModel>,
    keys: Seq<Seq<char>>,
    n: int,
    i: int,
) -> bool {
    &&& 0 <= i < n
    &&& forall|j: int|
        0 <= j < n && #[trigger] keys[j] == keys[i] ==> !better(
            rank_of(reports[j]),
            rank_of(reports[i]),
        ) && (j < i ==> better(rank_of(reports[i]), rank_of(reports[j])))
}

/// `chosen` are the positions of the nodes that stand for their cameras.
pub open spec fn are_best(
    reports: Seq<ReportModel>,
    keys: Seq<Seq<char>>,
    chosen: Seq<int>,
) -> bool {
    &&& chosen.no_duplicates()
    &&& forall|i: int| #[trigger]
        chosen.contains(i) <==> is_best(reports, keys, reports.len() as int, i)
}

/// One report per camera: `output` holds the reports of the nodes that stand for their cameras, by
/// path.
pub open spec fn is_deduped(
    reports: Seq<ReportModel>,
    keys: Seq<Seq<char>>,
    output: Seq<ReportModel>,
) -> bool {
    exists|chosen: Seq<int>| #[trigger]
        are_best(reports, keys, chosen) && sorted_by(picked(reports, chosen), output, path_order())
}

/// The best nodes so far, by camera.
spec fn tracks_best(
    best: Map<Seq<char>, usize>,
    reports: Seq<ReportModel>,
    keys: Seq<Seq<char>>,
    n: int,
) -> bool {
    &&& forall|k: Seq<char>| #[trigger]
        best.contains_key(k) ==> is_best(reports, keys, n, best[k] as int) && keys[best[k] as int]
            == k
    &&& forall|i: int| 0 <= i < n ==> best.contains_key(#[trigger] keys[i])
}

/// The node that stands for a camera is the only one.
proof fn lemma_best_unique(
    reports: Seq<ReportModel>,
    keys: Seq<Seq<char>>,
    n: int,
    i: int,
    j: int,
)
    requires
        is_best(reports, keys, n, i),
        is_best(reports, keys, n, j),
        keys[i] == keys[j],
    ensures
        i == j,
{
}

/// Keeps one report per camera: UVC cameras often have several nodes. `levels` holds, for each
/// report, the directories above its node.
pub fn dedupe_by_physical_camera(reports: &Vec<DeviceReport>, levels: &Vec<Vec<DeviceLevel>>) -> (r:
    Vec<DeviceReport>)
    requires
        levels@.len() == reports@.len(),
    ensures
        is_deduped(
            report_models(reports@),
            node_keys(report_models(reports@), levels@),
            report_models(r@),
        ),
{
    let ghost models = report_models(reports@);
    let ghost keys = node_keys(models, levels@);
    let mut best: Table<usize> = Table::new();
    let mut i: usize = 0;
    while i < reports.len()
        invariant
            i <= reports@.len(),
            levels@.len() == reports@.len(),
            models == report_models(reports@),
            keys == node_keys(models, levels@),
            tracks_best(best@, models, keys, i as int),
        decreases reports@.len() - i,
    {
        let key = physical_camera_key_with_name(&levels[i], &reports[i].path, &reports[i].name);
        let ghost known = best@;
        assert(models[i as int] == reports@[i as int]@);
        assert(key@ == keys[i as int]);
        let rank = node_rank(&reports[i]);
        let replace = match best.get(&key) {
            None => true,
            Some(at) => {
                assert(is_best(models, keys, i as int, *at as int));
                assert(models[*at as int] == reports@[*at as int]@);
                let other = node_rank(&reports[*at]);
                rank.0 < other.0 || (rank.0 == other.0 && rank.1 < other.1)
            },
        };
        if replace {
            best.insert(key, i);
        }
        proof {
            lemma_track_step(known, best@, models, keys, i as int);
        }
        i += 1;
    }
    let mut chosen: Vec<DeviceReport> = Vec::new();
    let ghost mut at: Seq<int> = Seq::empty();
    let n: usize = best.len();
    let ghost names = best.keys();
    let mut k: usize = 0;
    while k < n
        invariant
            k <= n,
            n == names.len(),
            names == best.keys(),
            names.no_duplicates(),
            models == report_models(reports@),
            keys.len() == models.len(),
            tracks_best(best@, models, keys, models.len() as int),
            at.len() == k,
            forall|a: int| 0 <= a < k ==> #[trigger] at[a] == best@[names[a]],
            forall|a: int| 0 <= a < n ==> best@.contains_key(#[trigger] names[a]),
            forall|key: Seq<char>| #[trigger] best@.contains_key(key) <==> names.contains(key),
            report_models(chosen@) == picked(models, at),
        decreases n - k,
    {
        let ghost before = chosen@;
        let ghost listed = at;
        let at_k = *best.value_at(k);
        assert(is_best(models, keys, models.len() as int, at_k as int));
        assert(models[at_k as int] == reports@[at_k as int]@);
        let report = reports[at_k].clone();
        chosen.push(report);
        proof {
            at = at.push(at_k as int);
            assert(report_models(chosen@) =~= report_models(before).push(report@));
            assert(picked(models, at) =~= picked(models, listed).push(models[at_k as int]));
        }
        k += 1;
    }
    proof {
        assert(are_best(models, keys, at)) by {
            assert forall|a: int, b: int| 0 <= a < b < at.len() implies at[a] != at[b] by {
                assert(best@.contains_key(names[a]) && best@.contains_key(names[b]));
                assert(keys[at[a]] == names[a]);
                assert(keys[at[b]] == names[b]);
            }
            assert forall|i: int| #[trigger] at.contains(i) <==> is_best(
                models,
                keys,
                models.len() as int,
                i,
            ) by {
                if at.contains(i) {
                    let a = choose|a: int| 0 <= a < at.len() && at[a] == i;
                    assert(best@.contains_key(names[a]));
                }
                if is_best(models, keys, models.len() as int, i) {
                    assert(best@.contains_key(keys[i]));
                    let a = choose|a: int| 0 <= a < names.len() && names[a] == keys[i];
                    assert(at[a] == best@[names[a]]);
                    lemma_best_unique(models, keys, models.len() as int, i, at[a]);
                }
            }
        }
    }
    sort_reports(&chosen)
}

proof fn lemma_track_step(
    before: Map<Seq<char>, usize>,
    after: Map<Seq<char>, usize>,
    reports: Seq<ReportModel>,
    keys: Seq<Seq<char>>,
    i: int,
)
    requires
        0 <= i < reports.len() <= usize::MAX,
        keys.len() == reports.len(),
        tracks_best(before, reports, keys, i),
        ({
            let key = keys[i];
            if !before.contains_key(key) || better(
                rank_of(reports[i]),
                rank_of(reports[before[key] as int]),
            ) {
                after == before.insert(key, i as usize)
            } else {
                after == before
            }
        }),
    ensures
        tracks_best(after, reports, keys, i + 1),
{
    let key = keys[i];
    assert forall|k: Seq<char>| #[trigger] after.contains_key(k) implies is_best(
        reports,
        keys,
        i + 1,
        after[k] as int,
    ) && keys[after[k] as int] == k by {
        if k != key {
            assert(before.contains_key(k));
            assert(is_best(reports, keys, i, before[k] as int));
        } else if before.contains_key(key) {
            let b = before[key] as int;
            assert(is_best(reports, keys, i, b));
            if better(rank_of(reports[i]), rank_of(reports[b])) {
                assert forall|j: int| 0 <= j < i + 1 && #[trigger] keys[j] == keys[i] implies !better(
                    rank_of(reports[j]),
                    rank_of(reports[i]),
                ) && (j < i ==> better(rank_of(reports[i]), rank_of(reports[j]))) by {
                    if j < i {
                        assert(!better(rank_of(reports[j]), rank_of(reports[b])));
                    }
                }
            } else {
                assert forall|j: int| 0 <= j < i + 1 && #[trigger] keys[j] == keys[b] implies !better(
                    rank_of(reports[j]),
                    rank_of(reports[b]),
                ) && (j < b ==> better(rank_of(reports[b]), rank_of(reports[j]))) by {}
            }
        } else {
            assert forall|j: int| 0 <= j < i implies #[trigger] keys[j] != key by {
                if keys[j] == key {
                    assert(before.contains_key(keys[j]));
                }
            }
        }
    }
    assert forall|j: int| 0 <= j < i + 1 implies after.contains_key(#[trigger] keys[j]) by {
        if j < i {
            assert(before.contains_key(keys[j]));
        }
    }
}

/// One of the chosen nodes belongs to the camera.
pub open spec fn stands_for(keys: Seq<Seq<char>>, chosen: Seq<int>, key: Seq<char>) -> bool {
    exists|k: int| 0 <= k < chosen.len() && keys[#[trigger] chosen[k]] == key
}

/// Every camera is in the result once: each node's camera has a report, and no two reports are of
/// the same camera.
pub proof fn lemma_one_report_per_camera(
    reports: Seq<ReportModel>,
    keys: Seq<Seq<char>>,
    chosen: Seq<int>,
)
    requires
        keys.len() == reports.len(),
        are_best(reports, keys, chosen),
    ensures
        forall|i: int|
            0 <= i < reports.len() ==> #[trigger] stands_for(keys, chosen, keys[i]),
        forall|a: int, b: int|
            0 <= a < chosen.len() && 0 <= b < chosen.len() && keys[#[trigger] chosen[a]]
                == keys[#[trigger] chosen[b]] ==> a == b,
{
    let n = reports.len() as int;
    assert forall|i: int| 0 <= i < reports.len() implies #[trigger] stands_for(
        keys,
        chosen,
        keys[i],
    ) by {
        let b = lemma_best_exists(reports, keys, n, i);
        assert(chosen.contains(b));
    }
    assert forall|a: int, b: int|
        0 <= a < chosen.len() && 0 <= b < chosen.len() && keys[#[trigger] chosen[a]]
            == keys[#[trigger] chosen[b]] implies a == b by {
        assert(chosen.contains(chosen[a]) && chosen.contains(chosen[b]));
        lemma_best_unique(reports, keys, n, chosen[a], chosen[b]);
    }
}

proof fn lemma_best_exists(reports: Seq<ReportModel>, keys: Seq<Seq<char>>, n: int, i: int) -> (r:
    int)
    requires
        0 <= i < n <= reports.len(),
        keys.len() == reports.len(),
    ensures
        is_best(reports, keys, n, r),
        keys[r] == keys[i],
    decreases n,
{
    let last = n - 1;
    if exists|j: int| 0 <= j < last && keys[j] == keys[i] {
        let j = choose|j: int| 0 <= j < last && keys[j] == keys[i];
        let b = lemma_best_exists(reports, keys, last, j);
        if keys[last] == keys[i] && better(rank_of(reports[last]), rank_of(reports[b])) {
            assert forall|j: int| 0 <= j < n && #[trigger] keys[j] == keys[last] implies !better(
                rank_of(reports[j]),
                rank_of(reports[last]),
            ) && (j < last ==> better(rank_of(reports[last]), rank_of(reports[j]))) by {
                if j < last {
                    assert(!better(rank_of(reports[j]), rank_of(reports[b])));
                }
            }
            last
        } else {
            b
        }
    } else {
        i
    }
}

/// Of each camera one node is kept: no node that captures is given up for one that holds metadata, and
/// of nodes of the same sort none for one with a higher number. Nothing is kept that was not found.
pub proof fn lemma_best_node_is_kept(
    reports: Seq<ReportModel>,
    keys: Seq<Seq<char>>,
    output: Seq<ReportModel>,
    j: int,
)
    requires
        keys.len() == reports.len(),
        is_deduped(reports, keys, output),
        0 <= j < reports.len(),
    ensures
        exists|c: int|
            {
                &&& 0 <= c < reports.len()
                &&& keys[c] == keys[j]
                &&& output.contains(#[trigger] reports[c])
                &&& names_metadata(reports[c].name) ==> names_metadata(reports[j].name)
                &&& names_metadata(reports[c].name) == names_metadata(reports[j].name)
                    ==> path_rank(reports[c].path) <= path_rank(reports[j].path)
            },
        forall|k: int| 0 <= k < output.len() ==> reports.contains(#[trigger] output[k]),
        output.len() <= reports.len(),
{
    let n = reports.len() as int;
    let chosen = choose|chosen: Seq<int>| #[trigger]
        are_best(reports, keys, chosen) && sorted_by(
            picked(reports, chosen),
            output,
            path_order(),
        );
    let kept = picked(reports, chosen);
    lemma_path_order_strict();
    let c = lemma_best_exists(reports, keys, n, j);
    assert(chosen.contains(c));
    let k = choose|k: int| 0 <= k < chosen.len() && chosen[k] == c;
    assert(kept[k] == reports[c]);
    crate::order::lemma_sorted_members(kept, output, path_order(), reports[c]);
    assert(!better(rank_of(reports[j]), rank_of(reports[c])));
    assert forall|k: int| 0 <= k < output.len() implies reports.contains(#[trigger] output[k]) by {
        let from = crate::order::lemma_sorted_from(kept, output, path_order(), k);
        assert(chosen.contains(chosen[from]));
        assert(is_best(reports, keys, n, chosen[from]));
        assert(kept[from] == reports[chosen[from]]);
    }
    assert(chosen.len() <= n) by {
        assert forall|k: int| 0 <= k < chosen.len() implies 0 <= #[trigger] chosen[k] < n by {
            assert(chosen.contains(chosen[k]));
        }
        lemma_distinct_positions(chosen, n);
    }
}

proof fn lemma_path_order_strict()
    ensures
        forall|a: ReportModel| !#[trigger] path_order()(a, a),
        forall|a: ReportModel, b: ReportModel| #[trigger]
            path_order()(a, b) ==> !path_order()(b, a),
{
    assert forall|a: ReportModel| !#[trigger] path_order()(a, a) by {
        crate::order::lemma_text_before_total(a.path, a.path);
    }
    assert forall|a: ReportModel, b: ReportModel| #[trigger] path_order()(a, b) implies !path_order()(
        b,
        a,
    ) by {
        crate::order::lemma_text_before_total(a.path, b.path);
    }
}

proof fn lemma_distinct_positions(positions: Seq<int>, n: int)
    requires
        n >= 0,
        positions.no_duplicates(),
        forall|k: int| 0 <= k < positions.len() ==> 0 <= #[trigger] positions[k] < n,
    ensures
        positions.len() <= n,
{
    let all = vstd::set_lib::set_int_range(0, n);
    vstd::set_lib::lemma_int_range(0, n);
    positions.unique_seq_to_set();
    assert(positions.to_set().subset_of(all));
    vstd::set_lib::lemma_len_subset(positions.to_set(), all);
}

/// The nodes of physical cameras are listed, all of them and no others, by number.
pub proof fn lemma_physical_nodes_are_listed(
    nodes: Seq<VideoNode>,
    paths: Seq<Seq<char>>,
    a: nat,
    b: nat,
    i: int,
    j: int,
)
    requires
        sorted_by(video_node_paths(nodes.filter(is_physical_node())), paths, rank_order()),
        a <= u32::MAX && b <= u32::MAX,
    ensures
        paths.contains("/dev/video"@ + decimal(a)) <==> exists|k: int|
            {
                &&& 0 <= k < nodes.len()
                &&& (#[trigger] nodes[k]).name@ == "video"@ + decimal(a)
                &&& !nodes[k].loopback
                &&& nodes[k].present
            },
        0 <= i < j < paths.len() && paths[i] == "/dev/video"@ + decimal(a) && paths[j]
            == "/dev/video"@ + decimal(b) ==> a <= b,
{
    broadcast use vstd::seq_lib::group_filter_ensures;

    let p = is_physical_node();
    let kept = nodes.filter(p);
    let listed = video_node_paths(kept);
    let path = "/dev/video"@ + decimal(a);
    lemma_number_is_read_back(a);
    lemma_number_is_read_back(b);
    lemma_rank_of_number(a);
    lemma_rank_of_number(b);
    crate::order::lemma_sorted_members(listed, paths, rank_order(), path);
    if 0 <= i < j < paths.len() && paths[i] == path && paths[j] == "/dev/video"@ + decimal(b) {
        crate::order::lemma_sorted_in_order(listed, paths, rank_order(), i, j);
    }
    if listed.contains(path) {
        let k = choose|k: int| 0 <= k < listed.len() && listed[k] == path;
        let node = kept[k];
        assert(kept.contains(node));
        crate::split::lemma_filter_members(nodes, p, node);
        let at = choose|at: int| 0 <= at < nodes.len() && nodes[at] == node;
        assert(("/dev/"@ + node.name@).skip("/dev/"@.len() as int) =~= node.name@);
        assert(("/dev/"@ + node_name(a)).skip("/dev/"@.len() as int) =~= node_name(a));
        assert(nodes[at].name@ == "video"@ + decimal(a));
    }
    if exists|k: int|
        {
            &&& 0 <= k < nodes.len()
            &&& (#[trigger] nodes[k]).name@ == "video"@ + decimal(a)
            &&& !nodes[k].loopback
            &&& nodes[k].present
        } {
        let k = choose|k: int|
            {
                &&& 0 <= k < nodes.len()
                &&& (#[trigger] nodes[k]).name@ == "video"@ + decimal(a)
                &&& !nodes[k].loopback
                &&& nodes[k].present
            };
        let name = nodes[k].name@;
        reveal_strlit("video");
        assert(name.subrange(0, 5) =~= "video"@);
        assert(name.subrange(5, name.len() as int) =~= decimal(a));
        crate::text::lemma_decimal_parses(a);
        crate::split::lemma_filter_members(nodes, p, nodes[k]);
        assert(nodes.contains(nodes[k]));
        assert(p(nodes[k]));
        let m = choose|m: int| 0 <= m < kept.len() && kept[m] == nodes[k];
        assert(listed[m] == path);
    }
}

proof fn lemma_rank_of_number(n: nat)
    requires
        n <= u32::MAX,
    ensures
        path_rank("/dev/video"@ + decimal(n)) == n,
{
    let name = node_name(n);
    lemma_number_is_read_back(n);
    reveal_strlit("video");
    reveal_strlit("/dev/");
    reveal_strlit(".");
    reveal_strlit("..");
    crate::text::lemma_decimal_parses(n);
    assert(name[0] == 'v');
    assert(!name.contains('/')) by {
        if name.contains('/') {
            let i = choose|i: int| 0 <= i < name.len() && name[i] == '/';
            if i >= 5 {
                assert(crate::text::is_digit(decimal(n)[i - 5]));
            }
        }
    }
    let dir = seq!['/', 'd', 'e', 'v'];
    assert("/dev/"@ =~= dir + seq!['/']);
    assert("/dev/video"@ + decimal(n) =~= dir + seq!['/'] + name);
    crate::split::lemma_file_name(dir, name);
}

/// A scan keeps the report of every probe that succeeded, and no other, in the order of the paths.
pub proof fn lemma_scan_keeps_successes(
    outcomes: Seq<Result<DeviceReport, CamShimError>>,
    output: Seq<ReportModel>,
    report: ReportModel,
    i: int,
    j: int,
)
    requires
        sorted_by(reports_among(outcomes), output, path_order()),
    ensures
        output.contains(report) <==> exists|k: int|
            0 <= k < outcomes.len() && ((#[trigger] outcomes[k]) matches Ok(found) && found@
                == report),
        0 <= i < j < output.len() ==> !text_before(output[j].path, output[i].path),
{
    lemma_path_order_strict();
    crate::order::lemma_sorted_members(reports_among(outcomes), output, path_order(), report);
    lemma_reports_among(outcomes, report);
    if 0 <= i < j < output.len() {
        crate::order::lemma_sorted_in_order(reports_among(outcomes), output, path_order(), i, j);
    }
}

proof fn lemma_reports_among(
    outcomes: Seq<Result<DeviceReport, CamShimError>>,
    report: ReportModel,
)
    ensures
        reports_among(outcomes).contains(report) <==> exists|k: int|
            0 <= k < outcomes.len() && ((#[trigger] outcomes[k]) matches Ok(found) && found@
                == report),
    decreases outcomes.len(),
{
    if outcomes.len() > 0 {
        let rest = outcomes.drop_last();
        lemma_reports_among(rest, report);
        let found = reports_among(rest);
        if let Ok(last) = outcomes.last() {
            crate::order::lemma_push_contains(found, last@, report);
        }
        if reports_among(outcomes).contains(report) {
            if found.contains(report) {
                let k = choose|k: int|
                    0 <= k < rest.len() && ((#[trigger] rest[k]) matches Ok(r) && r@ == report);
                assert(outcomes[k] == rest[k]);
            } else {
                assert(outcomes[outcomes.len() - 1] == outcomes.last());
            }
        }
        if exists|k: int|
            0 <= k < outcomes.len() && ((#[trigger] outcomes[k]) matches Ok(r) && r@ == report) {
            let k = choose|k: int|
                0 <= k < outcomes.len() && ((#[trigger] outcomes[k]) matches Ok(r) && r@ == report);
            if k < rest.len() {
                assert(rest[k] == outcomes[k]);
            }
        }
    }
}

/// A device is asked for its intervals in every size of every format that it offers, and in no other.
pub proof fn lemma_every_mode_is_asked(formats: Seq<FormatSizes>, query: IntervalQuery)
    ensures
        all_queries(formats).contains(query) <==> exists|i: int, j: int|
            {
                &&& 0 <= i < formats.len()
                &&& 0 <= j < (#[trigger] formats[i]).sizes@.len()
                &&& query.fourcc == formats[i].fourcc
                &&& query.width == (#[trigger] formats[i].sizes@[j]).width
                &&& query.height == formats[i].sizes@[j].height
            },
    decreases formats.len(),
{
    if formats.len() > 0 {
        let rest = formats.drop_last();
        let last = formats.last();
        let n = formats.len() - 1;
        lemma_every_mode_is_asked(rest, query);
        let head = all_queries(rest);
        let tail = format_queries(last);
        if all_queries(formats).contains(query) {
            let k = choose|k: int| 0 <= k < (head + tail).len() && (head + tail)[k] == query;
            if k < head.len() {
                assert(head[k] == query);
                assert(head.contains(query));
                let (i, j) = choose|i: int, j: int|
                    {
                        &&& 0 <= i < rest.len()
                        &&& 0 <= j < (#[trigger] rest[i]).sizes@.len()
                        &&& query.fourcc == rest[i].fourcc
                        &&& query.width == (#[trigger] rest[i].sizes@[j]).width
                        &&& query.height == rest[i].sizes@[j].height
                    };
                assert(formats[i] == rest[i]);
                assert(formats[i].sizes@[j] == rest[i].sizes@[j]);
            } else {
                let j = k - head.len();
                assert(tail[j] == query);
                assert(formats[n] == last);
                assert(formats[n].sizes@[j] == last.sizes@[j]);
            }
        }
        if exists|i: int, j: int|
            {
                &&& 0 <= i < formats.len()
                &&& 0 <= j < (#[trigger] formats[i]).sizes@.len()
                &&& query.fourcc == formats[i].fourcc
                &&& query.width == (#[trigger] formats[i].sizes@[j]).width
                &&& query.height == formats[i].sizes@[j].height
            } {
            let (i, j) = choose|i: int, j: int|
                {
                    &&& 0 <= i < formats.len()
                    &&& 0 <= j < (#[trigger] formats[i]).sizes@.len()
                    &&& query.fourcc == formats[i].fourcc
                    &&& query.width == (#[trigger] formats[i].sizes@[j]).width
                    &&& query.height == formats[i].sizes@[j].height
                };
            if i < n {
                assert(rest[i] == formats[i]);
                assert(rest[i].sizes@[j] == formats[i].sizes@[j]);
                assert(head.contains(query));
                let k = choose|k: int| 0 <= k < head.len() && head[k] == query;
                assert((head + tail)[k] == query);
            } else {
                assert(tail[j] == query);
                assert((head + tail)[head.len() + j] == query);
            }
        }
    }
}

/// The intervals that count are those of the queries that were answered, all of them.
pub proof fn lemma_every_answer_counts(
    answers: Seq<Result<Vec<FrameInterval>, CamShimError>>,
    interval: FrameInterval,
)
    ensures
        answered_intervals(answers).contains(interval) <==> exists|i: int|
            0 <= i < answers.len() && ((#[trigger] answers[i]) matches Ok(intervals)
                && intervals@.contains(interval)),
    decreases answers.len(),
{
    if answers.len() > 0 {
        let rest = answers.drop_last();
        let n = answers.len() - 1;
        lemma_every_answer_counts(rest, interval);
        let head = answered_intervals(rest);
        let tail = match answers.last() {
            Ok(intervals) => intervals@,
            Err(_) => Seq::empty(),
        };
        if answered_intervals(answers).contains(interval) {
            let k = choose|k: int| 0 <= k < (head + tail).len() && (head + tail)[k] == interval;
            if k < head.len() {
                assert(head[k] == interval);
                assert(head.contains(interval));
                let i = choose|i: int|
                    0 <= i < rest.len() && ((#[trigger] rest[i]) matches Ok(intervals)
                        && intervals@.contains(interval));
                assert(answers[i] == rest[i]);
            } else {
                assert(tail[k - head.len()] == interval);
                assert(tail.contains(interval));
                assert(answers[n] == answers.last());
            }
        }
        if exists|i: int|
            0 <= i < answers.len() && ((#[trigger] answers[i]) matches Ok(intervals)
                && intervals@.contains(interval)) {
            let i = choose|i: int|
                0 <= i < answers.len() && ((#[trigger] answers[i]) matches Ok(intervals)
                    && intervals@.contains(interval));
            if i < n {
                assert(rest[i] == answers[i]);
                assert(head.contains(interval));
                let k = choose|k: int| 0 <= k < head.len() && head[k] == interval;
                assert((head + tail)[k] == interval);
            } else {
                let k = choose|k: int| 0 <= k < tail.len() && tail[k] == interval;
                assert((head + tail)[head.len() + k] == interval);
            }
        }
    }
}

} // verus!
