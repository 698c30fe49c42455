use cam_shim::devices::DeviceLevel;
use cam_shim::error::{CamShimError, IoKind};
use cam_shim::media::{DiscreteSize, FourCC, Fraction, FrameInterval, FrameIntervalEnum};
use cam_shim::probe::{
    collect_all_intervals, dedupe_by_physical_camera, interval_queries,
    is_standardized_device_name, list_video_nodes, node_rank, plan_note, probe_device,
    probe_device_path, probe_device_sysfs, probe_plan, scan_devices_with_options, video_index,
    DeviceCaps, DeviceProbe, DeviceReport, FormatSizes, ProbeDepth, ProbePlan, VideoNode,
};

fn caps(video_capture: bool) -> DeviceCaps {
    DeviceCaps {
        video_capture,
        card: "Cam".into(),
        driver: "uvcvideo".into(),
        bus: "usb-1".into(),
    }
}

fn interval(fps: u32) -> FrameInterval {
    FrameInterval {
        index: 0,
        fourcc: FourCC::new(b"MJPG"),
        width: 640,
        height: 480,
        typ: 1,
        interval: FrameIntervalEnum::Discrete(Fraction::new(1, fps)),
    }
}

fn report(path: &str, name: &str) -> DeviceReport {
    DeviceReport {
        path: path.into(),
        name: name.into(),
        driver: String::new(),
        bus: String::new(),
        standardized_name: "Cam".into(),
        compatible: false,
        needs_shim: true,
        advertised_fps: Vec::new(),
        issues: Vec::new(),
    }
}

#[test]
fn standardized_name_detection() {
    assert!(is_standardized_device_name(
        "webcam: Fantech Luminous C30 - Linux Standardized"
    ));
    assert!(!is_standardized_device_name("webcam: Fantech Luminous C30"));
}

#[test]
fn node_rank_prefers_capture_over_metadata() {
    let capture = DeviceReport {
        path: "/dev/video2".into(),
        name: "webcam: Example".into(),
        driver: String::new(),
        bus: String::new(),
        standardized_name: String::new(),
        compatible: false,
        needs_shim: true,
        advertised_fps: Vec::new(),
        issues: Vec::new(),
    };
    let metadata = DeviceReport {
        name: "webcam: Example Metadata".into(),
        path: "/dev/video1".into(),
        ..capture.clone()
    };
    assert!(node_rank(&capture) < node_rank(&metadata));
}

#[test]
fn dedupe_keeps_lowest_video_index_per_path_key() {
    let reports = vec![report("/dev/video2", "Cam"), report("/dev/video1", "Cam")];
    let levels = vec![Vec::new(), Vec::new()];
    let deduped = dedupe_by_physical_camera(&reports, &levels);
    assert_eq!(deduped.len(), 1);
    assert_eq!(deduped[0].path, "/dev/video1");
}

#[test]
fn cameras_with_one_name_are_kept_apart_by_serial() {
    let level = |serial: &str| {
        vec![DeviceLevel {
            has_vendor: true,
            vendor: Some("1".into()),
            product: Some("2".into()),
            serial: Some(serial.into()),
        }]
    };
    let reports = vec![
        report("/dev/video4", "Cam"),
        report("/dev/video2", "Cam"),
        report("/dev/video0", "Cam Metadata"),
    ];
    let levels = vec![level("A"), level("B"), level("B")];
    let deduped = dedupe_by_physical_camera(&reports, &levels);
    let paths: Vec<&str> = deduped.iter().map(|r| r.path.as_str()).collect();
    assert_eq!(paths, vec!["/dev/video2", "/dev/video4"]);
}

#[test]
fn probe_reports_what_the_camera_offers() {
    let probe = DeviceProbe { caps: Ok(caps(true)), intervals: Ok(vec![interval(25)]) };
    let found = probe_device_path("/dev/video0", Some(probe)).expect("a camera");
    assert_eq!(found.path, "/dev/video0");
    assert_eq!(found.name, "Cam");
    assert_eq!((found.driver.as_str(), found.bus.as_str()), ("uvcvideo", "usb-1"));
    assert_eq!(found.standardized_name, "Cam - Linux Standardized");
    assert!(found.needs_shim && !found.compatible);
    assert_eq!(found.advertised_fps, vec!["25 fps"]);
    assert_eq!(found.issues, vec!["no 30/60 fps modes (found: 25 fps)"]);
}

#[test]
fn probe_fails_for_what_is_no_camera() {
    assert_eq!(
        probe_device_path("/dev/video0", None).unwrap_err().message(),
        "device not found: /dev/video0"
    );
    let output = DeviceProbe { caps: Ok(caps(false)), intervals: Ok(Vec::new()) };
    assert_eq!(
        probe_device_path("/dev/video0", Some(output)).unwrap_err().message(),
        "device is not a video capture source: /dev/video0"
    );
    let broken = DeviceProbe {
        caps: Err(CamShimError::io(IoKind::Other, "no caps".into())),
        intervals: Ok(Vec::new()),
    };
    assert_eq!(
        probe_device_path("/dev/video0", Some(broken)).unwrap_err().message(),
        "io error: no caps"
    );
    let silent = DeviceProbe {
        caps: Ok(caps(true)),
        intervals: Err(CamShimError::io(IoKind::TimedOut, "slow".into())),
    };
    assert_eq!(
        probe_device("/dev/video0", ProbeDepth::Quick, Some(silent)).unwrap_err().message(),
        "io error: slow"
    );
    let closed = DeviceProbe { caps: Ok(caps(true)), intervals: Ok(Vec::new()) };
    assert_eq!(
        probe_device("/dev/video0", ProbeDepth::Sysfs, Some(closed)).unwrap_err().message(),
        "io error: sysfs probe does not open devices"
    );
}

#[test]
fn names_alone_give_a_report() {
    let found = probe_device_sysfs("/dev/video0", None, Ok(" Cam \n".into())).expect("a name");
    assert_eq!(found.name, "Cam");
    assert!(found.needs_shim);
    assert_eq!(found.issues, vec!["run cam-shim scan to verify fps compatibility"]);
    let noted = probe_device_sysfs("/dev/video0", Some("busy"), Ok("Cam".into())).expect("a name");
    assert_eq!(noted.issues, vec!["busy"]);
    let fine = probe_device_sysfs("/dev/video0", None, Ok("Cam - Linux Standardized".into()))
        .expect("a name");
    assert!(fine.compatible && !fine.needs_shim);
    assert!(fine.issues.is_empty());
    assert_eq!(
        probe_device_sysfs("/dev/video0", None, Err("gone".into())).unwrap_err().message(),
        "io error: could not read /sys/class/video4linux/video0/name: gone"
    );
}

#[test]
fn every_size_of_every_format_is_asked_for() {
    let formats = vec![
        FormatSizes {
            fourcc: FourCC::new(b"MJPG"),
            sizes: vec![
                DiscreteSize { width: 640, height: 480 },
                DiscreteSize { width: 1280, height: 720 },
            ],
        },
        FormatSizes {
            fourcc: FourCC::new(b"YUYV"),
            sizes: vec![DiscreteSize { width: 320, height: 240 }],
        },
    ];
    let queries = interval_queries(&formats);
    assert_eq!(queries.len(), 3);
    assert_eq!((queries[1].width, queries[1].height), (1280, 720));
    assert_eq!(queries[2].fourcc.repr, *b"YUYV");
    let all = collect_all_intervals(vec![
        Ok(vec![interval(25)]),
        Err(CamShimError::io(IoKind::Other, "x".into())),
        Ok(vec![interval(30), interval(60)]),
    ]);
    assert_eq!(all.len(), 3);
    assert_eq!(
        all[2].interval,
        FrameIntervalEnum::Discrete(Fraction::new(1, 60))
    );
}

#[test]
fn nodes_are_listed_by_number() {
    let node = |name: &str, loopback: bool, present: bool| VideoNode {
        name: name.into(),
        loopback,
        present,
    };
    let nodes = vec![
        node("video10", false, true),
        node("video2", false, true),
        node("video3", true, true),
        node("video4", false, false),
        node("videox", false, true),
        node("video99999999999999999999", false, true),
    ];
    assert_eq!(
        list_video_nodes(&nodes),
        vec!["/dev/video2", "/dev/video10", "/dev/video99999999999999999999"]
    );
    assert_eq!(video_index("/dev/video7"), Some(7));
    assert_eq!(video_index("/dev/radio7"), None);
}

#[test]
fn busy_devices_are_not_opened() {
    let held = vec!["/dev/video0".to_string()];
    assert_eq!(probe_plan("/dev/video0", ProbeDepth::Full, &held), ProbePlan::NameOfBusy);
    assert_eq!(probe_plan("/dev/video2", ProbeDepth::Quick, &held), ProbePlan::Open);
    assert_eq!(probe_plan("/dev/video0", ProbeDepth::Sysfs, &held), ProbePlan::Name);
    assert_eq!(
        plan_note(ProbePlan::NameOfBusy),
        Some("in use by cam-shim (sysfs-only snapshot)".to_string())
    );
    assert_eq!(plan_note(ProbePlan::Name), None);
}

#[test]
fn scan_keeps_what_could_be_probed() {
    let scanned = scan_devices_with_options(vec![
        Ok(report("/dev/video2", "B")),
        Err(CamShimError::DeviceNotFound("/dev/video4".into())),
        Ok(report("/dev/video10", "A")),
    ]);
    let paths: Vec<&str> = scanned.iter().map(|r| r.path.as_str()).collect();
    assert_eq!(paths, vec!["/dev/video10", "/dev/video2"]);
}
