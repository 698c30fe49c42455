use cam_shim::camera_view::{
    build_device_views, collect_scan_report, device_lines, device_views_from_snapshot,
    format_device_line, role_label, scan_lines, video_index_from_path, virtual_matches_physical,
    DeviceRole, ScanReport,
};
use cam_shim::compat::{kernel_card_label, kernel_card_label_bytes, standardized_label};
use cam_shim::devices::{physical_camera_key_with_name, DeviceLevel};
use cam_shim::loopback::{is_cam_shim_loopback, LoopbackDeviceInfo};
use cam_shim::probe::DeviceReport;
use cam_shim::runtime::{
    LoopbackSnapshot, ManagedCameraSnapshot, RuntimeSnapshot, SupervisorStateSnapshot,
};

fn sample_physical(path: &str, name: &str, needs_shim: bool) -> DeviceReport {
    DeviceReport {
        path: path.into(),
        name: name.into(),
        driver: "uvcvideo".into(),
        bus: "usb".into(),
        standardized_name: standardized_label(name),
        compatible: !needs_shim,
        needs_shim,
        advertised_fps: vec!["25 fps".into()],
        issues: Vec::new(),
    }
}

fn sample_loopback(path: &str, name: &str) -> LoopbackDeviceInfo {
    LoopbackDeviceInfo {
        path: path.into(),
        index: video_index_from_path(path).unwrap_or(0),
        name: name.into(),
    }
}

fn no_levels(n: usize) -> Vec<Vec<DeviceLevel>> {
    let mut levels = Vec::new();
    for _ in 0..n {
        levels.push(Vec::new());
    }
    levels
}

#[test]
fn virtual_name_matching_handles_kernel_truncation() {
    assert!(virtual_matches_physical(
        "Fantech Luminous C30",
        "Fantech Luminous C30 - Linux Std"
    ));
    assert!(virtual_matches_physical(
        "Fantech Luminous C30",
        "webcam: Fantech Luminous C30 -"
    ));
    assert!(!virtual_matches_physical(
        "Fantech Luminous C30",
        "OBS Virtual Camera"
    ));
}

#[test]
fn build_pairs_physical_with_cam_shim_loopback() {
    let physical = vec![sample_physical("/dev/video0", "Fantech Luminous C30", true)];
    let loopbacks = vec![sample_loopback(
        "/dev/video10",
        "Fantech Luminous C30 - Linux Std",
    )];

    let report = build_device_views(&physical, &no_levels(1), &loopbacks, true, None);
    assert_eq!(report.devices.len(), 2);

    let physical = report
        .devices
        .iter()
        .find(|device| device.path == "/dev/video0")
        .expect("physical device");
    assert_eq!(physical.paired_with.as_deref(), Some("/dev/video10"));
    assert!(!physical.use_in_apps);

    let virtual_dev = report
        .devices
        .iter()
        .find(|device| device.path == "/dev/video10")
        .expect("virtual device");
    assert_eq!(virtual_dev.paired_with.as_deref(), Some("/dev/video0"));
    assert!(virtual_dev.use_in_apps);
    assert_eq!(virtual_dev.tags, vec!["virtual", "use this"]);

    assert_eq!(report.recommended_devices.len(), 1);
    assert_eq!(report.recommended_devices[0].path, "/dev/video10");
    assert_eq!(report.recommended_devices[0].for_physical, "/dev/video0");
}

#[test]
fn recommended_devices_empty_when_serve_not_running() {
    let physical = vec![sample_physical("/dev/video0", "Cam", true)];
    let loopbacks = vec![sample_loopback("/dev/video10", "Cam - Linux Std")];

    let report = build_device_views(&physical, &no_levels(1), &loopbacks, false, None);
    assert!(report.recommended_devices.is_empty());
    assert!(!report.devices[1].use_in_apps);
    assert_eq!(report.devices[1].tags, vec!["virtual", "cam-shim"]);
}

#[test]
fn managed_state_pairs_by_serial() {
    let physical = vec![sample_physical("/dev/video0", "Cam", true)];
    let loopbacks = vec![sample_loopback("/dev/video10", "Other Name")];
    let managed = vec![ManagedCameraSnapshot {
        serial: physical_camera_key_with_name(&Vec::new(), "/dev/video0", "Cam"),
        loopback_path: "/dev/video10".into(),
        ..Default::default()
    }];

    let report = build_device_views(&physical, &no_levels(1), &loopbacks, true, Some(&managed));
    assert_eq!(
        report.devices[0].paired_with.as_deref(),
        Some("/dev/video10")
    );
}

#[test]
fn partner_of_a_virtual_camera_is_paired_back() {
    let physical =
        vec![sample_physical("/dev/video0", "Cam", true), sample_physical("/dev/video2", "Cam", true)];
    let loopbacks = vec![sample_loopback("/dev/video10", "Cam - Linux Std")];
    let report = build_device_views(&physical, &no_levels(2), &loopbacks, true, None);
    let shown = |path: &str| report.devices.iter().find(|device| device.path == path).unwrap();
    let partner = shown("/dev/video10").paired_with.clone().unwrap();
    assert_eq!(partner, "/dev/video2");
    assert_eq!(shown(&partner).paired_with.as_deref(), Some("/dev/video10"));
    assert_eq!(shown("/dev/video0").paired_with.as_deref(), Some("/dev/video10"));
}

#[test]
fn quarantined_camera_is_not_paired_by_serial() {
    let physical = vec![sample_physical("/dev/video0", "Cam", true)];
    let loopbacks = vec![sample_loopback("/dev/video10", "Other Name")];
    let managed = vec![ManagedCameraSnapshot {
        serial: "name:Cam".into(),
        loopback_path: "/dev/video10".into(),
        quarantined: true,
        ..Default::default()
    }];
    let report = build_device_views(&physical, &no_levels(1), &loopbacks, true, Some(&managed));
    assert_eq!(report.devices[0].paired_with, None);
    assert_eq!(report.devices[1].paired_with, None);
}

#[test]
fn own_virtual_camera_matches_its_camera_whatever_its_name() {
    for name in [
        "HD USB Camera",
        "",
        "   ",
        "webcam: Fantech Luminous C30",
        "A very long camera name that does not fit into the field",
        "webcam:",
        "Kamera für Büro und Häuser, größer",
    ] {
        let label = standardized_label(name);
        assert!(virtual_matches_physical(name, &label));
        assert!(virtual_matches_physical(name, &kernel_card_label(&label)));
        let field = kernel_card_label_bytes(&label);
        let end = field.iter().position(|byte| *byte == 0).unwrap();
        let read = String::from_utf8(field[..end].to_vec()).unwrap();
        assert_eq!(read, kernel_card_label(&label));
        assert!(virtual_matches_physical(name, &read));
        assert!(is_cam_shim_loopback(&read));
    }
}

#[test]
fn names_of_other_cameras_do_not_match() {
    assert!(!virtual_matches_physical("Logitech C920", "Fantech C30 - Linux Std"));
    assert!(!virtual_matches_physical("Fantech C30", "Fantech C30"));
    assert!(virtual_matches_physical("Fantech C30", "webcam: Fantech C30 - -"));
}

#[test]
fn other_virtual_cameras_are_shown_but_not_recommended() {
    let physical = vec![sample_physical("/dev/video0", "Cam", true)];
    let loopbacks = vec![sample_loopback("/dev/video20", "OBS Virtual Camera")];
    let report = build_device_views(&physical, &no_levels(1), &loopbacks, true, None);
    assert_eq!(report.devices[1].role, DeviceRole::VirtualOther);
    assert_eq!(report.devices[1].tags, vec!["virtual", "other"]);
    assert!(report.recommended_devices.is_empty());
}

#[test]
fn compatible_camera_has_no_recommended_stand_in() {
    let physical = vec![sample_physical("/dev/video0", "Cam", false)];
    let loopbacks = vec![sample_loopback("/dev/video10", "Cam - Linux Std")];
    let report = build_device_views(&physical, &no_levels(1), &loopbacks, true, None);
    assert_eq!(report.devices[0].tags, vec!["physical", "compatible"]);
    assert_eq!(report.devices[1].paired_with.as_deref(), Some("/dev/video0"));
    assert!(!report.devices[1].use_in_apps);
}

#[test]
fn devices_are_listed_in_text_order_of_their_paths() {
    let physical = vec![
        sample_physical("/dev/video2", "B", true),
        sample_physical("/dev/video0", "A", true),
    ];
    let loopbacks = vec![sample_loopback("/dev/video10", "X")];
    let report = build_device_views(&physical, &no_levels(2), &loopbacks, true, None);
    let paths: Vec<&str> = report.devices.iter().map(|d| d.path.as_str()).collect();
    assert_eq!(paths, vec!["/dev/video0", "/dev/video10", "/dev/video2"]);
}

#[test]
fn scan_is_written_as_the_readme_shows_it() {
    let physical = vec![sample_physical("/dev/video0", "Fantech C30", true)];
    let loopbacks = vec![sample_loopback("/dev/video10", "Fantech C30 - Linux Standardized")];
    let report = collect_scan_report(&physical, &no_levels(1), &loopbacks, true, &None);
    assert_eq!(
        scan_lines(&report, 0),
        vec![
            "/dev/video0  Fantech C30  [physical, needs shim]",
            "  paired with: /dev/video10",
            "  expected virtual name: Fantech C30 - Linux Standardized",
            "",
            "/dev/video10  Fantech C30 - Linux Standardized  [virtual, use this]",
            "  paired with: /dev/video0",
            "",
        ]
    );
    assert_eq!(
        format_device_line(&report.devices[0]),
        "/dev/video0  Fantech C30  [physical, needs shim]"
    );
    assert_eq!(device_lines(&report.devices).len(), 7);
}

#[test]
fn empty_scan_says_what_to_do() {
    let empty = ScanReport {
        serve_running: false,
        devices: Vec::new(),
        recommended_devices: Vec::new(),
    };
    assert_eq!(
        scan_lines(&empty, 2),
        vec![
            "No V4L2 capture devices found.",
            "2 stale /dev/video* node(s) have no kernel device (ghost nodes).",
            "Repair with: sudo cam-shim restore",
        ]
    );
    assert_eq!(
        scan_lines(&empty, 0)[2],
        "Then run: sudo cam-shim restore --loopback"
    );
}

#[test]
fn snapshot_shows_its_devices() {
    let snapshot = RuntimeSnapshot {
        loopback_module_loaded: true,
        serve_running: true,
        hidden_cameras: 0,
        ghost_nodes: 0,
        visible_capture_devices: 1,
        needs_shim_devices: 1,
        loopbacks: vec![LoopbackSnapshot {
            path: "/dev/video10".into(),
            name: "Other".into(),
            cam_shim: false,
            holders: Vec::new(),
        }],
        supervisor_state: Some(SupervisorStateSnapshot {
            updated_at_ms: 1,
            managed: vec![ManagedCameraSnapshot {
                serial: "name:Cam".into(),
                loopback_path: "/dev/video10".into(),
                ..Default::default()
            }],
            quarantined: Vec::new(),
        }),
        devices: vec![sample_physical("/dev/video0", "Cam", true)],
    };
    let report = device_views_from_snapshot(&snapshot, &no_levels(1));
    assert!(report.serve_running);
    assert_eq!(report.devices[0].paired_with.as_deref(), Some("/dev/video10"));
    assert_eq!(report.devices[1].paired_with.as_deref(), Some("/dev/video0"));
    assert!(!report.devices[1].use_in_apps);
}

#[test]
fn numbers_are_read_from_paths() {
    assert_eq!(video_index_from_path("/dev/video10"), Some(10));
    assert_eq!(video_index_from_path("video7"), Some(7));
    assert_eq!(video_index_from_path("/dev/audio7"), None);
    assert_eq!(video_index_from_path("/dev/video4294967296"), None);
}

#[test]
fn roles_have_names() {
    assert_eq!(role_label(DeviceRole::Physical), "physical");
    assert_eq!(role_label(DeviceRole::VirtualCamShim), "virtual_cam_shim");
    assert_eq!(role_label(DeviceRole::VirtualOther), "virtual_other");
}
