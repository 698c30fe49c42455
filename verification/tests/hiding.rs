use cam_shim::error::CamShimError;
use cam_shim::hiding::{
    camera_identity, camera_identity_from_udev, device_id_serial, hidden_camera_count,
    hidden_video_names, hide_rule_text, hide_target, is_hide_rule_file, is_stale_hidden,
    related_video_nodes, resolve_device_path, resolve_node_path, restore_step, udev_error,
    udev_properties, udev_rule_path_for_serial, visible_capture_path, CameraIdentity, HiddenEntry,
    RestoreReport, RestoreStep, UdevNode, DEFAULT_UDEV_RULE, HIDDEN_DIR,
};

fn texts(list: &[&str]) -> Vec<String> {
    list.iter().map(|s| s.to_string()).collect()
}

fn hidden(name: &str, known: bool, loopback: bool) -> HiddenEntry {
    HiddenEntry { name: name.into(), is_dir: false, known, loopback }
}

#[test]
fn properties_are_read_line_by_line() {
    let props = udev_properties("ID_SERIAL=Cam_1\nDEVNAME=/dev/video0\nnonsense\nID_PATH=pci=1\n");
    assert_eq!(props.get("ID_SERIAL").map(String::as_str), Some("Cam_1"));
    assert_eq!(props.get("ID_PATH").map(String::as_str), Some("pci=1"));
    assert_eq!(props.len(), 3);
    assert_eq!(device_id_serial(&props), Some("Cam_1".to_string()));
    assert_eq!(
        device_id_serial(&udev_properties("ID_SERIAL_SHORT=1\n")),
        Some("1".to_string())
    );
    assert_eq!(device_id_serial(&udev_properties("")), None);
    assert_eq!(
        udev_error("/dev/video0", "no such device").message(),
        "io error: udevadm failed for /dev/video0: no such device"
    );
}

#[test]
fn identity_needs_a_serial() {
    let props = udev_properties("ID_SERIAL=Cam_1\nID_PATH=pci\n");
    let identity = camera_identity_from_udev(&props, "/dev/video0", texts(&["/dev/video0"]))
        .expect("a serial");
    assert_eq!(identity.id_serial, "Cam_1");
    assert_eq!(identity.id_path, "pci");
    let missing = camera_identity_from_udev(&udev_properties(""), "/dev/video0", Vec::new());
    assert_eq!(
        missing.unwrap_err().message(),
        "io error: could not read ID_SERIAL for /dev/video0 (is udev available?)"
    );
    let second = camera_identity(CamShimError::other("first".into()), Ok(identity));
    assert_eq!(second.expect("the second try").id_serial, "Cam_1");
    let failed = camera_identity(
        CamShimError::other("first".into()),
        Err(CamShimError::other("second".into())),
    );
    assert_eq!(failed.unwrap_err().message(), "io error: first");
}

#[test]
fn rule_files_are_named_after_the_serial() {
    assert_eq!(
        udev_rule_path_for_serial("Cam 1/ä_x"),
        "/etc/udev/rules.d/99-cam-shim-Cam_1___x.rules"
    );
    assert!(is_hide_rule_file("99-cam-shim-Cam_1___x.rules"));
    assert!(is_hide_rule_file("99-cam-shim.rules"));
    assert!(!is_hide_rule_file("99-other.rules"));
    assert_eq!(DEFAULT_UDEV_RULE, "/etc/udev/rules.d/99-cam-shim.rules");
    let rule = hide_rule_text("Cam_1");
    assert!(rule.contains("ENV{ID_SERIAL}!=\"Cam_1\", GOTO=\"cam_shim_end\""));
    assert!(rule.contains("/bin/mkdir -p /dev/cam-shim-hidden; /bin/mv -f \\\"$D\\\" /dev/cam-shim-hidden/'"));
    assert!(rule.ends_with("LABEL=\"cam_shim_end\"\n"));
}

#[test]
fn hidden_nodes_are_found() {
    let existing = texts(&["/dev/video0", "/dev/cam-shim-hidden/video2"]);
    assert_eq!(resolve_node_path("/dev/video0", &existing), Some("/dev/video0".to_string()));
    assert_eq!(
        resolve_node_path("/dev/video2", &existing),
        Some("/dev/cam-shim-hidden/video2".to_string())
    );
    assert_eq!(resolve_node_path("/dev/video4", &existing), None);
    assert_eq!(resolve_device_path("/dev/video4", &existing), "/dev/video4");
    let identity = CameraIdentity {
        id_serial: "s".into(),
        id_path: String::new(),
        nodes: texts(&["/dev/video4", "/dev/video2"]),
    };
    assert_eq!(
        visible_capture_path(&identity, "/dev/video0", &existing),
        "/dev/cam-shim-hidden/video2"
    );
    let gone = CameraIdentity { nodes: texts(&["/dev/video4"]), ..identity };
    assert_eq!(visible_capture_path(&gone, "/dev/video0", &existing), "/dev/video0");
    assert_eq!(HIDDEN_DIR, "/dev/cam-shim-hidden");
}

#[test]
fn hidden_files_are_restored_dropped_or_left() {
    assert_eq!(restore_step(&hidden("video0", true, false), false, false), RestoreStep::Restore);
    assert_eq!(restore_step(&hidden("video0", true, false), true, true), RestoreStep::ReplaceGhost);
    assert_eq!(restore_step(&hidden("video0", true, false), true, false), RestoreStep::DropHidden);
    assert_eq!(restore_step(&hidden("video0", false, false), false, false), RestoreStep::Leave);
    assert_eq!(restore_step(&hidden("video0", true, true), false, false), RestoreStep::Leave);
    assert_eq!(restore_step(&hidden("other", true, false), false, false), RestoreStep::Leave);
    assert!(is_stale_hidden(&hidden("video0", false, false)));
    assert!(is_stale_hidden(&hidden("video0", true, true)));
    assert!(!is_stale_hidden(&hidden("video0", true, false)));
    assert!(!is_stale_hidden(&hidden("other", false, false)));
    let dir = HiddenEntry { is_dir: true, ..hidden("video0", false, false) };
    assert!(!is_stale_hidden(&dir));
    let entries = vec![
        hidden("video2", true, false),
        hidden("video0", false, false),
        hidden("videox", true, false),
        dir,
    ];
    assert_eq!(hidden_video_names(&entries), texts(&["video0", "video2"]));
    assert_eq!(hidden_camera_count(&entries), 2);
}

#[test]
fn restore_reports_whether_anything_changed() {
    assert!(!RestoreReport::default().changed());
    let report = RestoreReport { ghosts_removed: texts(&["/dev/video9"]), ..RestoreReport::default() };
    assert!(report.changed());
}

#[test]
fn only_present_cameras_are_hidden() {
    assert_eq!(
        hide_target("/dev/video0", true, true).expect("a path"),
        Some("/dev/cam-shim-hidden/video0".to_string())
    );
    assert_eq!(hide_target("/dev/video0", false, true).expect("a path"), None);
    assert_eq!(hide_target("/dev/video0", true, false).expect("a path"), None);
    assert_eq!(
        hide_target("/", true, true).unwrap_err().message(),
        "io error: invalid device path"
    );
}

#[test]
fn nodes_of_one_serial_belong_together() {
    let node = |name: &str, serial: Option<&str>, loopback: bool, capture: bool| UdevNode {
        name: name.into(),
        loopback,
        serial: serial.map(str::to_string),
        capture,
    };
    let nodes = vec![
        node("video2", Some("s"), false, true),
        node("video0", Some("s"), false, true),
        node("video1", Some("s"), false, false),
        node("video3", Some("t"), false, true),
        node("video4", None, false, true),
        node("video10", Some("s"), true, true),
    ];
    let existing = texts(&["/dev/video0", "/dev/cam-shim-hidden/video2"]);
    assert_eq!(
        related_video_nodes(&nodes, "s", &existing),
        texts(&["/dev/cam-shim-hidden/video2", "/dev/video0"])
    );
}
