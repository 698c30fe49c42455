use cam_shim::create::{
    add_again, add_request, create_device, created_device, created_number, format_file,
    format_rate, ioctl_iow, loopback_config, loopback_output_nr, preferred_loopback_output_nr,
    remove_request, video_device_path, CreateDeviceOptions, CreateEvent, CreateStage, CreateStep,
};
use cam_shim::device_registry::{
    assign_loopback_index, lookup_loopback_index, merge_registries, needs_migration,
    read_device_registry, DeviceRegistry, LoopbackAssignment, DEVICES_FILE,
    PERSISTENT_DEVICES_FILE, RUNTIME_DEVICES_FILE,
};
use cam_shim::devices::{
    best_capture_path, camera_identity, camera_serial_present, device_id_serial,
    ghost_device_count, ghost_device_nodes, is_capture_device, is_metadata_name,
    is_video_node_name, physical_camera_key, physical_camera_key_with_name, related_video_nodes,
    repair_video_devices, to_lower, usb_device_sysfs_key, CameraNode, DeviceLevel,
};
use cam_shim::error::{CamShimError, IoKind};
use cam_shim::session::{loopback_index_of, repair_devices, FixSession};
use cam_shim::table::Table;

fn texts(list: &[&str]) -> Vec<String> {
    list.iter().map(|s| s.to_string()).collect()
}

fn registry(updated_at_ms: u64, list: &[(&str, u32, &str)]) -> DeviceRegistry {
    let mut assignments = Table::new();
    for (key, index, label) in list {
        assignments.insert(
            key.to_string(),
            LoopbackAssignment { loopback_index: *index, label: label.to_string() },
        );
    }
    DeviceRegistry { updated_at_ms, assignments }
}

fn index_of(registry: &DeviceRegistry, key: &str) -> Option<u32> {
    registry.assignments.get(key).map(|a| a.loopback_index)
}

fn usb(vendor: &str, product: &str, serial: Option<&str>) -> DeviceLevel {
    DeviceLevel {
        has_vendor: true,
        vendor: Some(vendor.into()),
        product: Some(product.into()),
        serial: serial.map(str::to_string),
    }
}

fn plain() -> DeviceLevel {
    DeviceLevel { has_vendor: false, vendor: None, product: None, serial: None }
}

fn node(name: &str, key: &str, capture: bool) -> CameraNode {
    CameraNode {
        name: name.into(),
        loopback: false,
        present: true,
        key: key.into(),
        capture,
    }
}

#[test]
fn merge_prefers_persistent_assignments() {
    let persistent = registry(2, &[("serial:A", 10, "A")]);
    let runtime = registry(1, &[("serial:A", 11, "A-old"), ("serial:B", 12, "B")]);

    let merged = merge_registries(persistent, &runtime);
    assert_eq!(index_of(&merged, "serial:A"), Some(10));
    assert_eq!(index_of(&merged, "serial:B"), Some(12));
    assert_eq!(merged.updated_at_ms, 2);
}

#[test]
fn physical_camera_key_falls_back_to_path() {
    assert_eq!(
        physical_camera_key(&Vec::new(), "/dev/video99"),
        "/dev/video99"
    );
}

#[test]
fn missing_registries_are_empty() {
    let merged = read_device_registry(None, None);
    assert_eq!(merged.assignments.len(), 0);
    assert_eq!(lookup_loopback_index(&merged, "serial:A"), None);
    assert_eq!(DEVICES_FILE, PERSISTENT_DEVICES_FILE);
    assert_ne!(DEVICES_FILE, RUNTIME_DEVICES_FILE);
}

#[test]
fn migration_is_due_where_something_is_new() {
    let persistent = registry(2, &[("serial:A", 10, "A")]);
    let merged = read_device_registry(
        Some(registry(2, &[("serial:A", 10, "A")])),
        Some(registry(1, &[("serial:B", 12, "B")])),
    );
    assert!(needs_migration(&merged, &persistent));
    let merged = read_device_registry(
        Some(registry(2, &[("serial:A", 10, "A")])),
        Some(registry(9, &[("serial:A", 44, "other")])),
    );
    assert!(!needs_migration(&merged, &persistent));
    assert_eq!(merged.updated_at_ms, 9);
}

#[test]
fn assignment_is_looked_up_again() {
    let mut known = registry(1, &[("serial:B", 12, "B")]);
    assign_loopback_index(&mut known, "serial:A", 10, "A - Linux Standardized", 77);
    assert_eq!(lookup_loopback_index(&known, "serial:A"), Some(10));
    assert_eq!(lookup_loopback_index(&known, "serial:B"), Some(12));
    assert_eq!(known.updated_at_ms, 77);
    assign_loopback_index(&mut known, "serial:A", 13, "A", 78);
    assert_eq!(lookup_loopback_index(&known, "serial:A"), Some(13));
    assert_eq!(known.assignments.len(), 2);
}

#[test]
fn same_camera_gets_its_number_back() {
    let nodes = texts(&["video0", "video10"]);
    let mut known = DeviceRegistry::default();
    let options = CreateDeviceOptions::for_camera("usb:1:2:S");
    let first = loopback_output_nr(&options, &nodes, &known);
    assert_eq!(first, 11);
    assign_loopback_index(&mut known, "usb:1:2:S", 11, "Cam", 1);
    assert_eq!(loopback_output_nr(&options, &texts(&["video0"]), &known), 11);
    let other = CreateDeviceOptions::for_camera("usb:9:9:S");
    assert_eq!(loopback_output_nr(&other, &nodes, &known), 12);
    assert_eq!(loopback_output_nr(&CreateDeviceOptions::default(), &nodes, &known), 11);
    assert_eq!(preferred_loopback_output_nr(&texts(&["video11"])), 10);
}

#[test]
fn usb_cameras_are_named_by_their_numbers() {
    let levels = vec![plain(), usb(" 046d\n", "0825\n", Some(" ABC \n")), usb("1d6b", "0002", None)];
    assert_eq!(usb_device_sysfs_key(&levels), Some("usb:046d:0825:ABC".to_string()));
    assert_eq!(physical_camera_key(&levels, "/dev/video0"), "usb:046d:0825:ABC");
    assert_eq!(device_id_serial(&levels), Some("ABC".to_string()));

    let no_serial = vec![usb("046d", "0825", Some("  "))];
    assert_eq!(
        physical_camera_key_with_name(&no_serial, "/dev/video0", "Cam"),
        "usb:046d:0825:no-serial"
    );
    assert_eq!(device_id_serial(&no_serial), None);
    assert_eq!(usb_device_sysfs_key(&vec![plain()]), None);
    assert_eq!(
        physical_camera_key_with_name(&vec![plain()], "/dev/video0", "Cam"),
        "name:Cam"
    );
    let unreadable = vec![
        DeviceLevel { has_vendor: true, vendor: None, product: None, serial: None },
        usb("046d", "0825", None),
    ];
    assert_eq!(usb_device_sysfs_key(&unreadable), None);
}

#[test]
fn metadata_nodes_do_not_capture() {
    assert!(is_metadata_name("Cam MetaData node"));
    assert!(!is_metadata_name("Cam"));
    assert!(!is_capture_device(&Some("Cam METADATA".into()), Some(true)));
    assert!(is_capture_device(&Some("Cam".into()), Some(true)));
    assert!(!is_capture_device(&Some("Cam".into()), None));
    assert!(is_capture_device(&None, Some(true)));
    assert_eq!(to_lower("ABCÄz9"), "abcÄz9");
}

#[test]
fn camera_is_its_present_capture_nodes() {
    let mut virtual_node = node("video10", "k", true);
    virtual_node.loopback = true;
    let mut gone = node("video6", "k", true);
    gone.present = false;
    let nodes = vec![
        node("video4", "k", true),
        node("video2", "k", true),
        node("video3", "k", false),
        node("video0", "other", true),
        node("radio0", "k", true),
        virtual_node,
        gone,
    ];
    assert_eq!(related_video_nodes(&nodes, "k"), texts(&["/dev/video2", "/dev/video4"]));
    let identity = camera_identity(&nodes, "k");
    assert_eq!(identity.id_serial, "k");
    assert_eq!(identity.nodes, texts(&["/dev/video2", "/dev/video4"]));
    assert_eq!(best_capture_path(&nodes, "k", "/dev/video4").ok(), Some("/dev/video2".to_string()));
    assert_eq!(
        best_capture_path(&nodes, "x", "/dev/video9").unwrap_err().message(),
        "device not found: no capture node found for /dev/video9"
    );
    assert!(camera_serial_present(&nodes, "k"));
    assert!(!camera_serial_present(&nodes, "x"));
}

#[test]
fn lowest_numbered_capture_node_is_the_best() {
    let best = |names: &[&str]| {
        let nodes = names.iter().map(|name| node(name, "k", true)).collect();
        best_capture_path(&nodes, "k", "/dev/video10").ok()
    };
    assert_eq!(best(&["video2", "video10"]), Some("/dev/video2".to_string()));
    assert_eq!(best(&["video10", "video2"]), Some("/dev/video2".to_string()));
    assert_eq!(best(&["video10", "video9", "video11"]), Some("/dev/video9".to_string()));
    assert_eq!(best(&["videox", "video10"]), Some("/dev/video10".to_string()));
    assert_eq!(best(&["videoy", "videox"]), Some("/dev/videox".to_string()));
    assert_eq!(best(&["video02", "video2"]), Some("/dev/video02".to_string()));
}

#[test]
fn nodes_without_a_kernel_device_are_ghosts() {
    let dev = texts(&["video9", "null", "video2", "videox", "video", "video0"]);
    let known = texts(&["video0"]);
    assert_eq!(
        ghost_device_nodes(&dev, &known),
        texts(&["/dev/video", "/dev/video2", "/dev/video9"])
    );
    assert_eq!(ghost_device_count(&dev, &known), 3);
    assert!(is_video_node_name("video12"));
    assert!(!is_video_node_name("video1a"));
    assert!(!is_video_node_name("vide"));
}

#[test]
fn repair_stops_at_the_first_failure() {
    let ghosts = texts(&["/dev/video2", "/dev/video9"]);
    let report = repair_video_devices(&ghosts, vec![Ok(()), Ok(())]).expect("repaired");
    assert_eq!(report.ghosts_removed, ghosts);
    let failed = repair_devices(
        &ghosts,
        vec![Ok(()), Err(CamShimError::io(IoKind::Other, "denied".into()))],
    );
    assert_eq!(failed.unwrap_err().message(), "io error: denied");
}

#[test]
fn session_knows_its_camera() {
    let mut session = FixSession::new("/dev/video10".into()).expect("a loopback path");
    assert_eq!(session.loopback_path(), "/dev/video10");
    assert_eq!(session.loopback_index(), 10);
    assert!(session.cleanup_on_drop());
    session.disable_cleanup();
    assert!(!session.cleanup_on_drop());
    assert!(session.cleanup(Ok(()), Err(CamShimError::other("x".into()))).is_ok());
    assert!(session.cleanup(Err(CamShimError::other("x".into())), Ok(())).is_err());
    assert_eq!(
        FixSession::new("/dev/null".into()).unwrap_err().message(),
        "io error: invalid loopback path: /dev/null"
    );
    assert!(loopback_index_of("/dev/video").is_err());
}

#[test]
fn control_requests_have_their_numbers() {
    assert_eq!(add_request(), 0x4048_7E01);
    assert_eq!(remove_request(), 0x4004_7E02);
    assert_eq!(ioctl_iow(b'V', 2, 8), 0x4008_5602);
}

#[test]
fn kernel_may_pick_the_number() {
    let mut config = loopback_config("webcam: Cam", 10);
    assert_eq!(&config.card_label[..4], b"Cam\0");
    assert_eq!((config.unused, config.max_width, config.min_height), (-1, 8192, 0));
    assert!(!add_again(0, &mut config));
    assert!(add_again(-1, &mut config));
    assert_eq!(config.output_nr, -1);
    assert!(!add_again(-1, &mut config));
    assert_eq!(created_number(12, 10), 12);
    assert_eq!(created_number(0, 10), 10);
}

#[test]
fn made_device_is_found() {
    assert_eq!(created_device("Cam", 12, true, None).expect("made").path, "/dev/video12");
    assert_eq!(
        created_device("Cam", 12, false, None).unwrap_err().message(),
        "io error: loopback reported /dev/video12 but the device node is missing"
    );
    let found = created_device("Cam", -1, false, Some("/dev/video3".into())).expect("found");
    assert_eq!((found.path.as_str(), found.label.as_str()), ("/dev/video3", "Cam"));
    assert_eq!(
        created_device("Cam", -1, true, None).unwrap_err().message(),
        "io error: loopback device was created but its /dev/video number could not be determined"
    );
    assert_eq!(video_device_path(7), "/dev/video7");
}

#[test]
fn ways_to_make_a_device_are_tried_in_order() {
    let failed = || CreateEvent::Failed(CamShimError::other("no".into()));
    assert!(matches!(
        create_device("Cam", CreateStage::Control, failed()),
        CreateStep::Try(CreateStage::Tool)
    ));
    assert!(matches!(
        create_device("Cam", CreateStage::Tool, CreateEvent::Nothing),
        CreateStep::Try(CreateStage::Existing)
    ));
    assert!(matches!(
        create_device("Cam", CreateStage::Existing, CreateEvent::Nothing),
        CreateStep::Try(CreateStage::Module)
    ));
    assert!(matches!(
        create_device("Cam", CreateStage::Module, CreateEvent::ModuleMissing),
        CreateStep::Try(CreateStage::Modprobe)
    ));
    match create_device("Cam", CreateStage::Module, CreateEvent::ModuleLoaded) {
        CreateStep::GiveUp(err) => assert!(err
            .message()
            .starts_with("io error: could not create a loopback device via /dev/v4l2loopback. Your")),
        _ => panic!("a loaded module makes no more devices"),
    }
    match create_device("Cam", CreateStage::Modprobe, failed()) {
        CreateStep::GiveUp(err) => assert_eq!(err.message(), "io error: no"),
        _ => panic!("loading failed"),
    }
    match create_device("Cam", CreateStage::Modprobe, CreateEvent::Nothing) {
        CreateStep::GiveUp(err) => assert_eq!(
            err.message(),
            "io error: loopback module loaded but no virtual /dev/video node found"
        ),
        _ => panic!("no device was found"),
    }
    match create_device("Cam", CreateStage::Control, CreateEvent::Made("/dev/video10".into())) {
        CreateStep::Created(device) => {
            assert_eq!((device.path.as_str(), device.label.as_str()), ("/dev/video10", "Cam"));
        }
        _ => panic!("the device was made"),
    }
}

#[test]
fn rate_is_written_to_the_format_file() {
    assert_eq!(
        format_file("/dev/video10"),
        Some("/sys/devices/virtual/video4linux/video10/format".to_string())
    );
    assert_eq!(
        format_file("/dev/video007"),
        Some("/sys/devices/virtual/video4linux/video7/format".to_string())
    );
    assert_eq!(
        format_file("/dev/video-3"),
        Some("/sys/devices/virtual/video4linux/video-3/format".to_string())
    );
    assert_eq!(format_file("/dev/video2147483648"), None);
    assert_eq!(format_file("/dev/null"), None);
    assert_eq!(format_rate(30), "@30");
}
