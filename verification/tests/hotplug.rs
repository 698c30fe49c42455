use cam_shim::error::IoKind;
use cam_shim::hotplug::{
    parse_uevent, read_step, should_react_to_uevent, HotplugMonitor, ReadStep, Uevent,
    HOTPLUG_DEBOUNCE_NS,
};

fn sample_event(devpath: &str, name: Option<&str>) -> Uevent {
    Uevent {
        action: "add".into(),
        devpath: devpath.into(),
        subsystem: "video4linux".into(),
        devname: Some("/dev/video0".into()),
        name: name.map(str::to_string),
    }
}

const PLUG: &[u8] = b"add@/devices/pci0000:00/usb1/1-8/video4linux/video0\0SUBSYSTEM=video4linux\0";

#[test]
fn ignores_virtual_loopback_hotplug() {
    assert!(!should_react_to_uevent(&sample_event(
        "/devices/virtual/video4linux/video4",
        Some("Fantech Luminous C3 - Linux Std")
    )));
}

#[test]
fn reacts_to_physical_usb_hotplug() {
    assert!(should_react_to_uevent(&sample_event(
        "/devices/pci0000:00/0000:00:14.0/usb1/1-8/1-8:1.0/video4linux/video0",
        Some("webcam: Fantech Luminous C30")
    )));
}

#[test]
fn ignores_standardized_name_on_physical_path() {
    assert!(!should_react_to_uevent(&sample_event(
        "/devices/pci0000:00/usb1/1-8/video4linux/video0",
        Some("webcam: Foo - Linux Standardized")
    )));
}

#[test]
fn ignores_non_video_subsystem() {
    let mut event = sample_event("/devices/usb1/video4linux/video0", None);
    event.subsystem = "usb".into();
    assert!(!should_react_to_uevent(&event));
}

#[test]
fn parse_uevent_message() {
    let raw = b"add@/devices/pci0000:00/usb1/1-8/video4linux/video0\0ACTION=add\0DEVPATH=/devices/pci0000:00/usb1/1-8/video4linux/video0\0SUBSYSTEM=video4linux\0DEVNAME=/dev/video0\0NAME=webcam: Example\0";
    let event = parse_uevent(raw).expect("uevent");
    assert_eq!(event.action, "add");
    assert_eq!(event.subsystem, "video4linux");
    assert_eq!(event.devname.as_deref(), Some("/dev/video0"));
    assert_eq!(event.name.as_deref(), Some("webcam: Example"));
}

#[test]
fn messages_without_action_or_text_are_dropped() {
    assert!(parse_uevent(b"").is_none());
    assert!(parse_uevent(b"SUBSYSTEM=video4linux\0").is_none());
    assert!(parse_uevent(b"add@/devices/x\0NAME=\xff\0").is_none());
    let event = parse_uevent(b"add@/devices/x\0ACTION=change\0NAME=a=b\0").expect("uevent");
    assert_eq!(event.action, "change");
    assert_eq!(event.devpath, "/devices/x");
    assert_eq!(event.subsystem, "");
    assert_eq!(event.devname, None);
    assert_eq!(event.name.as_deref(), Some("a=b"));
}

#[test]
fn only_plugs_changes_and_removals_count() {
    let mut event = sample_event("/devices/usb1/video4linux/video0", None);
    assert!(should_react_to_uevent(&event));
    event.action = "change".into();
    assert!(should_react_to_uevent(&event));
    event.action = "remove".into();
    assert!(should_react_to_uevent(&event));
    event.action = "bind".into();
    assert!(!should_react_to_uevent(&event));
}

#[test]
fn reads_are_repeated_after_an_interruption() {
    assert_eq!(read_step(Ok(7)), ReadStep::Take(7));
    assert_eq!(read_step(Ok(0)), ReadStep::Wait);
    assert_eq!(read_step(Err(IoKind::Interrupted)), ReadStep::Again);
    assert_eq!(read_step(Err(IoKind::WouldBlock)), ReadStep::Wait);
    assert_eq!(read_step(Err(IoKind::Other)), ReadStep::Wait);
}

#[test]
fn notifications_keep_their_distance() {
    let mut monitor = HotplugMonitor::new();
    assert!(!monitor.take(b"add@/devices/virtual/video4linux/video4\0SUBSYSTEM=video4linux\0", 0));
    assert!(monitor.take(PLUG, 1_000));
    assert!(!monitor.take(PLUG, 1_000 + HOTPLUG_DEBOUNCE_NS - 1));
    assert!(monitor.take(PLUG, 1_000 + HOTPLUG_DEBOUNCE_NS));
    assert!(!monitor.take(PLUG, 1_000 + HOTPLUG_DEBOUNCE_NS));
}
