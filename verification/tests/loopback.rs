use cam_shim::clean::{stop_cam_shim_processes, ProcessCmdline};
use cam_shim::compat::{kernel_card_label, standardized_label};
use cam_shim::create::preferred_loopback_output_nr;
use cam_shim::error::{CamShimError, IoFailure, IoKind};
use cam_shim::holders::{
    build_video_device_holder_map, cam_shim_held_device_paths, find_device_holders,
    holders_for_device, list_device_holders, loopback_consumer_count, loopback_has_consumers,
    ProcessFds,
};
use cam_shim::loopback::{
    busy_reason, command_args, created_device_path, ctl_supports_create, fd_targets_device,
    find_latest_loopback_device, find_loopback_by_label, format_holder_list, is_busy_error,
    is_cam_shim_daemon_cmdline, is_cam_shim_loopback, is_gone_error, is_loopback_sysfs_target,
    list_loopback_devices, parse_created_device_path, pick_process_label, process_label,
    video_device_path_key, video_number, DeviceHolder, SysfsEntry,
};

const PREFERRED_LOOPBACK_NR_START: i32 = 10;

fn entry(name: &str, loopback: bool, card: Option<&str>) -> SysfsEntry {
    SysfsEntry {
        name: name.into(),
        loopback,
        card: card.map(|card| card.to_string()),
    }
}

fn os_error(code: i32) -> CamShimError {
    CamShimError::Io(IoFailure {
        kind: IoKind::Other,
        os_code: Some(code),
        message: "failed".into(),
    })
}

fn process(pid: u32, label: &str, links: &[&str]) -> ProcessFds {
    ProcessFds {
        pid,
        label: label.into(),
        links: links.iter().map(|link| link.to_string()).collect(),
    }
}

#[test]
fn prefers_exe_basename_when_comm_truncated() {
    assert_eq!(
        pick_process_label("google-chrome", "google-chrome-stable"),
        "google-chrome-stable"
    );
    assert_eq!(pick_process_label("Discord", "Discord"), "Discord");
    assert_eq!(pick_process_label("python3", "guvcview"), "guvcview");
}

#[test]
fn formats_holder_list_for_display() {
    let holders = vec![
        DeviceHolder {
            pid: 1234,
            label: "Discord".into(),
        },
        DeviceHolder {
            pid: 5678,
            label: "guvcview".into(),
        },
    ];
    assert_eq!(
        format_holder_list(&holders),
        "Discord (1234), guvcview (5678)"
    );
}

#[test]
fn ctl_supports_create_false_for_apt_utils() {
    assert!(!ctl_supports_create("", "Usage: v4l2loopback-ctl set-fps|set-caps"));
    assert!(ctl_supports_create("v4l2loopback-ctl crea", "te"));
}

#[test]
fn kernel_label_keeps_suffix() {
    let label = standardized_label("webcam: Fantech Luminous C30");
    let kernel = kernel_card_label(&label);
    assert!(kernel.contains("Linux Std"));
    assert!(kernel.len() <= 31);
}

#[test]
fn detects_truncated_orphan_names() {
    assert!(is_cam_shim_loopback("webcam: Fantech Luminous C30 -"));
    assert!(is_cam_shim_loopback("Linux Standardized Camera"));
    assert!(!is_cam_shim_loopback("OBS Virtual Camera"));
    assert!(!is_cam_shim_loopback("Dummy video device (0x0000)"));
}

#[test]
fn prefers_high_loopback_numbers() {
    let nodes: Vec<String> = vec!["video0".into(), "video10".into(), "video11".into()];
    let nr = preferred_loopback_output_nr(&nodes);
    assert!(nr == -1 || nr >= PREFERRED_LOOPBACK_NR_START);
    assert_eq!(nr, 12);
    let all: Vec<String> = (10..64).map(|n| format!("video{n}")).collect();
    assert_eq!(preferred_loopback_output_nr(&all), -1);
}

#[test]
fn stop_list_excludes_clean_and_includes_serve() {
    assert!(is_cam_shim_daemon_cmdline(
        b"/usr/bin/cam-shim\0serve\0".as_slice()
    ));
    assert!(!is_cam_shim_daemon_cmdline(
        b"/usr/bin/cam-shim\0clean\0--force\0".as_slice()
    ));
}

#[test]
fn matches_deleted_device_fds() {
    assert!(fd_targets_device("/dev/video2 (deleted)", "/dev/video2", None));
    assert!(!fd_targets_device("/dev/video3 (deleted)", "/dev/video2", None));
}

#[test]
fn open_files_are_matched_by_where_the_device_leads() {
    assert!(fd_targets_device("/dev/video7", "/dev/v4l/cam", Some("/dev/video7".into())));
    assert!(!fd_targets_device("/dev/video7", "/dev/v4l/cam", None));
    assert!(!fd_targets_device("/dev/null", "/dev/null", None));
    assert_eq!(video_device_path_key("socket:[1]"), None);
    assert_eq!(
        video_device_path_key("/dev/video2 (deleted)"),
        Some("/dev/video2".to_string())
    );
}

#[test]
fn daemons_are_stopped_but_not_this_process() {
    let processes = vec![
        ProcessCmdline { pid: 1, cmdline: Some(b"/usr/bin/cam-shim\0serve\0".to_vec()) },
        ProcessCmdline { pid: 2, cmdline: Some(b"cam-shim\0fix\0".to_vec()) },
        ProcessCmdline { pid: 3, cmdline: Some(b"cam-shim\0status\0".to_vec()) },
        ProcessCmdline { pid: 4, cmdline: None },
        ProcessCmdline { pid: 5, cmdline: Some(b"bash\0serve\0".to_vec()) },
        ProcessCmdline { pid: 6, cmdline: Some(b"/opt/cam-shim\0relay\0".to_vec()) },
    ];
    assert_eq!(stop_cam_shim_processes(&processes, 2), vec![1, 6]);
}

#[test]
fn command_lines_skip_what_is_not_text() {
    assert_eq!(command_args(b"a\0\0\xff\0b"), vec!["a", "b"]);
    assert!(command_args(b"").is_empty());
    assert!(is_cam_shim_daemon_cmdline(b"\xff\0cam-shim\0serve"));
}

#[test]
fn processes_are_named() {
    assert_eq!(
        process_label(Some("chrome\n".into()), Some(b"/opt/google/chrome\0--x\0".to_vec())),
        "chrome"
    );
    assert_eq!(process_label(Some("sh".into()), Some(b"/bin/dash\0".to_vec())), "dash");
    assert_eq!(process_label(None, None), "unknown");
    assert_eq!(process_label(Some("kthreadd".into()), Some(Vec::new())), "kthreadd");
    assert_eq!(pick_process_label("Web Content", "firefox"), "Web Content");
    assert_eq!(pick_process_label("fifteen-bytes-x", "other"), "other");
}

#[test]
fn created_paths_are_found_in_tool_output() {
    assert_eq!(
        parse_created_device_path("  /dev/video12 \n"),
        Some("/dev/video12".to_string())
    );
    assert_eq!(
        parse_created_device_path("created /dev/video3 now"),
        Some("/dev/video3".to_string())
    );
    assert_eq!(parse_created_device_path("nothing"), None);
    assert_eq!(
        created_device_path("hello\ndevice /dev/video9\n/dev/video10\n").ok(),
        Some("/dev/video9".to_string())
    );
    assert_eq!(
        created_device_path("oops").unwrap_err().message(),
        "io error: could not parse loopback device path from v4l2loopback-ctl output: oops"
    );
}

#[test]
fn virtual_sysfs_targets_are_told_apart() {
    assert!(is_loopback_sysfs_target("../../devices/virtual/video4linux/video10"));
    assert!(!is_loopback_sysfs_target("../../devices/pci0000:00/usb1/video4linux/video0"));
}

#[test]
fn loopbacks_are_found_by_label() {
    let entries = vec![
        entry("video0", false, Some("Cam")),
        entry("video10", true, Some("Cam - Linux Std\n")),
        entry("video11", true, Some("Cam - Linux Std")),
        entry("video12", true, Some("Other")),
    ];
    assert_eq!(
        find_loopback_by_label("Cam - Linux Std", &entries),
        Some("/dev/video11".to_string())
    );
    assert_eq!(find_loopback_by_label("Nothing like it", &entries), None);
    let unreadable = vec![entry("video10", true, Some("Cam")), entry("video11", true, None)];
    assert_eq!(find_loopback_by_label("Cam", &unreadable), None);
}

#[test]
fn latest_loopback_has_the_highest_number() {
    let entries = vec![
        entry("video9", true, None),
        entry("video10", true, None),
        entry("video40", false, None),
        entry("radio90", true, None),
    ];
    assert_eq!(
        find_latest_loopback_device(&entries),
        Some("/dev/video10".to_string())
    );
    assert_eq!(find_latest_loopback_device(&Vec::new()), None);
}

#[test]
fn loopbacks_are_listed_by_number() {
    let entries = vec![
        entry("video11", true, Some(" B \n")),
        entry("video0", false, Some("Cam")),
        entry("video2", true, None),
        entry("videox", true, Some("X")),
    ];
    let devices = list_loopback_devices(&entries);
    assert_eq!(devices.len(), 2);
    assert_eq!((devices[0].path.as_str(), devices[0].index, devices[0].name.as_str()), ("/dev/video2", 2, ""));
    assert_eq!((devices[1].path.as_str(), devices[1].index, devices[1].name.as_str()), ("/dev/video11", 11, "B"));
    assert_eq!(video_number("video+3"), Some(3));
    assert_eq!(video_number("video"), None);
}

#[test]
fn errors_are_told_apart_by_code() {
    assert!(is_busy_error(&os_error(16)));
    assert!(!is_busy_error(&os_error(19)));
    assert!(is_gone_error(&os_error(19)));
    assert!(!is_gone_error(&CamShimError::DeviceNotFound("x".into())));
}

#[test]
fn busy_devices_say_who_holds_them() {
    assert_eq!(
        busy_reason("/dev/video10", &[]),
        "/dev/video10 is in use — close apps using it, or run `cam-shim clean --force --reload` (module reload clears stuck loopbacks)"
    );
    let holders = [DeviceHolder { pid: 7, label: "Discord".into() }];
    assert_eq!(
        busy_reason("/dev/video10", &holders),
        "/dev/video10 is held open by Discord (7) — close those apps or run `cam-shim clean --force`"
    );
    assert_eq!(format_holder_list(&[]), "none");
}

#[test]
fn holders_are_listed_once_by_number() {
    let processes = vec![
        process(30, "obs", &["/dev/video10", "/dev/video10", "/dev/null"]),
        process(7, "cam-shim", &["/dev/video10 (deleted)", "/dev/video0"]),
    ];
    let map = build_video_device_holder_map(&processes);
    let holders = holders_for_device(&map, "/dev/video10");
    let listed: Vec<(u32, &str)> = holders.iter().map(|h| (h.pid, h.label.as_str())).collect();
    assert_eq!(listed, vec![(7, "cam-shim"), (30, "obs")]);
    assert_eq!(find_device_holders(&processes, "/dev/video0"), vec![7]);
    assert_eq!(list_device_holders(&processes, "/dev/other/video0")[0].pid, 7);
    assert!(list_device_holders(&processes, "/dev/video3").is_empty());
    let mut held = cam_shim_held_device_paths(&map);
    held.sort();
    assert_eq!(held, vec!["/dev/video0", "/dev/video10"]);
}

#[test]
fn consumers_are_counted() {
    assert_eq!(loopback_consumer_count(Some(" 2\n".into())), Some(2));
    assert_eq!(loopback_consumer_count(Some("x".into())), None);
    assert_eq!(loopback_consumer_count(None), None);
    assert!(loopback_has_consumers(Some(1), &Vec::new(), 5));
    assert!(!loopback_has_consumers(Some(0), &vec![9], 5));
    assert!(loopback_has_consumers(None, &vec![5, 9], 5));
    assert!(!loopback_has_consumers(None, &vec![5], 5));
}
