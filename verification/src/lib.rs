//! A compatibility shim for webcams: finds cameras whose frame rates break apps, and runs virtual
//! cameras that stand in for them.
pub mod camera_view;
pub mod clean;
pub mod cli;
pub mod compat;
pub mod create;
pub mod device_registry;
pub mod devices;
pub mod doctor;
pub mod error;
pub mod hiding;
pub mod holders;
pub mod hotplug;
pub mod loopback;
pub mod loopback_output;
pub mod media;
pub mod order;
pub mod probe;
pub mod reconcile;
pub mod runtime;
pub mod serve;
pub mod session;
pub mod shim;
pub mod split;
pub mod status;
mod sys;
pub mod table;
pub mod text;

pub use camera_view::{
    collect_scan_report, device_views_from_snapshot, format_device_line, role_label, DeviceRole,
    DeviceView, RecommendedDevice, ScanReport,
};
pub use clean::{clean_loopback_devices, stop_cam_shim_processes, CleanReport};
pub use compat::{
    kernel_card_label, kernel_card_label_bytes, loopback_fps_from_intervals,
    native_capture_fps_from_intervals, standardized_label, CompatReport, CompatStatus,
    DEFAULT_MAX_CAPTURE_HEIGHT, DEFAULT_MAX_CAPTURE_WIDTH, DEFAULT_TARGET_FPS,
};
pub use create::{create_device, CreateDeviceOptions};
pub use device_registry::{
    assign_loopback_index, lookup_loopback_index, read_device_registry, DeviceRegistry,
    LoopbackAssignment, DEVICES_FILE, PERSISTENT_DEVICES_FILE, RUNTIME_DEVICES_FILE,
};
pub use devices::{
    camera_identity, camera_serial_present, device_id_serial, ghost_device_count,
    physical_camera_key, physical_camera_key_with_name, repair_video_devices, CameraIdentity,
    RepairReport,
};
pub use doctor::{run_doctor, DoctorConfig, DoctorReport};
pub use error::CamShimError;
pub use holders::{find_device_holders, list_device_holders};
pub use loopback::{
    format_holder_list, is_cam_shim_loopback, list_loopback_devices, DeviceHolder,
    LoopbackDeviceInfo,
};
pub use probe::{probe_device_path, DeviceReport};
pub use serve::ServeConfig;
pub use session::{repair_devices, FixSession};
pub use shim::{default_shim_config, ShimConfig};
pub use status::{collect_status, StatusReport};
