use cam_shim::compat::{DEFAULT_MAX_CAPTURE_HEIGHT, DEFAULT_MAX_CAPTURE_WIDTH};
use cam_shim::error::{CamShimError, IoFailure, IoKind};
use cam_shim::loopback_output::{
    is_mmap_backpressure, is_write_backpressure, next_state, state_name, validate_frame,
    write_frame_into_buffer, LoopbackOutput, LoopbackOutputState, OutputEvent, SubmitStep,
};
use cam_shim::media::{
    DiscreteSize, Format, FourCC, Fraction, FrameInterval, FrameIntervalEnum, FrameSize,
    FrameSizeEnum, Metadata, StepwiseSize,
};
use cam_shim::shim::{
    capture_frame_slice, default_shim_config, discrete_sizes, drain_ended, fallback_sizes,
    format_error, is_compressed, native_capture_fps, open_retry_delay, open_source_error,
    pick_capture_fourcc, pick_sizes_sorted, resolution_within_cap, submit_loopback_frame,
    take_frame, target_format_error, target_fps_error, CaptureLimits, FramePacer, Negotiation,
    NegotiationStep, PacerStep,
};

const EAGAIN: i32 = 11;
const EBUSY: i32 = 16;
const ENODEV: i32 = 19;
const EINVAL: i32 = 22;

fn of_kind(kind: IoKind) -> IoFailure {
    IoFailure { kind, os_code: None, message: "failed".into() }
}

fn of_code(code: i32) -> IoFailure {
    IoFailure { kind: IoKind::Other, os_code: Some(code), message: "failed".into() }
}

fn size(width: u32, height: u32) -> FrameSize {
    FrameSize {
        index: 0,
        fourcc: FourCC::new(b"MJPG"),
        typ: 1,
        size: FrameSizeEnum::Discrete(DiscreteSize { width, height }),
    }
}

fn full_hd() -> CaptureLimits {
    CaptureLimits {
        max_width: DEFAULT_MAX_CAPTURE_WIDTH,
        max_height: DEFAULT_MAX_CAPTURE_HEIGHT,
    }
}

#[test]
fn state_transition_table() {
    assert_eq!(
        next_state(LoopbackOutputState::Unprimed, OutputEvent::Prime),
        Some(LoopbackOutputState::Ready)
    );
    assert_eq!(
        next_state(LoopbackOutputState::Ready, OutputEvent::Submit),
        Some(LoopbackOutputState::Streaming)
    );
    assert_eq!(
        next_state(LoopbackOutputState::Streaming, OutputEvent::Submit),
        Some(LoopbackOutputState::Streaming)
    );
    assert_eq!(
        next_state(LoopbackOutputState::Unprimed, OutputEvent::Submit),
        None
    );
}

#[test]
fn rejects_empty_frame() {
    assert!(validate_frame(&[]).is_err());
    assert!(validate_frame(&[0u8; 64]).is_ok());
}

#[test]
fn write_frame_sets_bytesused() {
    let mut buf = [0u8; 128];
    let mut meta = Metadata::default();
    write_frame_into_buffer(&mut buf, &mut meta, &[1, 2, 3, 4]).unwrap();
    assert_eq!(meta.bytesused, 4);
    assert_eq!(&buf[..4], &[1, 2, 3, 4]);
}

#[test]
fn write_frame_rejects_oversized_payload() {
    let mut buf = [0u8; 8];
    let mut meta = Metadata::default();
    assert!(write_frame_into_buffer(&mut buf, &mut meta, &[0; 16]).is_err());
}

#[test]
fn detects_write_backpressure() {
    assert!(is_write_backpressure(&of_kind(IoKind::WouldBlock)));
    assert!(is_write_backpressure(&of_code(EAGAIN)));
    assert!(!is_write_backpressure(&of_code(EBUSY)));
}

#[test]
fn detects_mmap_backpressure() {
    assert!(is_mmap_backpressure(&of_kind(IoKind::TimedOut)));
    assert!(is_mmap_backpressure(&of_code(EINVAL)));
    assert!(!is_mmap_backpressure(&of_code(ENODEV)));
}

#[test]
fn detects_compressed_fourcc() {
    assert!(is_compressed(FourCC::new(b"MJPG")));
    assert!(!is_compressed(FourCC::new(b"YUYV")));
}

#[test]
fn picks_largest_resolution_first() {
    let limits = CaptureLimits { max_width: u32::MAX, max_height: u32::MAX };
    let resolutions = pick_sizes_sorted(&[size(640, 480), size(1920, 1080), size(1280, 720)], limits);
    assert_eq!(resolutions[0], (1920, 1080));
}

#[test]
fn caps_resolution_at_1080p() {
    let limits = full_hd();
    assert!(resolution_within_cap(1920, 1080, limits));
    assert!(resolution_within_cap(1280, 720, limits));
    assert!(!resolution_within_cap(2560, 1440, limits));
    assert!(!resolution_within_cap(2304, 1296, limits));

    let resolutions =
        pick_sizes_sorted(&[size(2560, 1440), size(1920, 1080), size(1280, 720)], limits);
    assert_eq!(resolutions[0], (1920, 1080));
}

#[test]
fn frame_pacer_period_for_30fps() {
    let pacer = FramePacer::new(30, 0);
    assert_eq!(pacer.frame_period(), 33_333_333);
}

#[test]
fn frame_pacer_period_clamps_zero_fps() {
    let pacer = FramePacer::new(0, 0);
    assert_eq!(pacer.frame_period(), 1_000_000_000);
}

#[test]
fn pacer_ticks_once_per_period_and_never_catches_up() {
    let mut pacer = FramePacer::new(30, 0);
    assert_eq!(pacer.poll(0), PacerStep::Tick);
    assert_eq!(pacer.poll(1), PacerStep::Sleep(2_000_000));
    assert_eq!(pacer.poll(33_333_000), PacerStep::Sleep(333));
    assert_eq!(pacer.poll(1_000_000_000), PacerStep::Tick);
    assert!(matches!(pacer.poll(1_000_000_001), PacerStep::Sleep(_)));
    assert_eq!(pacer.poll(1_033_333_333), PacerStep::Tick);
}

#[test]
fn sizes_of_a_range_are_listed_once() {
    let range = FrameSize {
        index: 0,
        fourcc: FourCC::new(b"YUYV"),
        typ: 2,
        size: FrameSizeEnum::Stepwise(StepwiseSize {
            min_width: 320,
            max_width: 640,
            step_width: 320,
            min_height: 240,
            max_height: 250,
            step_height: 0,
        }),
    };
    let sizes = discrete_sizes(&[size(320, 240), range, size(320, 240)]);
    assert_eq!(sizes.len(), 22);
    assert_eq!(sizes[0], (320, 240));
    assert_eq!(sizes[21], (640, 250));
}

#[test]
fn equal_areas_prefer_the_wider_mode() {
    let limits = full_hd();
    assert_eq!(
        pick_sizes_sorted(&[size(400, 300), size(600, 200), size(1, 1)], limits),
        vec![(600, 200), (400, 300), (1, 1)]
    );
}

#[test]
fn usual_modes_are_tried_where_none_fits() {
    let limits = CaptureLimits { max_width: 1280, max_height: 720 };
    assert_eq!(fallback_sizes(limits), vec![(1280, 720), (640, 480)]);
    let mut negotiation = Negotiation::start(FourCC::new(b"YUYV"), &[size(1920, 1080)], limits);
    assert!(matches!(negotiation.next(), NegotiationStep::Try(1280, 720)));
    assert!(negotiation.refused(of_code(EINVAL)).is_none());
    assert!(matches!(negotiation.next(), NegotiationStep::Try(640, 480)));
    assert!(negotiation.refused(of_code(ENODEV)).is_none());
    match negotiation.next() {
        NegotiationStep::Failed(err) => assert_eq!(
            err.message(),
            "io error: could not set source format to YUYV 1280x720: failed"
        ),
        NegotiationStep::Try(_, _) => panic!("no mode is left"),
    }
}

#[test]
fn no_usual_mode_fits_a_small_cap() {
    let limits = CaptureLimits { max_width: 320, max_height: 240 };
    let negotiation = Negotiation::start(FourCC::new(b"MJPG"), &[], limits);
    match negotiation.next() {
        NegotiationStep::Failed(err) => assert_eq!(
            err.message(),
            "io error: could not set source format to MJPG 320x240: no capture mode at or below 320x240"
        ),
        NegotiationStep::Try(_, _) => panic!("no mode fits"),
    }
}

#[test]
fn camera_that_went_away_ends_the_negotiation() {
    let mut negotiation =
        Negotiation::start(FourCC::new(b"MJPG"), &[size(640, 480), size(1280, 720)], full_hd());
    assert!(matches!(negotiation.next(), NegotiationStep::Try(1280, 720)));
    let err = negotiation.refused(of_code(ENODEV)).expect("the camera is gone");
    assert_eq!(
        err.message(),
        "io error: could not set source format to MJPG 1280x720: failed"
    );
}

#[test]
fn refused_modes_name_the_preferred_one() {
    let mut negotiation =
        Negotiation::start(FourCC::new(b"MJPG"), &[size(640, 480), size(1280, 720)], full_hd());
    assert!(negotiation.refused(of_code(EINVAL)).is_none());
    assert!(matches!(negotiation.next(), NegotiationStep::Try(640, 480)));
    assert!(negotiation.refused(of_kind(IoKind::TimedOut)).is_none());
    match negotiation.next() {
        NegotiationStep::Failed(err) => assert_eq!(
            err.message(),
            "io error: could not set source format to MJPG 1280x720: failed"
        ),
        NegotiationStep::Try(_, _) => panic!("no mode is left"),
    }
}

#[test]
fn motion_jpeg_is_captured_where_it_is_offered() {
    let yuyv = FourCC::new(b"YUYV");
    let h264 = FourCC::new(b"H264");
    assert_eq!(pick_capture_fourcc(yuyv, true, &vec![yuyv]).repr, *b"MJPG");
    assert_eq!(pick_capture_fourcc(yuyv, false, &vec![yuyv, h264]).repr, *b"H264");
    assert_eq!(pick_capture_fourcc(yuyv, false, &vec![yuyv]).repr, *b"YUYV");
    assert_eq!(pick_capture_fourcc(h264, false, &vec![]).repr, *b"H264");
}

#[test]
fn codes_are_shown_as_text() {
    assert_eq!(FourCC::new(b"MJPG").name(), "MJPG");
    assert_eq!(FourCC::new(&[0xff, 0xfe, 0, 0]).name(), "");
    let format = Format { width: 640, height: 480, fourcc: FourCC::new(b"YUYV") };
    assert_eq!(
        format_error("loopback", &format, "busy").message(),
        "io error: could not set loopback format to YUYV 640x480: busy"
    );
    assert_eq!(
        target_format_error("busy").message(),
        "io error: could not read loopback output format: busy"
    );
    assert_eq!(
        target_fps_error(30, "busy").message(),
        "io error: could not set loopback output fps to 30: busy"
    );
    assert_eq!(
        open_source_error("/dev/video0", None).message(),
        "io error: could not open source device /dev/video0: unknown open error"
    );
    assert_eq!(
        open_source_error("/dev/video0", Some("busy".into())).message(),
        "io error: could not open source device /dev/video0: busy"
    );
}

#[test]
fn device_is_opened_five_times_at_most() {
    assert_eq!(open_retry_delay(1), Some(200));
    assert_eq!(open_retry_delay(4), Some(200));
    assert_eq!(open_retry_delay(5), None);
}

#[test]
fn native_rate_is_the_highest_one() {
    let interval = |d: u32| FrameInterval {
        index: 0,
        fourcc: FourCC::new(b"MJPG"),
        width: 640,
        height: 480,
        typ: 1,
        interval: FrameIntervalEnum::Discrete(Fraction::new(1, d)),
    };
    assert_eq!(native_capture_fps(Some(vec![interval(15), interval(25)])), Some(25));
    assert_eq!(native_capture_fps(None), None);
}

#[test]
fn frame_is_what_the_buffer_holds() {
    let buffer = [1u8, 2, 3, 4];
    let used = |bytesused: u32| Metadata { bytesused, field: 0 };
    assert_eq!(capture_frame_slice(&buffer, &used(3)).unwrap(), &[1, 2, 3]);
    assert_eq!(
        capture_frame_slice(&buffer, &used(0)).unwrap_err().message(),
        "io error: received empty frame from physical camera"
    );
    assert!(capture_frame_slice(&buffer, &used(5)).is_err());

    let mut latest = vec![9u8];
    take_frame(&mut latest, &buffer, &used(2)).unwrap();
    assert_eq!(latest, vec![1, 2]);
    assert!(take_frame(&mut latest, &buffer, &used(0)).is_err());
    assert_eq!(latest, vec![1, 2]);
}

#[test]
fn draining_ends_with_the_newest_frame() {
    assert!(drain_ended(of_kind(IoKind::TimedOut), &vec![1]).is_ok());
    assert_eq!(
        drain_ended(of_kind(IoKind::TimedOut), &vec![]).unwrap_err().message(),
        "io error: no capture frame available for paced output"
    );
    assert!(drain_ended(of_code(ENODEV), &vec![1]).is_err());
}

#[test]
fn refused_frame_is_reported_unless_the_output_is_behind() {
    let mjpg = FourCC::new(b"MJPG");
    assert!(submit_loopback_frame(Ok(()), &[1], "/dev/video10", mjpg).is_ok());
    let behind = Err(CamShimError::Io(of_code(EINVAL)));
    assert!(submit_loopback_frame(behind, &[1], "/dev/video10", mjpg).is_ok());
    let gone = Err(CamShimError::Io(of_code(ENODEV)));
    assert_eq!(
        submit_loopback_frame(gone, &[1, 2], "/dev/video10", mjpg).unwrap_err().message(),
        "io error: failed writing 2 bytes to /dev/video10 as MJPG: io error: failed"
    );
}

#[test]
fn output_is_primed_before_it_streams() {
    let mut output = LoopbackOutput::open();
    assert_eq!(output.state(), LoopbackOutputState::Unprimed);
    assert_eq!(
        output.check_submit(&[1]).unwrap_err().message(),
        "io error: loopback output cannot submit in state Unprimed (allowed: Ready, Streaming)"
    );
    assert!(output.check_prime(&[]).is_err());
    assert!(output.check_prime(&[1]).is_ok());
    assert!(output.prime(Err(CamShimError::Io(of_code(EBUSY)))).is_err());
    assert_eq!(output.state(), LoopbackOutputState::Unprimed);
    assert!(output.prime(Ok(())).is_ok());
    assert_eq!(output.state(), LoopbackOutputState::Ready);
    assert_eq!(
        output.check_prime(&[1]).unwrap_err().message(),
        "io error: loopback output cannot prime in state Ready (allowed: Unprimed)"
    );
    assert!(matches!(output.submit(Err(of_kind(IoKind::WouldBlock))), SubmitStep::Accepted));
    assert_eq!(output.state(), LoopbackOutputState::Ready);
    assert!(matches!(output.submit(Err(of_code(EBUSY))), SubmitStep::QueueBuffer));
    assert!(output.submit_via_mmap(Err(CamShimError::Io(of_kind(IoKind::TimedOut)))).is_ok());
    assert_eq!(output.state(), LoopbackOutputState::Ready);
    assert!(output.submit_via_mmap(Ok(())).is_ok());
    assert_eq!(output.state(), LoopbackOutputState::Streaming);
    assert!(matches!(output.submit(Err(of_code(ENODEV))), SubmitStep::Failed(_)));
    assert!(matches!(output.submit(Ok(())), SubmitStep::Accepted));
    assert_eq!(output.state(), LoopbackOutputState::Streaming);
}

#[test]
fn output_errors_are_told_apart() {
    let would_block = CamShimError::Io(of_kind(IoKind::WouldBlock));
    assert!(LoopbackOutput::is_backpressure(&would_block));
    assert!(!LoopbackOutput::is_mmap_backpressure(&would_block));
    let busy = CamShimError::Io(of_code(EBUSY));
    assert!(LoopbackOutput::is_backpressure(&busy));
    assert!(LoopbackOutput::is_queue_timeout(&busy));
    assert!(!LoopbackOutput::is_backpressure(&CamShimError::DeviceNotFound("x".into())));
    assert_eq!(state_name(LoopbackOutputState::Streaming), "Streaming");
}

#[test]
fn oversized_frame_leaves_the_buffer_alone() {
    let mut buf = [7u8; 2];
    let mut meta = Metadata { bytesused: 5, field: 3 };
    let err = write_frame_into_buffer(&mut buf, &mut meta, &[1, 2, 3]).unwrap_err();
    assert_eq!(
        err.message(),
        "io error: frame is 3 bytes but loopback buffer is only 2 bytes"
    );
    assert_eq!(buf, [7, 7]);
    assert_eq!(meta.bytesused, 5);
    write_frame_into_buffer(&mut buf, &mut meta, &[1]).unwrap();
    assert_eq!(buf, [1, 7]);
    assert_eq!((meta.bytesused, meta.field), (1, 0));
}

#[test]
fn shim_has_defaults() {
    let config = default_shim_config("/dev/video0".into(), "/dev/video10".into());
    assert_eq!(config.target_fps, 30);
    assert_eq!((config.max_capture_width, config.max_capture_height), (1920, 1080));
}
