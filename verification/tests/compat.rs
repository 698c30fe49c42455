use cam_shim::compat::{
    display_rates, kernel_card_label, kernel_card_label_bytes, loopback_fps_from_intervals,
    native_capture_fps_from_intervals, standardized_label, CompatReport, CompatStatus, FpsRate,
};
use cam_shim::media::{
    FourCC, Fraction, FrameInterval, FrameIntervalEnum, StepwiseInterval,
};

fn interval(numerator: u32, denominator: u32) -> FrameInterval {
    FrameInterval {
        index: 0,
        fourcc: FourCC::new(b"MJPG"),
        width: 1280,
        height: 720,
        typ: 0,
        interval: FrameIntervalEnum::Discrete(Fraction::new(numerator, denominator)),
    }
}

#[test]
fn standardized_label_uses_suffix() {
    assert_eq!(
        standardized_label("HD USB Camera"),
        "HD USB Camera - Linux Standardized"
    );
}

#[test]
fn detects_non_standard_fps() {
    let report = CompatReport::from_intervals(&[FrameInterval {
        index: 0,
        fourcc: FourCC::new(b"YUYV"),
        width: 640,
        height: 480,
        typ: 0,
        interval: FrameIntervalEnum::Discrete(Fraction::new(1, 25)),
    }]);
    assert_eq!(report.status, CompatStatus::NeedsShim);
}

#[test]
fn loopback_fps_uses_native_rate_when_not_standard() {
    let intervals = [FrameInterval {
        index: 0,
        fourcc: FourCC::new(b"MJPG"),
        width: 1920,
        height: 1080,
        typ: 0,
        interval: FrameIntervalEnum::Discrete(Fraction::new(1, 25)),
    }];
    assert_eq!(loopback_fps_from_intervals(&intervals, 30), 25);
}

#[test]
fn loopback_fps_keeps_requested_when_standard_available() {
    let intervals = [
        FrameInterval {
            index: 0,
            fourcc: FourCC::new(b"MJPG"),
            width: 1280,
            height: 720,
            typ: 0,
            interval: FrameIntervalEnum::Discrete(Fraction::new(1, 25)),
        },
        FrameInterval {
            index: 1,
            fourcc: FourCC::new(b"MJPG"),
            width: 1280,
            height: 720,
            typ: 0,
            interval: FrameIntervalEnum::Discrete(Fraction::new(1, 30)),
        },
    ];
    assert_eq!(loopback_fps_from_intervals(&intervals, 30), 30);
}

#[test]
fn standard_rates_are_compatible() {
    let report = CompatReport::from_intervals(&[interval(1, 60), interval(1, 30), interval(1, 60)]);
    assert_eq!(report.status, CompatStatus::Compatible);
    assert!(report.issues.is_empty());
    assert_eq!(
        report.advertised_fps,
        vec![
            FpsRate { numerator: 30, denominator: 1 },
            FpsRate { numerator: 60, denominator: 1 },
        ]
    );
    assert_eq!(display_rates(&report.advertised_fps), vec!["30 fps", "60 fps"]);
}

#[test]
fn variable_rate_needs_a_shim_even_beside_a_standard_one() {
    let report = CompatReport::from_intervals(&[interval(0, 30), interval(1, 30)]);
    assert_eq!(report.status, CompatStatus::NeedsShim);
    assert!(report.advertised_fps[0].is_variable());
}

#[test]
fn no_intervals_need_a_shim() {
    let report = CompatReport::from_intervals(&[]);
    assert_eq!(report.status, CompatStatus::NeedsShim);
    assert!(report.advertised_fps.is_empty());
    assert_eq!(native_capture_fps_from_intervals(&[]), None);
    assert_eq!(loopback_fps_from_intervals(&[], 30), 30);
}

#[test]
fn a_range_counts_with_its_shortest_interval() {
    let mut range = interval(1, 1);
    range.interval = FrameIntervalEnum::Stepwise(StepwiseInterval {
        min: Fraction::new(1, 60),
        max: Fraction::new(1, 5),
        step: Fraction::new(1, 60),
    });
    let report = CompatReport::from_intervals(&[range]);
    assert_eq!(report.status, CompatStatus::Compatible);
}

#[test]
fn rates_are_rounded_and_shown() {
    let ntsc = FpsRate { numerator: 30000, denominator: 1001 };
    assert_eq!(ntsc.as_u32_fps(), 30);
    assert!(!ntsc.is_variable());
    assert_eq!(FpsRate { numerator: 25, denominator: 2 }.as_u32_fps(), 13);
    assert_eq!(FpsRate::from(Fraction::new(1, 25)), FpsRate { numerator: 25, denominator: 1 });
    assert_eq!(native_capture_fps_from_intervals(&[interval(1, 15), interval(1, 25)]), Some(25));
}

#[test]
fn labels_fill_the_kernel_field() {
    let label = standardized_label("A very long camera name that does not fit");
    let kernel = kernel_card_label(&label);
    assert_eq!(kernel, "A very long camera  - Linux Std");
    let bytes = kernel_card_label_bytes(&label);
    assert_eq!(&bytes[..kernel.len()], kernel.as_bytes());
    assert_eq!(bytes[31], 0);
    assert_eq!(kernel_card_label("webcam: Short"), "Short");
    assert_eq!(
        kernel_card_label("0123456789012345678901234567890123"),
        "0123456789012345678901234567890"
    );
    assert_eq!(standardized_label("  "), "Webcam - Linux Standardized");
}

#[test]
fn label_field_never_runs_over() {
    let label = standardized_label("ÄÖÜÄÖÜÄÖÜÄÖÜÄÖÜÄÖÜÄÖÜ");
    let kernel = kernel_card_label(&label);
    assert_eq!(kernel, "ÄÖÜÄÖÜÄÖÜ - Linux Std");
    assert!(kernel.len() <= 31);
    let bytes = kernel_card_label_bytes(&label);
    assert_eq!(&bytes[..kernel.len()], kernel.as_bytes());
    assert!(bytes[kernel.len()..].iter().all(|byte| *byte == 0));
}

#[test]
fn labels_are_cut_at_the_end_of_a_character() {
    assert_eq!(kernel_card_label(&"é".repeat(40)), "é".repeat(15));
    assert_eq!(kernel_card_label(&"€".repeat(40)), "€".repeat(10));
    assert_eq!(kernel_card_label(&"😀".repeat(40)), "😀".repeat(7));
    assert_eq!(kernel_card_label(&format!("a{}", "😀".repeat(8))), format!("a{}", "😀".repeat(7)));
    let label = format!("{} - Linux Standardized", "😀".repeat(8));
    assert_eq!(kernel_card_label(&label), format!("{} - Linux Std", "😀".repeat(4)));
    for name in ["a", "é", "€", "😀"] {
        for count in 0..40 {
            let kernel = kernel_card_label(&standardized_label(&name.repeat(count)));
            assert!(kernel.len() <= 31);
            assert!(kernel.contains("Linux Standardized") || kernel.ends_with(" - Linux Std"));
        }
    }
    assert_eq!(kernel_card_label("  webcam: Büro-Kamera  "), "Büro-Kamera");
}
