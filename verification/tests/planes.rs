use vs_average::aggregate::AggregationMode;
use vs_average::aggregate::CategoryLabel;
use vs_average::aggregate::Weights;
use vs_average::codec::SampleKind;
use vs_average::codec::from_canonical;
use vs_average::codec::to_canonical;
use vs_average::driver::Frame;
use vs_average::driver::Plane;
use vs_average::driver::check_sources;
use vs_average::driver::collect_sources;
use vs_average::driver::run;
use vs_average::driver::run_scattered;
use vs_average::CoreError;

fn frame_of(kind: SampleKind, width: usize, height: usize, data: Vec<u64>) -> Frame {
    Frame { kind, planes: vec![Plane { width, height, data }] }
}

fn flat_frame(kind: SampleKind, width: usize, height: usize, value: u64) -> Frame {
    frame_of(kind, width, height, vec![value; width * height])
}

fn unknown_labels(n: usize) -> Vec<CategoryLabel> {
    vec![CategoryLabel::Unknown; n]
}

fn assert_frames_equal(a: &Frame, b: &Frame) {
    assert_eq!(a.kind, b.kind);
    assert_eq!(a.planes.len(), b.planes.len());
    for (pa, pb) in a.planes.iter().zip(b.planes.iter()) {
        assert_eq!(pa.width, pb.width);
        assert_eq!(pa.height, pb.height);
        assert_eq!(pa.data, pb.data);
    }
}

#[test]
fn codec_round_trips_every_integer_kind() {
    let kinds = [SampleKind::U8, SampleKind::U10, SampleKind::U12, SampleKind::U16];
    for &kind in kinds.iter() {
        let depth = kind.depth();
        let limit: u64 = 1 << depth;
        for domain in [depth, 16, 32] {
            let mut raw: u64 = 0;
            while raw < limit {
                let canonical = to_canonical(kind, domain, raw);
                assert_eq!(from_canonical(kind, domain, canonical), raw);
                raw += 7;
            }
            let top = limit - 1;
            let canonical = to_canonical(kind, domain, top);
            assert_eq!(from_canonical(kind, domain, canonical), top);
        }
    }
}

#[test]
fn codec_promotion_is_a_bit_exact_shift() {
    // An 8-bit value promoted to a 16-bit domain is left-shifted by 8.
    assert_eq!(to_canonical(SampleKind::U8, 16, 0x12), 0x1200);
    // Narrowing truncates toward zero, never rounds to nearest.
    assert_eq!(from_canonical(SampleKind::U8, 16, 0x12FF), 0x12);
}

#[test]
fn sample_kind_table_resolves_supported_pairs() {
    assert_eq!(SampleKind::from_parts(false, 8), Ok(SampleKind::U8));
    assert_eq!(SampleKind::from_parts(false, 10), Ok(SampleKind::U10));
    assert_eq!(SampleKind::from_parts(false, 12), Ok(SampleKind::U12));
    assert_eq!(SampleKind::from_parts(false, 16), Ok(SampleKind::U16));
    assert_eq!(SampleKind::from_parts(true, 16), Ok(SampleKind::F16));
    assert_eq!(SampleKind::from_parts(true, 32), Ok(SampleKind::F32));
    assert_eq!(SampleKind::from_parts(false, 9), Err(CoreError::UnsupportedSampleKind));
    assert_eq!(SampleKind::from_parts(true, 64), Err(CoreError::UnsupportedSampleKind));
}

#[test]
fn run_plain_mean_over_planes() {
    let sources = vec![
        flat_frame(SampleKind::U8, 4, 2, 10),
        flat_frame(SampleKind::U8, 4, 2, 20),
        flat_frame(SampleKind::U8, 4, 2, 30),
    ];
    let labels = unknown_labels(3);
    let out = run(&AggregationMode::Plain, &sources, &labels, SampleKind::U8).unwrap();
    assert_eq!(out.kind, SampleKind::U8);
    assert_eq!(out.planes.len(), 1);
    assert_eq!(out.planes[0].data, vec![20; 8]);
}

#[test]
fn run_retains_precision_in_a_wider_output() {
    // 8-bit inputs written to a 16-bit plane come out in the promoted
    // domain: the mean of 10/20/30 is 20, carried as 20 << 8.
    let sources = vec![
        flat_frame(SampleKind::U8, 2, 1, 10),
        flat_frame(SampleKind::U8, 2, 1, 20),
        flat_frame(SampleKind::U8, 2, 1, 30),
    ];
    let labels = unknown_labels(3);
    let out = run(&AggregationMode::Plain, &sources, &labels, SampleKind::U16).unwrap();
    assert_eq!(out.planes[0].data, vec![20 << 8; 2]);
}

#[test]
fn run_weighted_and_trimmed_and_median() {
    let sources = vec![
        flat_frame(SampleKind::U8, 2, 2, 10),
        flat_frame(SampleKind::U8, 2, 2, 20),
        flat_frame(SampleKind::U8, 2, 2, 30),
    ];
    let ipb = vec![CategoryLabel::I, CategoryLabel::P, CategoryLabel::B];
    let w = Weights { w_i: 2000, w_p: 1000, w_b: 1000 };
    let out = run(&AggregationMode::Weighted(w), &sources, &ipb, SampleKind::U8).unwrap();
    // (10*2 + 20*1 + 30*1) / 4 = 70 / 4, truncated to 17.
    assert_eq!(out.planes[0].data, vec![17; 4]);

    let five = vec![
        flat_frame(SampleKind::U8, 2, 2, 5),
        flat_frame(SampleKind::U8, 2, 2, 100),
        flat_frame(SampleKind::U8, 2, 2, 10),
        flat_frame(SampleKind::U8, 2, 2, 20),
        flat_frame(SampleKind::U8, 2, 2, 90),
    ];
    let labels = unknown_labels(5);
    let out = run(&AggregationMode::Trimmed { discard: 1 }, &five, &labels, SampleKind::U8)
        .unwrap();
    assert_eq!(out.planes[0].data, vec![40; 4]);

    let out = run(&AggregationMode::Median, &five, &labels, SampleKind::U8).unwrap();
    assert_eq!(out.planes[0].data, vec![20; 4]);
}

#[test]
fn run_rejects_out_of_range_discard_before_any_write() {
    let sources = vec![
        flat_frame(SampleKind::U8, 2, 2, 10),
        flat_frame(SampleKind::U8, 2, 2, 20),
    ];
    let labels = unknown_labels(2);
    let r = run(&AggregationMode::Trimmed { discard: 1 }, &sources, &labels, SampleKind::U8);
    assert_eq!(r.unwrap_err(), CoreError::InvalidModeParameters);
}

#[test]
fn run_rejects_float_kinds() {
    let sources = vec![flat_frame(SampleKind::F32, 2, 2, 0)];
    let labels = unknown_labels(1);
    let r = run(&AggregationMode::Plain, &sources, &labels, SampleKind::F32);
    assert_eq!(r.unwrap_err(), CoreError::UnsupportedSampleKind);
}

#[test]
fn run_surfaces_the_degenerate_weighted_case() {
    let sources = vec![
        flat_frame(SampleKind::U8, 2, 2, 10),
        flat_frame(SampleKind::U8, 2, 2, 20),
    ];
    let labels = vec![CategoryLabel::I, CategoryLabel::P];
    let w = Weights { w_i: 0, w_p: 0, w_b: 0 };
    let r = run(&AggregationMode::Weighted(w), &sources, &labels, SampleKind::U8);
    assert_eq!(r.unwrap_err(), CoreError::DegenerateAggregate);
}

#[test]
fn parallel_style_schedule_is_bit_identical() {
    // The scattered driver walks each plane back to front, the shape a
    // parallel fan-out over disjoint coordinates takes; outputs must match
    // the sequential scan byte for byte, across all four modes.
    let a = Frame {
        kind: SampleKind::U10,
        planes: vec![
            Plane { width: 3, height: 2, data: vec![5, 600, 17, 1023, 0, 250] },
            Plane { width: 2, height: 1, data: vec![33, 44] },
        ],
    };
    let b = Frame {
        kind: SampleKind::U10,
        planes: vec![
            Plane { width: 3, height: 2, data: vec![900, 2, 300, 7, 512, 250] },
            Plane { width: 2, height: 1, data: vec![1, 1000] },
        ],
    };
    let c = Frame {
        kind: SampleKind::U10,
        planes: vec![
            Plane { width: 3, height: 2, data: vec![450, 450, 450, 450, 450, 450] },
            Plane { width: 2, height: 1, data: vec![512, 512] },
        ],
    };
    let sources = vec![a, b, c];
    let labels = vec![CategoryLabel::I, CategoryLabel::P, CategoryLabel::B];
    let modes = [
        AggregationMode::Plain,
        AggregationMode::Weighted(Weights { w_i: 1820, w_p: 1300, w_b: 1000 }),
        AggregationMode::Trimmed { discard: 1 },
        AggregationMode::Median,
    ];
    for mode in modes.iter() {
        let sequential = run(mode, &sources, &labels, SampleKind::U10).unwrap();
        let scattered = run_scattered(mode, &sources, &labels, SampleKind::U10).unwrap();
        assert_frames_equal(&sequential, &scattered);
    }
}

#[test]
fn run_handles_the_largest_representable_samples() {
    let top = (1u64 << 16) - 1;
    let sources = vec![
        flat_frame(SampleKind::U16, 2, 2, top),
        flat_frame(SampleKind::U16, 2, 2, top),
        flat_frame(SampleKind::U16, 2, 2, top),
    ];
    let labels = unknown_labels(3);
    for mode in [
        AggregationMode::Plain,
        AggregationMode::Trimmed { discard: 1 },
        AggregationMode::Median,
    ] {
        let out = run(&mode, &sources, &labels, SampleKind::U16).unwrap();
        assert_eq!(out.planes[0].data, vec![top; 4]);
    }
}

#[test]
fn run_with_no_samples_returns_an_empty_frame() {
    // With nothing to scan, even a degenerate weight triple never reaches a
    // pixel, so the scan succeeds with an empty output.
    let sources = vec![
        frame_of(SampleKind::U8, 0, 0, Vec::new()),
        frame_of(SampleKind::U8, 0, 0, Vec::new()),
    ];
    let labels = vec![CategoryLabel::I, CategoryLabel::P];
    let w = Weights { w_i: 0, w_p: 0, w_b: 0 };
    let out = run(&AggregationMode::Weighted(w), &sources, &labels, SampleKind::U8).unwrap();
    assert_eq!(out.planes.len(), 1);
    assert!(out.planes[0].data.is_empty());
}

#[test]
fn check_sources_accepts_a_uniform_set() {
    let sources = vec![
        flat_frame(SampleKind::U8, 3, 2, 1),
        flat_frame(SampleKind::U8, 3, 2, 2),
    ];
    assert!(check_sources(&sources, &unknown_labels(2)));
}

#[test]
fn check_sources_rejects_defects() {
    // Empty set.
    assert!(!check_sources(&Vec::new(), &Vec::new()));
    // Label count mismatch.
    let sources = vec![flat_frame(SampleKind::U8, 3, 2, 1)];
    assert!(!check_sources(&sources, &unknown_labels(2)));
    // Mismatched dimensions.
    let sources = vec![
        flat_frame(SampleKind::U8, 3, 2, 1),
        flat_frame(SampleKind::U8, 2, 3, 1),
    ];
    assert!(!check_sources(&sources, &unknown_labels(2)));
    // Mismatched kinds.
    let sources = vec![
        flat_frame(SampleKind::U8, 3, 2, 1),
        flat_frame(SampleKind::U16, 3, 2, 1),
    ];
    assert!(!check_sources(&sources, &unknown_labels(2)));
    // A sample too wide for the declared depth.
    let sources = vec![frame_of(SampleKind::U8, 2, 1, vec![7, 256])];
    assert!(!check_sources(&sources, &unknown_labels(1)));
    // A buffer that does not cover the grid.
    let sources = vec![frame_of(SampleKind::U8, 2, 2, vec![7, 8])];
    assert!(!check_sources(&sources, &unknown_labels(1)));
}

#[test]
fn collect_sources_takes_every_supplied_frame() {
    let mut supplied = vec![
        Some(flat_frame(SampleKind::U8, 1, 1, 3)),
        Some(flat_frame(SampleKind::U8, 1, 1, 9)),
    ];
    let frames = collect_sources(&mut supplied).unwrap();
    assert_eq!(frames.len(), 2);
    assert_eq!(frames[0].planes[0].data, vec![3]);
    assert_eq!(frames[1].planes[0].data, vec![9]);
}

#[test]
fn collect_sources_fails_on_a_missing_frame() {
    let mut supplied = vec![
        Some(flat_frame(SampleKind::U8, 1, 1, 3)),
        None,
        Some(flat_frame(SampleKind::U8, 1, 1, 9)),
    ];
    assert_eq!(collect_sources(&mut supplied).unwrap_err(), CoreError::SourceUnavailable);
}
