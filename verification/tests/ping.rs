use netquality::exposition::{ExpositionBuilder, MetricType};
use netquality::go_floats::F32Bits;
use netquality::ping::{assemble_samples, PingDigest, PingErrorKind, PingResult, PingSummary};
use netquality::quantile::Quantile;
use netquality::strings::PName;

fn ms_to_ticks(ms: f64) -> u64 {
    (ms * 16.0).round() as u64
}

#[test]
fn ping_digestion_scenario() {
    // Samples [NaN, 10.0, 20.0, NaN, 30.0] ms, quantiles [0, 0.5, 1].
    let samples = vec![
        None,
        Some(ms_to_ticks(10.0)),
        Some(ms_to_ticks(20.0)),
        None,
        Some(ms_to_ticks(30.0)),
    ];
    let quantiles = vec![
        Quantile { num: 0, den: 1 },
        Quantile { num: 1, den: 2 },
        Quantile { num: 1, den: 1 },
    ];
    let digest = PingDigest::digest_data(&samples, &Vec::new(), &quantiles);
    assert_eq!(digest.count, 3);
    assert_eq!(digest.lost, 2);
    assert_eq!(digest.total, 5);
    assert_eq!((digest.loss_num, digest.loss_den), (2, 5));
    let loss = digest.loss_num as f32 / digest.loss_den as f32;
    assert!((loss - 0.4).abs() < 1e-6);

    // Quantile 0.5 reads 20 ms exactly at tick granularity.
    assert_eq!(digest.quantiles.len(), 3);
    assert_eq!(digest.quantiles[0], (Quantile { num: 0, den: 1 }, ms_to_ticks(10.0)));
    assert_eq!(digest.quantiles[1], (Quantile { num: 1, den: 2 }, ms_to_ticks(20.0)));
    assert_eq!(digest.quantiles[2], (Quantile { num: 1, den: 1 }, ms_to_ticks(30.0)));

    // Mean 20.0 ms and population deviation about 8.164966.
    let mean_ms = digest.sum_ticks as f64 / 16.0 / digest.count as f64;
    assert!((mean_ms - 20.0).abs() < 1e-9);
    let mean_sq = (digest.sum_sq_ticks as f64 / 256.0) / digest.count as f64;
    let stddev = (mean_sq - mean_ms * mean_ms).sqrt();
    assert!((stddev - 8.164966).abs() < 1e-4);
}

#[test]
fn ping_digestion_no_samples() {
    let digest = PingDigest::digest_data(
        &Vec::new(),
        &Vec::new(),
        &vec![Quantile { num: 1, den: 2 }],
    );
    assert_eq!(digest.count, 0);
    assert_eq!(digest.total, 0);
    assert!(digest.quantiles.is_empty());
    assert_eq!((digest.loss_num, digest.loss_den), (1, 1));
    // No errors were given, so no bucket may appear.
    assert!(digest.errors.is_empty());
}

#[test]
fn ping_digestion_all_lost() {
    let digest = PingDigest::digest_data(
        &vec![None, None],
        &Vec::new(),
        &vec![Quantile { num: 1, den: 2 }],
    );
    assert_eq!(digest.count, 0);
    assert_eq!(digest.lost, 2);
    assert!(digest.quantiles.is_empty());
    assert_eq!((digest.loss_num, digest.loss_den), (1, 1));
}

#[test]
fn error_kinds_are_bucketed() {
    let errors = vec![
        PingErrorKind::Timeout,
        PingErrorKind::IOError { kind: "connection refused".to_string() },
        PingErrorKind::Timeout,
        PingErrorKind::NetworkError,
        PingErrorKind::IOError { kind: "connection refused".to_string() },
        PingErrorKind::Timeout,
    ];
    let digest = PingDigest::digest_data(&Vec::new(), &errors, &Vec::new());
    assert_eq!(digest.errors.len(), 3);
    assert_eq!(digest.errors[0].1, 3);
    assert_eq!(digest.errors[0].0.label(), "timeout");
    assert_eq!(digest.errors[1].1, 2);
    assert_eq!(digest.errors[1].0.label(), "io error: connection refused");
    assert_eq!(digest.errors[2].1, 1);
    assert_eq!(digest.errors[2].0.label(), "Network error.");
    let total: u32 = digest.errors.iter().map(|b| b.1).sum();
    assert_eq!(total as usize, errors.len());
}

#[test]
fn error_labels_match_kinds() {
    assert_eq!(PingErrorKind::IncorrectBufferSize.label(), "buffer size was too small");
    assert_eq!(PingErrorKind::MalformedPacket.label(), "malformed packet");
    assert_eq!(PingErrorKind::Timeout.label(), "timeout");
    assert_eq!(PingErrorKind::EchoRequestPacket.label(), "Echo Request packet.");
    assert_eq!(PingErrorKind::NetworkError.label(), "Network error.");
    assert_eq!(PingErrorKind::IdenticalRequests.label(), "Multiple identical request");
}

#[test]
fn samples_land_in_their_sequence_slots() {
    // Answers arrive out of order; each lands in its own slot.
    let outcomes = vec![(3usize, 480u64), (0, 160), (2, 320)];
    let slots = assemble_samples(5, &outcomes);
    assert_eq!(slots, vec![Some(160), None, Some(320), Some(480), None]);
}

#[test]
fn ping_summary_renders_all_metrics() {
    let summary = PingSummary {
        quantiles: vec![("0.5".to_string(), F32Bits { bits: 20.0f32.to_bits() })],
        mean_ms: F32Bits { bits: 20.0f32.to_bits() },
        stddev: F32Bits { bits: 0.0f32.to_bits() },
        count: 3,
        loss_percent: F32Bits { bits: 0.0f32.to_bits() },
        errors: vec![(PingErrorKind::Timeout, 2)],
    };
    let result = PingResult {
        target: "8.8.8.8".to_string(),
        summary: Some(summary),
        error: None,
    };
    let mut builder = ExpositionBuilder::new();
    result.write_prometheus(&mut builder);
    let text = builder.render();
    assert_eq!(
        text,
        {
        let mut expected = String::new();
        expected.push_str("# HELP ping_ms ping to target\n");
        expected.push_str("# TYPE ping_ms summary\n");
        expected.push_str("ping_ms{target=\"8.8.8.8\", quantile=\"0.5\"} +0x1.4p4\n");
        expected.push_str("ping_ms_count{target=\"8.8.8.8\"} 3\n");
        expected.push_str("# HELP ping_mean_ms mean ping to target\n");
        expected.push_str("# TYPE ping_mean_ms gauge\n");
        expected.push_str("ping_mean_ms{target=\"8.8.8.8\"} +0x1.4p4\n");
        expected.push_str("# HELP ping_stddev ping standard deviation\n");
        expected.push_str("# TYPE ping_stddev gauge\n");
        expected.push_str("ping_stddev{target=\"8.8.8.8\"} 0\n");
        expected.push_str("# HELP packet_loss packet loss (0 to 1)\n");
        expected.push_str("# TYPE packet_loss gauge\n");
        expected.push_str("packet_loss{target=\"8.8.8.8\"} 0\n");
        expected.push_str("# HELP ping_errors number of ping errors\n");
        expected.push_str("# TYPE ping_errors counter\n");
        expected.push_str("ping_errors{target=\"8.8.8.8\", error=\"timeout\"} 2\n");
        expected
    }
    );
}

#[test]
fn failed_target_renders_one_error_line() {
    let result = PingResult {
        target: "bad.example".to_string(),
        summary: None,
        error: Some("no IP address found".to_string()),
    };
    let mut builder = ExpositionBuilder::new();
    result.write_prometheus(&mut builder);
    assert_eq!(
        builder.render(),
        {
        let mut expected = String::new();
        expected.push_str("# HELP ping_error ping error\n");
        expected.push_str("# TYPE ping_error counter\n");
        expected.push_str("ping_error{target=\"bad.example\", error=\"no IP address found\"} 1\n");
        expected
    }
    );
}

#[test]
fn two_targets_share_metric_groups() {
    let make = |target: &str| PingResult {
        target: target.to_string(),
        summary: Some(PingSummary {
            quantiles: vec![],
            mean_ms: F32Bits { bits: 1.0f32.to_bits() },
            stddev: F32Bits { bits: 0.0f32.to_bits() },
            count: 1,
            loss_percent: F32Bits { bits: 0.0f32.to_bits() },
            errors: vec![],
        }),
        error: None,
    };
    let mut builder = ExpositionBuilder::new();
    make("a").write_prometheus(&mut builder);
    make("b").write_prometheus(&mut builder);
    let text = builder.render();
    // One header pair per metric, lines for both targets beneath it.
    assert_eq!(text.matches("# HELP ping_ms ").count(), 1);
    assert_eq!(text.matches("# HELP ping_mean_ms ").count(), 1);
    assert!(text.contains("ping_mean_ms{target=\"a\"} +0x1.p0\n"));
    assert!(text.contains("ping_mean_ms{target=\"b\"} +0x1.p0\n"));
}

#[test]
fn histogram_metric_type_renders() {
    // The five metric kinds write their own type names.
    let mut builder = ExpositionBuilder::new();
    builder.begin_metric(&PName::new("a").unwrap(), MetricType::Histogram, "h");
    builder.add_line(&1u64, None);
    builder.end_metric();
    assert!(builder.render().contains("# TYPE a histogram\n"));
}
