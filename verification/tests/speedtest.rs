use netquality::exposition::ExpositionBuilder;
use netquality::go_floats::F64Bits;
use netquality::quantile::Quantile;
use netquality::speedtest::{SpeedtestData, SpeedtestDigest, SpeedtestSample, SpeedtestSummary};

const SECOND: u64 = 1_000_000_000;

#[test]
fn sample_rate_is_whole_bytes_per_second_times_eight() {
    let sample = SpeedtestSample { bytes: 1000, nanos: SECOND };
    assert_eq!(sample.bps(), 8000);
    let sample = SpeedtestSample { bytes: 4000, nanos: SECOND };
    assert_eq!(sample.bps(), 32000);
    // Truncation happens before the times-eight, as the rate is defined.
    let sample = SpeedtestSample { bytes: 5, nanos: 2 * SECOND };
    assert_eq!(sample.bps(), 16);
}

#[test]
fn throughput_digestion_scenario() {
    // Samples [(1000 B, 1 s), (4000 B, 1 s)], total (5000 B, 2 s),
    // quantiles [0.25, 0.75, 1.0]. Sorted rates 8000 and 32000 cover
    // weighted midpoints 0.25 and 0.75.
    let data = SpeedtestData {
        samples: vec![
            SpeedtestSample { bytes: 4000, nanos: SECOND },
            SpeedtestSample { bytes: 1000, nanos: SECOND },
        ],
        total: SpeedtestSample { bytes: 5000, nanos: 2 * SECOND },
    };
    let quantiles = vec![
        Quantile { num: 1, den: 4 },
        Quantile { num: 3, den: 4 },
        Quantile { num: 1, den: 1 },
    ];
    let digest = SpeedtestDigest::digest_data(data, &quantiles);
    assert_eq!(digest.count, 2);
    assert_eq!(digest.sum, 40000);
    assert_eq!(digest.mean, 20000);
    assert_eq!(digest.quantiles.len(), 3);
    assert_eq!(digest.quantiles[0], (Quantile { num: 1, den: 4 }, 8000));
    assert_eq!(digest.quantiles[1], (Quantile { num: 3, den: 4 }, 32000));
    assert_eq!(digest.quantiles[2], (Quantile { num: 1, den: 1 }, 32000));

    // Deviation: both samples sit 12000 bps from the mean, weighted by one
    // second each over a two-second span.
    assert_eq!(digest.dev_den, 2 * SECOND);
    assert_eq!(digest.dev_num, 2 * (12000u128 * 12000) * (SECOND as u128));
    let stddev = (digest.dev_num as f64 / digest.dev_den as f64).sqrt();
    assert!((stddev - 12000.0).abs() < 1e-6);
}

#[test]
fn throughput_digestion_empty() {
    let data = SpeedtestData {
        samples: vec![],
        total: SpeedtestSample { bytes: 0, nanos: SECOND },
    };
    let digest = SpeedtestDigest::digest_data(data, &vec![Quantile { num: 1, den: 2 }]);
    assert_eq!(digest.count, 0);
    assert_eq!(digest.mean, 0);
    assert_eq!(digest.sum, 0);
    assert_eq!(digest.dev_num, 0);
    assert!(digest.quantiles.is_empty());
}

#[test]
fn throughput_digestion_zero_span() {
    let data = SpeedtestData {
        samples: vec![SpeedtestSample { bytes: 1000, nanos: SECOND }],
        total: SpeedtestSample { bytes: 1000, nanos: 0 },
    };
    let digest = SpeedtestDigest::digest_data(data, &vec![Quantile { num: 1, den: 2 }]);
    assert_eq!(digest.count, 1);
    assert_eq!(digest.mean, 0);
    assert_eq!(digest.dev_num, 0);
    assert!(digest.quantiles.is_empty());
}

#[test]
fn quantile_rates_never_decrease() {
    let data = SpeedtestData {
        samples: vec![
            SpeedtestSample { bytes: 5000, nanos: SECOND / 2 },
            SpeedtestSample { bytes: 100, nanos: SECOND },
            SpeedtestSample { bytes: 9000, nanos: 2 * SECOND },
            SpeedtestSample { bytes: 700, nanos: SECOND / 4 },
        ],
        total: SpeedtestSample { bytes: 14800, nanos: 3 * SECOND + 3 * SECOND / 4 },
    };
    let quantiles = vec![
        Quantile { num: 0, den: 1 },
        Quantile { num: 1, den: 4 },
        Quantile { num: 1, den: 2 },
        Quantile { num: 3, den: 4 },
        Quantile { num: 9, den: 10 },
        Quantile { num: 1, den: 1 },
    ];
    let digest = SpeedtestDigest::digest_data(data, &quantiles);
    for pair in digest.quantiles.windows(2) {
        assert!(pair[0].1 <= pair[1].1);
    }
}

#[test]
fn speedtest_summary_renders_all_metrics() {
    let summary = SpeedtestSummary {
        quantiles: vec![("0.25".to_string(), 8000), ("1".to_string(), 32000)],
        mean: 20000,
        stddev: F64Bits { bits: 0.0f64.to_bits() },
        sum: 40000,
        count: 2,
    };
    let mut builder = ExpositionBuilder::new();
    builder.push_label(&netquality::strings::PName::new("direction").unwrap(), "down");
    summary.write_prometheus(&mut builder);
    builder.pop_label();
    assert_eq!(
        builder.render(),
        {
        let mut expected = String::new();
        expected.push_str("# HELP network_speed_bps network speed in bits per second\n");
        expected.push_str("# TYPE network_speed_bps summary\n");
        expected.push_str("network_speed_bps{direction=\"down\", quantile=\"0.25\"} 8000\n");
        expected.push_str("network_speed_bps{direction=\"down\", quantile=\"1\"} 32000\n");
        expected.push_str("network_speed_bps_sum{direction=\"down\"} 40000\n");
        expected.push_str("network_speed_bps_count{direction=\"down\"} 2\n");
        expected.push_str("# HELP network_speed_mean_bps mean network speed in bits per second\n");
        expected.push_str("# TYPE network_speed_mean_bps gauge\n");
        expected.push_str("network_speed_mean_bps{direction=\"down\"} 20000\n");
        expected.push_str("# HELP network_speed_stddev network speed standard deviation\n");
        expected.push_str("# TYPE network_speed_stddev gauge\n");
        expected.push_str("network_speed_stddev{direction=\"down\"} 0\n");
        expected
    }
    );
}
