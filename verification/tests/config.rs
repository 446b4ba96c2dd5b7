use netquality::config::{Config, PingConfig, ServerConfig, SpeedtestConfig};
use netquality::quantile::Quantile;

#[test]
fn server_defaults() {
    let server = ServerConfig::default();
    assert_eq!(server.address, "0.0.0.0");
    assert_eq!(server.port, 9090);
}

#[test]
fn ping_defaults() {
    let ping = PingConfig::default();
    assert_eq!(ping.servers, vec!["8.8.8.8", "9.9.9.9", "1.1.1.1", "google.com"]);
    assert_eq!(ping.delay_ms, 1000);
    assert_eq!(ping.samples, 60);
    assert_eq!(ping.payload_size, 512);
    let expected: Vec<f64> = vec![0.0, 0.25, 0.5, 0.75, 0.9, 0.99, 1.0];
    let got: Vec<f64> =
        ping.quantiles.iter().map(|q| q.num as f64 / q.den as f64).collect();
    assert_eq!(got, expected);
}

#[test]
fn speedtest_defaults() {
    let st = SpeedtestConfig::default();
    assert_eq!(
        st.download_endpoint,
        "https://speedtest-64.speedtest.vodafone-ip.de/data.zero.bin.512M"
    );
    assert_eq!(st.upload_endpoint, "https://speedtest-64.speedtest.vodafone-ip.de/empty.txt");
    assert_eq!(st.download_duration_ms, 30000);
    assert_eq!(st.upload_duration_ms, 30000);
    assert_eq!(st.upload_chunk_size, 1000000);
    assert_eq!(st.quantiles.len(), 7);
    assert_eq!(st.quantiles[1], Quantile { num: 1, den: 4 });
}

#[test]
fn whole_config_defaults_consistent() {
    let config = Config::default();
    assert_eq!(config.server.address, "0.0.0.0");
    assert_eq!(config.server.port, 9090);
    assert_eq!(config.ping.servers, vec!["8.8.8.8", "9.9.9.9", "1.1.1.1", "google.com"]);
    assert_eq!(config.ping.delay_ms, 1000);
    assert_eq!(config.ping.samples, 60);
    assert_eq!(config.ping.payload_size, 512);
    assert_eq!(config.speedtest.download_duration_ms, 30000);
    assert_eq!(config.speedtest.upload_duration_ms, 30000);
    assert_eq!(config.speedtest.upload_chunk_size, 1000000);
    assert_eq!(config.ping.quantiles, config.speedtest.quantiles);
}
