//! The exporter's configuration, as plain values: addresses and endpoints as
//! text, durations in milliseconds, quantiles as exact fractions. The
//! defaults mirror what the exporter uses when no configuration file is
//! given.

use vstd::prelude::*;

use crate::quantile::Quantile;

verus! {

/// Where the server listens.
pub struct ServerConfig {
    /// The listen address.
    pub address: String,
    /// The listen port.
    pub port: u16,
}

impl Default for ServerConfig {
    /// Listens on every interface, port 9090.
    fn default() -> (r: Self)
        ensures
            r.address@ == "0.0.0.0"@,
            r.port == 9090,
    {
        ServerConfig { address: "0.0.0.0".to_owned(), port: 9090 }
    }
}

/// The default quantiles requested of both engines: 0, 0.25, 0.5, 0.75,
/// 0.9, 0.99 and 1.
pub open spec fn default_quantiles() -> Seq<Quantile> {
    seq![
        Quantile { num: 0, den: 1 },
        Quantile { num: 1, den: 4 },
        Quantile { num: 1, den: 2 },
        Quantile { num: 3, den: 4 },
        Quantile { num: 9, den: 10 },
        Quantile { num: 99, den: 100 },
        Quantile { num: 1, den: 1 },
    ]
}

/// Builds the default quantile list.
pub fn make_default_quantiles() -> (r: Vec<Quantile>)
    ensures
        r@ == default_quantiles(),
{
    let mut v: Vec<Quantile> = Vec::new();
    v.push(Quantile { num: 0, den: 1 });
    v.push(Quantile { num: 1, den: 4 });
    v.push(Quantile { num: 1, den: 2 });
    v.push(Quantile { num: 3, den: 4 });
    v.push(Quantile { num: 9, den: 10 });
    v.push(Quantile { num: 99, den: 100 });
    v.push(Quantile { num: 1, den: 1 });
    proof {
        assert(v@ =~= default_quantiles());
    }
    v
}

/// How the ping engine probes.
pub struct PingConfig {
    /// The targets, each an address or a domain.
    pub servers: Vec<String>,
    /// The pause between probes, in milliseconds.
    pub delay_ms: u64,
    /// How many probes each target gets.
    pub samples: usize,
    /// The echo-request payload size in bytes.
    pub payload_size: usize,
    /// The quantiles to report.
    pub quantiles: Vec<Quantile>,
}

impl Default for PingConfig {
    /// Probes three public resolvers and one domain, once a second, sixty
    /// times, with a 512-byte payload.
    fn default() -> (r: Self)
        ensures
            r.servers@.len() == 4,
            r.servers@[0]@ == "8.8.8.8"@,
            r.servers@[1]@ == "9.9.9.9"@,
            r.servers@[2]@ == "1.1.1.1"@,
            r.servers@[3]@ == "google.com"@,
            r.delay_ms == 1000,
            r.samples == 60,
            r.payload_size == 512,
            r.quantiles@ == default_quantiles(),
    {
        let mut servers: Vec<String> = Vec::new();
        servers.push("8.8.8.8".to_owned());
        servers.push("9.9.9.9".to_owned());
        servers.push("1.1.1.1".to_owned());
        servers.push("google.com".to_owned());
        PingConfig {
            servers,
            delay_ms: 1000,
            samples: 60,
            payload_size: 512,
            quantiles: make_default_quantiles(),
        }
    }
}

/// How the throughput engine measures.
pub struct SpeedtestConfig {
    /// Where the download measurement streams from.
    pub download_endpoint: String,
    /// Where the upload measurement posts to.
    pub upload_endpoint: String,
    /// How long the download runs, in milliseconds.
    pub download_duration_ms: u64,
    /// How long the upload runs, in milliseconds.
    pub upload_duration_ms: u64,
    /// How many bytes each upload body carries.
    pub upload_chunk_size: u64,
    /// The quantiles to report.
    pub quantiles: Vec<Quantile>,
}

impl Default for SpeedtestConfig {
    /// Measures against the public Vodafone speedtest endpoints, thirty
    /// seconds each way, a megabyte per upload.
    fn default() -> (r: Self)
        ensures
            r.download_endpoint@ == "https://speedtest-64.speedtest.vodafone-ip.de/data.zero.bin.512M"@,
            r.upload_endpoint@ == "https://speedtest-64.speedtest.vodafone-ip.de/empty.txt"@,
            r.download_duration_ms == 30000,
            r.upload_duration_ms == 30000,
            r.upload_chunk_size == 1000000,
            r.quantiles@ == default_quantiles(),
    {
        SpeedtestConfig {
            download_endpoint:
                "https://speedtest-64.speedtest.vodafone-ip.de/data.zero.bin.512M".to_owned(),
            upload_endpoint: "https://speedtest-64.speedtest.vodafone-ip.de/empty.txt".to_owned(),
            download_duration_ms: 30000,
            upload_duration_ms: 30000,
            upload_chunk_size: 1000000,
            quantiles: make_default_quantiles(),
        }
    }
}

/// The whole configuration.
pub struct Config {
    pub server: ServerConfig,
    pub ping: PingConfig,
    pub speedtest: SpeedtestConfig,
}

impl Default for Config {
    /// The defaults of every section, field by field.
    fn default() -> (r: Self)
        ensures
            r.server.address@ == "0.0.0.0"@,
            r.server.port == 9090,
            r.ping.servers@.len() == 4,
            r.ping.servers@[0]@ == "8.8.8.8"@,
            r.ping.servers@[1]@ == "9.9.9.9"@,
            r.ping.servers@[2]@ == "1.1.1.1"@,
            r.ping.servers@[3]@ == "google.com"@,
            r.ping.delay_ms == 1000,
            r.ping.samples == 60,
            r.ping.payload_size == 512,
            r.ping.quantiles@ == default_quantiles(),
            r.speedtest.download_endpoint@ == "https://speedtest-64.speedtest.vodafone-ip.de/data.zero.bin.512M"@,
            r.speedtest.upload_endpoint@ == "https://speedtest-64.speedtest.vodafone-ip.de/empty.txt"@,
            r.speedtest.download_duration_ms == 30000,
            r.speedtest.upload_duration_ms == 30000,
            r.speedtest.upload_chunk_size == 1000000,
            r.speedtest.quantiles@ == default_quantiles(),
    {
        Config {
            server: ServerConfig::default(),
            ping: PingConfig::default(),
            speedtest: SpeedtestConfig::default(),
        }
    }
}

} // verus!
