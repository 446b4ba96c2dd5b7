//! Network-quality measurement library: validated Prometheus identifiers,
//! label escaping, Go-style hex float rendering, an exposition builder,
//! integer-exact digestion of ping and throughput samples, and content
//! negotiation for the scrape routes.
//!
//! Measurement values cross the boundary as plain integers: round trips as
//! sixteenth-of-a-millisecond ticks, throughput samples as bytes and
//! nanoseconds, quantiles as exact fractions, and floating-point results as
//! IEEE bit patterns. Everything the library computes on them is verified.

pub mod config;
pub mod exposition;
pub mod go_floats;
pub mod negotiate;
pub mod ping;
pub mod quantile;
pub mod speedtest;
pub mod strings;
