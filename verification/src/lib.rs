//! Network-quality measurement and the rules of a network control tool:
//! latency statistics and quality tiers, the steps of latency probing and
//! throughput measurement, resolver benchmarking, the watch loop, and the
//! readers of the listings that the system tools print.
//!
//! Every quantity is a whole number in a fixed unit: times in
//! microseconds, shares in thousandths of a percent, throughput in
//! kilobits per second, sizes in bytes.

pub mod bandwidth;
pub mod binary64;
pub mod block;
pub mod connections;
pub mod display;
pub mod dns;
pub mod fixed;
pub mod monitor;
pub mod ping;
pub mod quality;
pub mod speed;
pub mod stats;
pub mod text;
pub mod utils;
pub mod vpn;
