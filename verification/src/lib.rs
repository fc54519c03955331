//! Drives an addressable LED strip as a host activity indicator.
//!
//! Each tick, cumulative CPU, network and disk counters are sampled, turned
//! into per-interval rates, normalized against fixed capacity constants, and
//! encoded into a fixed-size RGB frame that is written to the device as a
//! single HID output report.

use vstd::prelude::*;

pub mod encoder;
pub mod metric;
pub mod parse;
pub mod pipeline;
pub mod platform;
pub mod sampler;

verus! {

/// Number of LEDs on the strip; fixed on both ends of the wire.
pub const NUM_LEDS: usize = 12;

/// USB vendor id of the LED device.
pub const DEVICE_VID: u16 = 0x16c0;

/// USB product id of the LED device.
pub const DEVICE_PID: u16 = 0x0486;

/// Disk read bytes per tick considered fully saturated.
pub const DISK_READ_CAP: u64 = 200_000_000;

/// Disk written bytes per tick considered fully saturated.
pub const DISK_WRITTEN_CAP: u64 = 200_000_000;

/// Network received bytes per tick considered fully saturated.
pub const NET_RECV_CAP: u64 = 1_000_000;

/// Network sent bytes per tick considered fully saturated.
pub const NET_SENT_CAP: u64 = 100_000;

/// Sampling interval in milliseconds.
pub const REPORT_INTERVAL_MS: u64 = 2000;

} // verus!
