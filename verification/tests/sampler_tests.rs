//! Sampler behavior across ticks, and the full per-tick pipeline.

use sysled::pipeline::tick;
use sysled::sampler::{CpuInfo, DiskInfo, NetInfo};
use sysled::NUM_LEDS;

#[test]
fn first_cpu_tick_is_all_zero_rates() {
    let mut cpu = CpuInfo::new();
    let rates = cpu.fetch_stats(vec![(123, 456), (999, 1000)]);
    assert_eq!(rates.len(), 2);
    for m in &rates {
        assert_eq!(m.num, 0);
    }
}

#[test]
fn unchanged_cpu_sample_is_all_zero_rates() {
    let mut cpu = CpuInfo::new();
    cpu.fetch_stats(vec![(10, 20), (30, 40)]);
    let rates = cpu.fetch_stats(vec![(10, 20), (30, 40)]);
    assert_eq!(rates.len(), 2);
    for m in &rates {
        assert_eq!(m.num, 0);
    }
}

#[test]
fn cpu_rate_is_busy_delta_over_total_delta() {
    let mut cpu = CpuInfo::new();
    cpu.fetch_stats(vec![(100, 200)]);
    let rates = cpu.fetch_stats(vec![(150, 300)]);
    assert_eq!(rates.len(), 1);
    assert_eq!(rates[0].num, 50);
    assert_eq!(rates[0].den, 100);
}

#[test]
fn equal_busy_and_total_deltas_give_full_rate_twice() {
    // Busy and total advance by the same amount two ticks in a row: the
    // core was fully busy both times.
    let mut cpu = CpuInfo::new();
    cpu.fetch_stats(vec![(10, 50)]);
    let first = cpu.fetch_stats(vec![(17, 57)]);
    assert_eq!(first[0].num, first[0].den);
    assert_eq!(first[0].to_byte(), 255);
    let second = cpu.fetch_stats(vec![(40, 80)]);
    assert_eq!(second[0].num, second[0].den);
    assert_eq!(second[0].to_byte(), 255);
}

#[test]
fn zero_total_delta_gives_zero_rate() {
    let mut cpu = CpuInfo::new();
    cpu.fetch_stats(vec![(5, 7)]);
    let rates = cpu.fetch_stats(vec![(9, 7)]);
    assert_eq!(rates[0].num, 0);
    assert_eq!(rates[0].to_byte(), 0);
}

#[test]
fn cpu_topology_change_rebaselines_to_zero() {
    let mut cpu = CpuInfo::new();
    cpu.fetch_stats(vec![(10, 20)]);
    let rates = cpu.fetch_stats(vec![(100, 200), (300, 400)]);
    assert_eq!(rates.len(), 2);
    for m in &rates {
        assert_eq!(m.num, 0);
    }
}

#[test]
fn first_net_tick_is_zero_delta() {
    let mut net = NetInfo::new();
    assert_eq!(net.fetch_stats(vec![(5000, 6000)]), (0, 0));
}

#[test]
fn net_deltas_sum_across_interfaces() {
    let mut net = NetInfo::new();
    net.fetch_stats(vec![(10, 20), (30, 40)]);
    let d = net.fetch_stats(vec![(15, 25), (35, 50)]);
    assert_eq!(d, (10, 15));
}

#[test]
fn unchanged_net_sample_is_zero_delta() {
    let mut net = NetInfo::new();
    net.fetch_stats(vec![(7, 8)]);
    assert_eq!(net.fetch_stats(vec![(7, 8)]), (0, 0));
}

#[test]
fn net_topology_change_rebaselines_to_zero() {
    let mut net = NetInfo::new();
    net.fetch_stats(vec![(10, 20)]);
    assert_eq!(net.fetch_stats(vec![(90, 90), (90, 90)]), (0, 0));
}

#[test]
fn first_disk_tick_is_zero_delta() {
    let mut disk = DiskInfo::new();
    assert_eq!(disk.fetch_stats(vec![(123456789, 987654321)]), (0, 0));
}

#[test]
fn disk_deltas_sum_across_devices() {
    let mut disk = DiskInfo::new();
    disk.fetch_stats(vec![(100, 200), (300, 400)]);
    let d = disk.fetch_stats(vec![(150, 220), (330, 480)]);
    assert_eq!(d, (80, 100));
}

#[test]
fn counter_decrease_clamps_delta_to_zero() {
    let mut disk = DiskInfo::new();
    disk.fetch_stats(vec![(1000, 1000)]);
    let d = disk.fetch_stats(vec![(900, 1500)]);
    assert_eq!(d, (0, 500));
}

#[test]
fn busy_delta_beyond_total_delta_clamps_to_full() {
    let mut cpu = CpuInfo::new();
    cpu.fetch_stats(vec![(0, 10)]);
    let rates = cpu.fetch_stats(vec![(20, 15)]);
    assert_eq!(rates[0].num, rates[0].den);
    assert_eq!(rates[0].to_byte(), 255);
}

#[test]
fn aggregated_delta_saturates_at_counter_maximum() {
    let mut disk = DiskInfo::new();
    disk.fetch_stats(vec![(0, 0), (0, 0)]);
    let d = disk.fetch_stats(vec![(u64::MAX, 1), (u64::MAX, 2)]);
    assert_eq!(d, (u64::MAX, 3));
}

#[test]
fn stub_sample_acts_as_zero_activity() {
    // A platform without real counters reports one zero-valued unit; after
    // the first tick it keeps yielding zero deltas like a genuinely idle
    // subsystem.
    let mut net = NetInfo::new();
    net.fetch_stats(sysled::platform::net_stats());
    assert_eq!(net.fetch_stats(sysled::platform::net_stats()), (0, 0));
    let mut disk = DiskInfo::new();
    disk.fetch_stats(sysled::platform::disk_stats());
    assert_eq!(disk.fetch_stats(sysled::platform::disk_stats()), (0, 0));
}

#[test]
fn first_full_tick_emits_an_idle_frame() {
    let mut cpu = CpuInfo::new();
    let mut net = NetInfo::new();
    let mut disk = DiskInfo::new();
    let buf = tick(
        &mut cpu,
        &mut net,
        &mut disk,
        vec![(1000, 2000), (3000, 4000)],
        vec![(500, 600)],
        vec![(70, 80)],
        NUM_LEDS,
    );
    assert_eq!(buf.len(), 1 + NUM_LEDS * 3);
    assert!(buf.iter().all(|&b| b == 0));
}

#[test]
fn second_full_tick_reflects_activity() {
    let mut cpu = CpuInfo::new();
    let mut net = NetInfo::new();
    let mut disk = DiskInfo::new();
    tick(
        &mut cpu,
        &mut net,
        &mut disk,
        vec![(0, 0)],
        vec![(0, 0)],
        vec![(0, 0)],
        NUM_LEDS,
    );
    let buf = tick(
        &mut cpu,
        &mut net,
        &mut disk,
        vec![(50, 100)],
        vec![(sysled::NET_RECV_CAP, 0)],
        vec![(0, 0)],
        NUM_LEDS,
    );
    for i in 0..NUM_LEDS {
        // CPU half busy, receive channel saturated, everything else idle.
        assert_eq!(buf[1 + 3 * i], 127);
        assert_eq!(buf[2 + 3 * i], 0);
        assert_eq!(buf[3 + 3 * i], if i < 6 { 255 } else { 0 });
    }
}
