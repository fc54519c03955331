//! Normalizer, encoder and report-builder behavior on concrete values.

use sysled::encoder::{build_report, encode_frame, expand_channel, metrics_to_bytes};
use sysled::metric::{normalize, NormalizedMetric};
use sysled::pipeline::render_report;
use sysled::{DISK_READ_CAP, DISK_WRITTEN_CAP, NET_RECV_CAP, NET_SENT_CAP, NUM_LEDS};

#[test]
fn normalize_below_capacity_keeps_ratio() {
    let m = normalize(100, 200);
    assert_eq!(m.num, 100);
    assert_eq!(m.den, 200);
}

#[test]
fn normalize_at_capacity_is_exactly_one() {
    let m = normalize(DISK_READ_CAP, DISK_READ_CAP);
    assert_eq!(m.num, m.den);
    assert_eq!(m.to_byte(), 255);
}

#[test]
fn normalize_just_below_capacity_is_below_one() {
    let m = normalize(DISK_READ_CAP - 1, DISK_READ_CAP);
    assert!(m.num < m.den);
    assert!(m.to_byte() < 255);
}

#[test]
fn normalize_above_capacity_clips_to_one() {
    let m = normalize(3 * NET_RECV_CAP, NET_RECV_CAP);
    assert_eq!(m.num, m.den);
    assert_eq!(m.to_byte(), 255);
}

#[test]
fn normalize_zero_is_zero() {
    let m = normalize(0, NET_SENT_CAP);
    assert_eq!(m.num, 0);
    assert_eq!(m.to_byte(), 0);
}

#[test]
fn brightness_bytes_are_floor_of_255_times_value() {
    assert_eq!(NormalizedMetric::new(1, 2).to_byte(), 127);
    assert_eq!(NormalizedMetric::new(1, 4).to_byte(), 63);
    assert_eq!(NormalizedMetric::new(3, 4).to_byte(), 191);
    assert_eq!(NormalizedMetric::new(1, 1).to_byte(), 255);
    assert_eq!(NormalizedMetric::new(0, 7).to_byte(), 0);
    assert_eq!(NormalizedMetric::zero().to_byte(), 0);
    assert_eq!(NormalizedMetric::new(1, 3).to_byte(), 85);
}

#[test]
fn expand_replicates_each_metric_over_its_share() {
    // Three metrics over twelve LEDs: four LEDs each.
    let bytes = vec![10u8, 20, 30];
    let leds = expand_channel(&bytes, 12);
    assert_eq!(
        leds,
        vec![10u8, 10, 10, 10, 20, 20, 20, 20, 30, 30, 30, 30]
    );
}

#[test]
fn expand_uncovered_positions_default_to_zero() {
    // Five metrics over twelve LEDs: two LEDs each, the last two stay dark.
    let bytes = vec![1u8, 2, 3, 4, 5];
    let leds = expand_channel(&bytes, 12);
    assert_eq!(leds, vec![1u8, 1, 2, 2, 3, 3, 4, 4, 5, 5, 0, 0]);
}

#[test]
fn expand_empty_channel_is_all_dark() {
    let leds = expand_channel(&vec![], 12);
    assert_eq!(leds, vec![0u8; 12]);
}

#[test]
fn expand_more_metrics_than_leds_is_all_dark() {
    let bytes = vec![9u8, 9, 9, 9];
    let leds = expand_channel(&bytes, 3);
    assert_eq!(leds, vec![0u8, 0, 0]);
}

#[test]
fn frame_interleaves_channels_per_position() {
    let frame = encode_frame(&vec![1u8, 2], &vec![3u8, 4], &vec![5u8, 6], 2);
    assert_eq!(frame.bytes, vec![1u8, 3, 5, 2, 4, 6]);
}

#[test]
fn report_prefixes_one_zero_byte() {
    let frame = encode_frame(&vec![7u8], &vec![8u8], &vec![9u8], 1);
    let buf = build_report(&frame);
    assert_eq!(buf, vec![0u8, 7, 8, 9]);
}

#[test]
fn report_length_is_one_plus_three_per_led() {
    let cpu = vec![NormalizedMetric::new(1, 2)];
    let buf = render_report(&cpu, (0, 0), (0, 0), NUM_LEDS);
    assert_eq!(buf.len(), 1 + NUM_LEDS * 3);
    assert_eq!(buf[0], 0);
}

#[test]
fn encoder_is_deterministic_across_invocations() {
    let cpu = vec![NormalizedMetric::new(2, 3), NormalizedMetric::new(1, 5)];
    let first = render_report(&cpu, (12345, 500), (77, 3), NUM_LEDS);
    let second = render_report(&cpu, (12345, 500), (77, 3), NUM_LEDS);
    assert_eq!(first, second);
}

#[test]
fn metrics_to_bytes_maps_each_metric() {
    let ms = vec![
        NormalizedMetric::new(0, 1),
        NormalizedMetric::new(1, 2),
        NormalizedMetric::new(1, 1),
    ];
    assert_eq!(metrics_to_bytes(&ms), vec![0u8, 127, 255]);
}

#[test]
fn full_frame_scenario_half_cpu_quarter_read_full_recv() {
    // One CPU metric at one half, disk read at a quarter of capacity and
    // written at three quarters, network fully saturated on receive and
    // idle on send. One CPU metric covers all twelve LEDs; each two-metric
    // channel splits its twelve LEDs in half.
    let cpu = vec![NormalizedMetric::new(1, 2)];
    let disk = (DISK_READ_CAP / 4, 3 * (DISK_WRITTEN_CAP / 4));
    let net = (NET_RECV_CAP, 0u64);
    let buf = render_report(&cpu, disk, net, 12);
    assert_eq!(buf.len(), 37);
    assert_eq!(buf[0], 0);
    for i in 0..12 {
        let r = buf[1 + 3 * i];
        let g = buf[2 + 3 * i];
        let b = buf[3 + 3 * i];
        assert_eq!(r, 127);
        if i < 6 {
            assert_eq!(g, 63);
            assert_eq!(b, 255);
        } else {
            assert_eq!(g, 191);
            assert_eq!(b, 0);
        }
    }
}

#[test]
fn frame_share_of_four_leds_per_cpu_metric() {
    // Three CPU metrics, one of them at one half: that core's share is four
    // LEDs of red 127; the other channels stay dark.
    let cpu = vec![
        NormalizedMetric::new(0, 1),
        NormalizedMetric::new(1, 2),
        NormalizedMetric::new(0, 1),
    ];
    let buf = render_report(&cpu, (0, 0), (0, 0), 12);
    for i in 0..12 {
        let r = buf[1 + 3 * i];
        assert_eq!(r, if (4..8).contains(&i) { 127 } else { 0 });
        assert_eq!(buf[2 + 3 * i], 0);
        assert_eq!(buf[3 + 3 * i], 0);
    }
}
