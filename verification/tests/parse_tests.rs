//! Counter-file parsing on concrete lines and files.

use sysled::parse::{
    field_u64, parse_cpu_line, parse_cpu_stats, parse_disk_line, parse_disk_stats,
    parse_net_line, parse_net_stats, LineResult,
};

#[test]
fn decimal_field_parses() {
    assert_eq!(field_u64(&b"123".to_vec()), Some(123));
    assert_eq!(field_u64(&b"0".to_vec()), Some(0));
    assert_eq!(field_u64(&b"18446744073709551615".to_vec()), Some(u64::MAX));
}

#[test]
fn bad_decimal_fields_are_rejected() {
    assert_eq!(field_u64(&b"".to_vec()), None);
    assert_eq!(field_u64(&b"12a".to_vec()), None);
    assert_eq!(field_u64(&b"-5".to_vec()), None);
    assert_eq!(field_u64(&b"18446744073709551616".to_vec()), None);
}

#[test]
fn core_line_parses_busy_and_total() {
    let r = parse_cpu_line(&b"cpu0 10 20 30 40 50 60 70 80 90".to_vec());
    // Total is the sum of the first eight counters, idle the fourth and
    // fifth; busy is their difference.
    assert_eq!(r, LineResult::Parsed((270, 360)));
}

#[test]
fn aggregate_cpu_line_is_skipped() {
    assert_eq!(
        parse_cpu_line(&b"cpu  3 4 5 6 7 8 9 10".to_vec()),
        LineResult::Skip
    );
}

#[test]
fn unrelated_line_is_skipped() {
    assert_eq!(parse_cpu_line(&b"intr 12345 0 0".to_vec()), LineResult::Skip);
    assert_eq!(parse_cpu_line(&b"".to_vec()), LineResult::Skip);
}

#[test]
fn short_core_line_is_malformed() {
    assert_eq!(
        parse_cpu_line(&b"cpu1 1 2 3".to_vec()),
        LineResult::Malformed
    );
}

#[test]
fn oversized_counter_fields_are_passed_over() {
    // A counter too wide for the per-core width does not parse as a number,
    // so the numeric fields shift left.
    let r = parse_cpu_line(&b"cpu0 99999999999 1 2 3 4 5 6 7 8".to_vec());
    assert_eq!(r, LineResult::Parsed((27, 36)));
}

#[test]
fn cpu_file_collects_core_lines_in_order() {
    let content = b"cpu  9 9 9 9 9 9 9 9\ncpu0 10 0 0 0 0 0 0 0 0\ncpu1 0 0 0 4 4 0 0 0\nintr 7\n";
    let r = parse_cpu_stats(&content.to_vec());
    assert_eq!(r, Some(vec![(10, 10), (0, 8)]));
}

#[test]
fn cpu_file_with_one_bad_core_line_fails() {
    let content = b"cpu0 10 0 0 0 0 0 0 0\ncpu1 1 2\n";
    assert_eq!(parse_cpu_stats(&content.to_vec()), None);
}

#[test]
fn watched_interface_line_parses_first_and_ninth_fields() {
    let r = parse_net_line(&b"  enp3s0: 100 1 2 3 4 5 6 7 200 9 10".to_vec());
    assert_eq!(r, LineResult::Parsed((100, 200)));
    let r = parse_net_line(&b"wlan0: 7 0 0 0 0 0 0 0 8".to_vec());
    assert_eq!(r, LineResult::Parsed((7, 8)));
}

#[test]
fn unwatched_interface_lines_are_skipped() {
    assert_eq!(
        parse_net_line(&b"    lo: 1 2 3 4 5 6 7 8 9".to_vec()),
        LineResult::Skip
    );
    assert_eq!(
        parse_net_line(&b"Inter-|   Receive                |  Transmit".to_vec()),
        LineResult::Skip
    );
    assert_eq!(
        parse_net_line(&b" face |bytes    packets errs".to_vec()),
        LineResult::Skip
    );
}

#[test]
fn watched_interface_with_missing_fields_is_malformed() {
    assert_eq!(
        parse_net_line(&b"enp0s1: 5 6".to_vec()),
        LineResult::Malformed
    );
    assert_eq!(parse_net_line(&b"  en0".to_vec()), LineResult::Malformed);
}

#[test]
fn net_file_collects_watched_interfaces() {
    let content = b"Inter-|   Receive\n face |bytes\n    lo: 9 0 0 0 0 0 0 0 9\n  enp3s0: 11 0 0 0 0 0 0 0 22\n  wlp2s0: 33 0 0 0 0 0 0 0 44\n";
    let r = parse_net_stats(&content.to_vec());
    assert_eq!(r, Some(vec![(11, 22), (33, 44)]));
}

#[test]
fn disk_device_line_scales_sectors_to_bytes() {
    let r = parse_disk_line(&b"   8       0 sda 100 200 300 400 500 600 700 800".to_vec());
    assert_eq!(r, LineResult::Parsed((300 * 512, 700 * 512)));
}

#[test]
fn other_disk_devices_are_skipped() {
    assert_eq!(
        parse_disk_line(&b"   8       1 sda1 1 2 3 4 5 6 7 8".to_vec()),
        LineResult::Skip
    );
    assert_eq!(
        parse_disk_line(&b"   7       0 loop0 1 2 3 4 5 6 7 8".to_vec()),
        LineResult::Skip
    );
}

#[test]
fn matching_disk_line_with_missing_fields_is_malformed() {
    assert_eq!(
        parse_disk_line(&b"8 0 sda 1 2".to_vec()),
        LineResult::Malformed
    );
    assert_eq!(parse_disk_line(&b"".to_vec()), LineResult::Malformed);
}

#[test]
fn disk_byte_count_overflow_is_malformed() {
    // 2^55 sectors of 512 bytes would overflow the byte counter.
    let line = format!("8 0 sda 1 2 {} 4 5 6 7 8", u64::MAX / 512 + 1);
    assert_eq!(
        parse_disk_line(&line.into_bytes()),
        LineResult::Malformed
    );
}

#[test]
fn disk_file_collects_matching_devices() {
    let content = b"   7       0 loop0 0 0 0 0 0 0 0 0\n   8       0 sda 0 0 10 0 0 0 20 0\n";
    let r = parse_disk_stats(&content.to_vec());
    assert_eq!(r, Some(vec![(5120, 10240)]));
}

#[test]
fn tab_separated_fields_parse_like_spaces() {
    let r = parse_disk_line(&b"8\t0\tsda\t1\t2\t3\t4\t5\t6\t7\t8".to_vec());
    assert_eq!(r, LineResult::Parsed((3 * 512, 7 * 512)));
}

#[test]
fn blank_line_in_disk_file_is_malformed() {
    // A line with no fields cannot name a device: acquisition fails rather
    // than guessing.
    let content = b"   8       0 sda 0 0 1 0 0 0 1 0\n\n";
    assert_eq!(parse_disk_stats(&content.to_vec()), None);
}

#[test]
fn blank_lines_are_harmless_in_cpu_and_net_files() {
    let cpu = b"\ncpu0 1 0 0 0 0 0 0 0\n\n";
    assert_eq!(parse_cpu_stats(&cpu.to_vec()), Some(vec![(1, 1)]));
    let net = b"\n  enp1s0: 4 0 0 0 0 0 0 0 5\n\n";
    assert_eq!(parse_net_stats(&net.to_vec()), Some(vec![(4, 5)]));
}

#[test]
fn platform_stub_reports_one_idle_unit() {
    assert_eq!(sysled::platform::net_stats(), vec![(0, 0)]);
    assert_eq!(sysled::platform::disk_stats(), vec![(0, 0)]);
}
