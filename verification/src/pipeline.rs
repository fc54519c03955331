//! One full sample → normalize → encode → report step.
//!
//! The scheduler loop fetches raw counter samples, hands them to [`tick`],
//! and writes the returned buffer to the device. CPU rates drive the red
//! channel, disk activity the green channel, network activity the blue one.

use vstd::prelude::*;
use crate::metric::{normalize, normalized, NormalizedMetric};
use crate::sampler::{agg_delta, cpu_rates, effective_prev, CpuInfo, DiskInfo, NetInfo};
use crate::encoder::{
    build_report, channel_bytes, encode_frame, frame_spec, metrics_to_bytes, report_spec,
};
use crate::{DISK_READ_CAP, DISK_WRITTEN_CAP, NET_RECV_CAP, NET_SENT_CAP};

verus! {

/// The green channel's metrics for one tick: read and written byte deltas,
/// each normalized against its disk capacity.
pub open spec fn disk_channel(d: (u64, u64)) -> Seq<NormalizedMetric> {
    seq![normalized(d.0, DISK_READ_CAP), normalized(d.1, DISK_WRITTEN_CAP)]
}

/// The blue channel's metrics for one tick: received and sent byte deltas,
/// each normalized against its network capacity.
pub open spec fn net_channel(n: (u64, u64)) -> Seq<NormalizedMetric> {
    seq![normalized(n.0, NET_RECV_CAP), normalized(n.1, NET_SENT_CAP)]
}

/// The wire buffer one tick emits, as a function of the previous samples and
/// the current ones alone.
pub open spec fn tick_report(
    prev_cpu: Seq<(u32, u32)>,
    prev_net: Seq<(u64, u64)>,
    prev_disk: Seq<(u64, u64)>,
    cpu_sample: Seq<(u32, u32)>,
    net_sample: Seq<(u64, u64)>,
    disk_sample: Seq<(u64, u64)>,
    num_leds: int,
) -> Seq<u8> {
    report_spec(
        frame_spec(
            channel_bytes(cpu_rates(effective_prev(prev_cpu, cpu_sample), cpu_sample)),
            channel_bytes(disk_channel(agg_delta(prev_disk, disk_sample))),
            channel_bytes(net_channel(agg_delta(prev_net, net_sample))),
            num_leds,
        ),
    )
}

/// A tick whose rates are all zero and whose byte deltas are both zero
/// emits the idle report: the id byte followed by all-dark triplets.
pub proof fn lemma_idle_activity_report_dark(
    rates: Seq<NormalizedMetric>,
    num_leds: int,
)
    requires
        0 <= num_leds,
        forall|i: int| 0 <= i < rates.len() ==> (#[trigger] rates[i]).wf(),
        forall|i: int| 0 <= i < rates.len() ==> (#[trigger] rates[i]).is_zero(),
    ensures
        ({
            let report = report_spec(
                frame_spec(
                    channel_bytes(rates),
                    channel_bytes(disk_channel((0u64, 0u64))),
                    channel_bytes(net_channel((0u64, 0u64))),
                    num_leds,
                ),
            );
            &&& report.len() == 1 + 3 * num_leds
            &&& forall|k: int| 0 <= k < report.len() ==> report[k] == 0u8
        }),
{
    let red = channel_bytes(rates);
    let green = channel_bytes(disk_channel((0u64, 0u64)));
    let blue = channel_bytes(net_channel((0u64, 0u64)));
    assert forall|j: int| 0 <= j < red.len() implies red[j] == 0u8 by {
        crate::metric::lemma_brightness_bounds(rates[j]);
    }
    assert forall|j: int| 0 <= j < green.len() implies green[j] == 0u8 by {
        crate::metric::lemma_brightness_bounds(disk_channel((0u64, 0u64))[j]);
    }
    assert forall|j: int| 0 <= j < blue.len() implies blue[j] == 0u8 by {
        crate::metric::lemma_brightness_bounds(net_channel((0u64, 0u64))[j]);
    }
    let frame = frame_spec(red, green, blue, num_leds);
    assert forall|k: int| 0 <= k < frame.len() implies frame[k] == 0u8 by {
        vstd::arithmetic::div_mod::lemma_div_pos_is_pos(k, 3);
        crate::encoder::lemma_dark_channel(red, num_leds, k / 3);
        crate::encoder::lemma_dark_channel(green, num_leds, k / 3);
        crate::encoder::lemma_dark_channel(blue, num_leds, k / 3);
    }
}

/// The very first tick emits the idle report, whatever the counters hold:
/// with no previous sample of the same shape, every rate and delta is zero
/// and every triplet byte of the wire buffer is dark.
pub proof fn lemma_first_tick_report_dark(
    prev_cpu: Seq<(u32, u32)>,
    prev_net: Seq<(u64, u64)>,
    prev_disk: Seq<(u64, u64)>,
    cpu_sample: Seq<(u32, u32)>,
    net_sample: Seq<(u64, u64)>,
    disk_sample: Seq<(u64, u64)>,
    num_leds: int,
)
    requires
        0 <= num_leds,
        prev_cpu.len() != cpu_sample.len(),
        prev_net.len() != net_sample.len(),
        prev_disk.len() != disk_sample.len(),
    ensures
        ({
            let report = tick_report(
                prev_cpu,
                prev_net,
                prev_disk,
                cpu_sample,
                net_sample,
                disk_sample,
                num_leds,
            );
            &&& report.len() == 1 + 3 * num_leds
            &&& forall|k: int| 0 <= k < report.len() ==> report[k] == 0u8
        }),
{
    crate::sampler::lemma_first_tick_rates_zero(prev_cpu, cpu_sample);
    crate::sampler::lemma_cpu_rates_wf(effective_prev(prev_cpu, cpu_sample), cpu_sample);
    crate::sampler::lemma_first_tick_delta_zero(prev_net, net_sample);
    crate::sampler::lemma_first_tick_delta_zero(prev_disk, disk_sample);
    lemma_idle_activity_report_dark(
        cpu_rates(effective_prev(prev_cpu, cpu_sample), cpu_sample),
        num_leds,
    );
}

/// A tick whose samples equal the previous ones unit-for-unit emits the
/// idle report: every rate and delta is zero and every triplet byte of the
/// wire buffer is dark.
pub proof fn lemma_unchanged_tick_report_dark(
    cpu_sample: Seq<(u32, u32)>,
    net_sample: Seq<(u64, u64)>,
    disk_sample: Seq<(u64, u64)>,
    num_leds: int,
)
    requires
        0 <= num_leds,
    ensures
        ({
            let report = tick_report(
                cpu_sample,
                net_sample,
                disk_sample,
                cpu_sample,
                net_sample,
                disk_sample,
                num_leds,
            );
            &&& report.len() == 1 + 3 * num_leds
            &&& forall|k: int| 0 <= k < report.len() ==> report[k] == 0u8
        }),
{
    crate::sampler::lemma_identical_sample_rates_zero(cpu_sample);
    crate::sampler::lemma_cpu_rates_wf(cpu_sample, cpu_sample);
    crate::sampler::lemma_identical_sample_delta_zero(net_sample);
    crate::sampler::lemma_identical_sample_delta_zero(disk_sample);
    lemma_idle_activity_report_dark(cpu_rates(cpu_sample, cpu_sample), num_leds);
}

/// Encode one tick's already-sampled activity into the wire buffer.
pub fn render_report(
    cpu: &Vec<NormalizedMetric>,
    disk: (u64, u64),
    net: (u64, u64),
    num_leds: usize,
) -> (r: Vec<u8>)
    requires
        num_leds <= (usize::MAX - 1) / 3,
        forall|i: int| 0 <= i < cpu@.len() ==> (#[trigger] cpu@[i]).wf(),
    ensures
        r@ == report_spec(
            frame_spec(
                channel_bytes(cpu@),
                channel_bytes(disk_channel(disk)),
                channel_bytes(net_channel(net)),
                num_leds as int,
            ),
        ),
        r@.len() == 1 + 3 * num_leds,
        r@[0] == 0u8,
{
    let red = metrics_to_bytes(cpu);

    let mut disk_ms: Vec<NormalizedMetric> = Vec::new();
    disk_ms.push(normalize(disk.0, DISK_READ_CAP));
    disk_ms.push(normalize(disk.1, DISK_WRITTEN_CAP));
    proof {
        assert(disk_ms@ =~= disk_channel(disk));
    }
    let green = metrics_to_bytes(&disk_ms);

    let mut net_ms: Vec<NormalizedMetric> = Vec::new();
    net_ms.push(normalize(net.0, NET_RECV_CAP));
    net_ms.push(normalize(net.1, NET_SENT_CAP));
    proof {
        assert(net_ms@ =~= net_channel(net));
    }
    let blue = metrics_to_bytes(&net_ms);

    let frame = encode_frame(&red, &green, &blue, num_leds);
    build_report(&frame)
}

/// One scheduler iteration's pure part: run all three samplers on the fresh
/// counter samples and encode the result. The wire buffer is a function of
/// the stored previous samples and the fresh ones alone; the samplers end up
/// holding the fresh samples.
pub fn tick(
    cpu: &mut CpuInfo,
    net: &mut NetInfo,
    disk: &mut DiskInfo,
    cpu_sample: Vec<(u32, u32)>,
    net_sample: Vec<(u64, u64)>,
    disk_sample: Vec<(u64, u64)>,
    num_leds: usize,
) -> (r: Vec<u8>)
    requires
        num_leds <= (usize::MAX - 1) / 3,
    ensures
        final(cpu).prev() == cpu_sample@,
        final(net).prev() == net_sample@,
        final(disk).prev() == disk_sample@,
        r@ == tick_report(
            old(cpu).prev(),
            old(net).prev(),
            old(disk).prev(),
            cpu_sample@,
            net_sample@,
            disk_sample@,
            num_leds as int,
        ),
        r@.len() == 1 + 3 * num_leds,
        r@[0] == 0u8,
{
    let rates = cpu.fetch_stats(cpu_sample);
    let net_d = net.fetch_stats(net_sample);
    let disk_d = disk.fetch_stats(disk_sample);
    render_report(&rates, disk_d, net_d, num_leds)
}

} // verus!
