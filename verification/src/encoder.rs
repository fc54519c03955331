//! LED frame encoding and HID report building.
//!
//! A channel (red, green or blue) carries one brightness byte per metric.
//! The LEDs are apportioned by integer division: with `m` metrics each metric
//! covers `num_leds / m` consecutive LEDs; remainder LEDs at the tail, and
//! every LED of a channel with no metrics, stay dark (byte `0`). The three
//! channels are interleaved into RGB triplets, and the wire report prefixes
//! one report-id byte of value `0`.

use vstd::prelude::*;
use crate::metric::NormalizedMetric;

verus! {

/// Byte shown at LED position `i` by a channel whose metrics' brightness
/// bytes are `bytes`: each metric covers a share of `num_leds / len` LEDs,
/// uncovered positions stay `0`.
pub open spec fn channel_byte(bytes: Seq<u8>, num_leds: int, i: int) -> u8
    recommends
        0 <= i < num_leds,
{
    let m = bytes.len() as int;
    if m == 0 {
        0u8
    } else {
        let share = num_leds / m;
        if share == 0 {
            0u8
        } else if i < share * m {
            bytes[i / share]
        } else {
            0u8
        }
    }
}

/// One channel expanded over every LED position.
pub open spec fn expand_spec(bytes: Seq<u8>, num_leds: int) -> Seq<u8>
    recommends
        0 <= num_leds,
{
    Seq::new(num_leds as nat, |i: int| channel_byte(bytes, num_leds, i))
}

/// The interleaved RGB byte stream of one frame: position `3 * i + c` holds
/// channel `c`'s byte for LED `i`.
pub open spec fn frame_spec(red: Seq<u8>, green: Seq<u8>, blue: Seq<u8>, num_leds: int) -> Seq<u8>
    recommends
        0 <= num_leds,
{
    Seq::new((3 * num_leds) as nat, |k: int| {
        let i = k / 3;
        if k % 3 == 0 {
            channel_byte(red, num_leds, i)
        } else if k % 3 == 1 {
            channel_byte(green, num_leds, i)
        } else {
            channel_byte(blue, num_leds, i)
        }
    })
}

/// The wire buffer: one report-id byte of value `0`, then the frame bytes.
pub open spec fn report_spec(frame: Seq<u8>) -> Seq<u8> {
    seq![0u8] + frame
}

/// Brightness bytes of a sequence of normalized metrics.
pub open spec fn channel_bytes(ms: Seq<NormalizedMetric>) -> Seq<u8> {
    ms.map_values(|m: NormalizedMetric| m.byte())
}

/// A channel whose brightness bytes are all zero shows zero at every LED
/// position.
pub proof fn lemma_dark_channel(bytes: Seq<u8>, num_leds: int, i: int)
    requires
        0 <= i,
        forall|j: int| 0 <= j < bytes.len() ==> bytes[j] == 0u8,
    ensures
        channel_byte(bytes, num_leds, i) == 0u8,
{
    let m = bytes.len() as int;
    if m > 0 {
        let share = num_leds / m;
        if share > 0 && i < share * m {
            vstd::arithmetic::div_mod::lemma_multiply_divide_lt(i, share, m);
            vstd::arithmetic::div_mod::lemma_div_pos_is_pos(i, share);
        } else if share < 0 {
            assert(share * m < 0) by (nonlinear_arith)
                requires
                    share < 0,
                    m > 0,
            ;
        }
    }
}

/// The encoder is a function of its inputs alone: identical normalized
/// inputs and LED count give bit-identical frames on every invocation.
pub proof fn lemma_encoder_deterministic(
    out1: Seq<u8>,
    out2: Seq<u8>,
    red: Seq<u8>,
    green: Seq<u8>,
    blue: Seq<u8>,
    num_leds: int,
)
    requires
        out1 == frame_spec(red, green, blue, num_leds),
        out2 == frame_spec(red, green, blue, num_leds),
    ensures
        out1 == out2,
{
}

/// A fixed-length RGB frame: `3 * num_leds` interleaved channel bytes.
pub struct LedFrame {
    pub bytes: Vec<u8>,
}

impl LedFrame {
    /// The frame covers exactly `num_leds` RGB triplets.
    pub open spec fn wf(self, num_leds: int) -> bool {
        self.bytes@.len() == 3 * num_leds
    }
}

/// Convert a channel's metrics to their brightness bytes.
pub fn metrics_to_bytes(ms: &Vec<NormalizedMetric>) -> (r: Vec<u8>)
    requires
        forall|i: int| 0 <= i < ms@.len() ==> (#[trigger] ms@[i]).wf(),
    ensures
        r@ == channel_bytes(ms@),
{
    let mut r: Vec<u8> = Vec::new();
    let mut i: usize = 0;
    while i < ms.len()
        invariant
            i <= ms@.len(),
            forall|j: int| 0 <= j < ms@.len() ==> (#[trigger] ms@[j]).wf(),
            r@.len() == i,
            forall|j: int| 0 <= j < i ==> r@[j] == ms@[j].byte(),
        decreases ms@.len() - i,
    {
        let b = ms[i].to_byte();
        r.push(b);
        i += 1;
    }
    proof {
        assert(r@ =~= channel_bytes(ms@));
    }
    r
}

/// Expand one channel's brightness bytes over every LED position.
pub fn expand_channel(bytes: &Vec<u8>, num_leds: usize) -> (r: Vec<u8>)
    ensures
        r@ == expand_spec(bytes@, num_leds as int),
        r@.len() == num_leds,
{
    let m = bytes.len();
    let share: usize = if m == 0 {
        0
    } else {
        num_leds / m
    };
    proof {
        if m > 0 {
            vstd::arithmetic::div_mod::lemma_fundamental_div_mod(num_leds as int, m as int);
            vstd::arithmetic::div_mod::lemma_mod_division_less_than_divisor(
                num_leds as int,
                m as int,
            );
        }
    }
    let covered: usize = share * m;
    let mut r: Vec<u8> = Vec::new();
    let mut i: usize = 0;
    while i < num_leds
        invariant
            i <= num_leds,
            m == bytes@.len(),
            share as int == (if m == 0 { 0int } else { num_leds as int / m as int }),
            covered == share * m,
            covered <= num_leds,
            r@.len() == i,
            forall|j: int| 0 <= j < i
                ==> r@[j] == channel_byte(bytes@, num_leds as int, j),
        decreases num_leds - i,
    {
        if share > 0 && i < covered {
            proof {
                vstd::arithmetic::div_mod::lemma_multiply_divide_lt(
                    i as int,
                    share as int,
                    m as int,
                );
                vstd::arithmetic::div_mod::lemma_div_pos_is_pos(i as int, share as int);
            }
            let b = bytes[i / share];
            r.push(b);
        } else {
            r.push(0u8);
        }
        i += 1;
    }
    proof {
        assert(r@ =~= expand_spec(bytes@, num_leds as int));
    }
    r
}

/// Interleave the three channels into one RGB frame of `num_leds` triplets.
pub fn encode_frame(
    red: &Vec<u8>,
    green: &Vec<u8>,
    blue: &Vec<u8>,
    num_leds: usize,
) -> (r: LedFrame)
    requires
        num_leds <= (usize::MAX - 1) / 3,
    ensures
        r.bytes@ == frame_spec(red@, green@, blue@, num_leds as int),
        r.wf(num_leds as int),
{
    let red_e = expand_channel(red, num_leds);
    let green_e = expand_channel(green, num_leds);
    let blue_e = expand_channel(blue, num_leds);
    let mut bytes: Vec<u8> = Vec::new();
    let mut i: usize = 0;
    while i < num_leds
        invariant
            i <= num_leds,
            num_leds <= (usize::MAX - 1) / 3,
            red_e@ == expand_spec(red@, num_leds as int),
            green_e@ == expand_spec(green@, num_leds as int),
            blue_e@ == expand_spec(blue@, num_leds as int),
            red_e@.len() == num_leds,
            green_e@.len() == num_leds,
            blue_e@.len() == num_leds,
            bytes@.len() == 3 * i,
            forall|k: int| 0 <= k < 3 * i
                ==> bytes@[k] == frame_spec(red@, green@, blue@, num_leds as int)[k],
        decreases num_leds - i,
    {
        bytes.push(red_e[i]);
        bytes.push(green_e[i]);
        bytes.push(blue_e[i]);
        proof {
            vstd::arithmetic::div_mod::lemma_fundamental_div_mod_converse(
                3 * i as int,
                3,
                i as int,
                0,
            );
            vstd::arithmetic::div_mod::lemma_fundamental_div_mod_converse(
                3 * i as int + 1,
                3,
                i as int,
                1,
            );
            vstd::arithmetic::div_mod::lemma_fundamental_div_mod_converse(
                3 * i as int + 2,
                3,
                i as int,
                2,
            );
        }
        i += 1;
    }
    proof {
        assert(bytes@ =~= frame_spec(red@, green@, blue@, num_leds as int));
    }
    LedFrame { bytes }
}

/// Prefix the report-id byte: the wire buffer is one `0` byte followed by the
/// frame, so its length is always `1 + 3 * num_leds` and its first byte `0`.
pub fn build_report(frame: &LedFrame) -> (r: Vec<u8>)
    requires
        frame.bytes@.len() < usize::MAX,
    ensures
        r@ == report_spec(frame.bytes@),
        r@.len() == 1 + frame.bytes@.len(),
        r@[0] == 0u8,
{
    let mut r: Vec<u8> = Vec::new();
    r.push(0u8);
    let mut i: usize = 0;
    while i < frame.bytes.len()
        invariant
            i <= frame.bytes@.len(),
            frame.bytes@.len() < usize::MAX,
            r@.len() == 1 + i,
            r@[0] == 0u8,
            forall|j: int| 0 <= j < i ==> r@[j + 1] == frame.bytes@[j],
        decreases frame.bytes@.len() - i,
    {
        let b = frame.bytes[i];
        r.push(b);
        i += 1;
    }
    proof {
        assert(r@ =~= report_spec(frame.bytes@));
    }
    r
}

} // verus!
