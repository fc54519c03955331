//! Stateful delta computation over cumulative counters.
//!
//! Each sampler holds the previous cumulative sample for one subsystem and,
//! on every tick, turns a freshly fetched sample into per-interval activity:
//! a rate in `[0, 1]` per CPU core, or an aggregated byte delta for network
//! and disk. On the first tick, or whenever the unit count changes, the
//! sampler re-baselines (previous := current), so every emitted delta is
//! zero for that tick.

use vstd::prelude::*;
use crate::metric::NormalizedMetric;

verus! {

/// Non-negative difference of two cumulative counter readings; a decrease
/// (wraparound, which is not modeled) clamps to zero rather than panicking.
pub open spec fn delta(prev: int, cur: int) -> int {
    if cur >= prev {
        cur - prev
    } else {
        0
    }
}

/// The previous sample a tick works against: the stored one when the unit
/// count matches, else the current one (re-baseline).
pub open spec fn effective_prev<T>(prev: Seq<T>, cur: Seq<T>) -> Seq<T> {
    if prev.len() == cur.len() {
        prev
    } else {
        cur
    }
}

/// Rate of one CPU core over one interval: `busy_delta / total_delta`,
/// clamped into `[0, 1]`, and exactly zero when no ticks elapsed.
pub open spec fn unit_rate(prev: (u32, u32), cur: (u32, u32)) -> NormalizedMetric {
    let bd = delta(prev.0 as int, cur.0 as int);
    let td = delta(prev.1 as int, cur.1 as int);
    if td == 0 {
        NormalizedMetric { num: 0u64, den: 1u64 }
    } else {
        NormalizedMetric { num: (if bd <= td { bd } else { td }) as u64, den: td as u64 }
    }
}

/// Per-core rates for a full CPU sample (defined for same-length samples).
pub open spec fn cpu_rates(prev: Seq<(u32, u32)>, cur: Seq<(u32, u32)>) -> Seq<NormalizedMetric>
    recommends
        prev.len() == cur.len(),
{
    Seq::new(cur.len(), |i: int| unit_rate(prev[i], cur[i]))
}

/// A counter-pair sample as mathematical integers.
pub open spec fn pairs64(s: Seq<(u64, u64)>) -> Seq<(int, int)> {
    s.map_values(|p: (u64, u64)| (p.0 as int, p.1 as int))
}

/// Sum of the first-component deltas of the first `n` units.
pub open spec fn sum_fst(prev: Seq<(int, int)>, cur: Seq<(int, int)>, n: int) -> int
    decreases n,
{
    if n <= 0 {
        0
    } else {
        sum_fst(prev, cur, n - 1) + delta(prev[n - 1].0, cur[n - 1].0)
    }
}

/// Sum of the second-component deltas of the first `n` units.
pub open spec fn sum_snd(prev: Seq<(int, int)>, cur: Seq<(int, int)>, n: int) -> int
    decreases n,
{
    if n <= 0 {
        0
    } else {
        sum_snd(prev, cur, n - 1) + delta(prev[n - 1].1, cur[n - 1].1)
    }
}

/// `x` clamped from above to `max` (saturated accumulation).
pub open spec fn capped(x: int, max: int) -> int {
    if x <= max {
        x
    } else {
        max
    }
}

/// The aggregated byte-delta pair a network or disk tick emits: per-unit
/// deltas summed over all units, saturating at the counter maximum.
pub open spec fn agg_delta(prev: Seq<(u64, u64)>, cur: Seq<(u64, u64)>) -> (u64, u64) {
    let p = pairs64(effective_prev(prev, cur));
    let c = pairs64(cur);
    (
        capped(sum_fst(p, c, c.len() as int), u64::MAX as int) as u64,
        capped(sum_snd(p, c, c.len() as int), u64::MAX as int) as u64,
    )
}

/// Delta sums are non-negative.
pub proof fn lemma_sums_nonneg(prev: Seq<(int, int)>, cur: Seq<(int, int)>, n: int)
    ensures
        sum_fst(prev, cur, n) >= 0,
        sum_snd(prev, cur, n) >= 0,
    decreases n,
{
    if n > 0 {
        lemma_sums_nonneg(prev, cur, n - 1);
    }
}

/// A sample identical to the previous one yields zero delta sums.
pub proof fn lemma_identical_sample_sums_zero(s: Seq<(int, int)>, n: int)
    ensures
        sum_fst(s, s, n) == 0,
        sum_snd(s, s, n) == 0,
    decreases n,
{
    if n > 0 {
        lemma_identical_sample_sums_zero(s, n - 1);
    }
}

/// Every CPU rate is a well-formed metric: its value lies in `[0, 1]`.
pub proof fn lemma_cpu_rates_wf(prev: Seq<(u32, u32)>, cur: Seq<(u32, u32)>)
    ensures
        forall|i: int|
            0 <= i < cpu_rates(prev, cur).len() ==> (#[trigger] cpu_rates(prev, cur)[i]).wf(),
{
}

/// A unit whose total counter did not advance has rate exactly zero — the
/// divide-by-zero case is handled, never propagated.
pub proof fn lemma_zero_elapsed_rate_zero(prev: (u32, u32), cur: (u32, u32))
    requires
        delta(prev.1 as int, cur.1 as int) == 0,
    ensures
        unit_rate(prev, cur).is_zero(),
        unit_rate(prev, cur).wf(),
{
}

/// A CPU sample identical to the previous one yields all-zero rates.
pub proof fn lemma_identical_sample_rates_zero(s: Seq<(u32, u32)>)
    ensures
        forall|i: int|
            0 <= i < cpu_rates(s, s).len() ==> (#[trigger] cpu_rates(s, s)[i]).is_zero(),
{
}

/// On a first tick or a topology change the sampler re-baselines, so every
/// CPU rate of that tick is zero, whatever the counters hold.
pub proof fn lemma_first_tick_rates_zero(prev: Seq<(u32, u32)>, cur: Seq<(u32, u32)>)
    requires
        prev.len() != cur.len(),
    ensures
        forall|i: int|
            0 <= i < cpu_rates(effective_prev(prev, cur), cur).len()
                ==> (#[trigger] cpu_rates(effective_prev(prev, cur), cur)[i]).is_zero(),
{
    lemma_identical_sample_rates_zero(cur);
}

/// On a first tick or a topology change the sampler re-baselines, so the
/// aggregated byte deltas of that tick are zero, whatever the counters hold.
pub proof fn lemma_first_tick_delta_zero(prev: Seq<(u64, u64)>, cur: Seq<(u64, u64)>)
    requires
        prev.len() != cur.len(),
    ensures
        agg_delta(prev, cur) == (0u64, 0u64),
{
    lemma_identical_sample_sums_zero(pairs64(cur), pairs64(cur).len() as int);
}

/// A sample identical to the previous one yields a zero aggregated delta.
pub proof fn lemma_identical_sample_delta_zero(s: Seq<(u64, u64)>)
    ensures
        agg_delta(s, s) == (0u64, 0u64),
{
    lemma_identical_sample_sums_zero(pairs64(s), pairs64(s).len() as int);
}

fn delta_u32(prev: u32, cur: u32) -> (r: u32)
    ensures
        r as int == delta(prev as int, cur as int),
{
    if cur >= prev {
        cur - prev
    } else {
        0
    }
}

fn delta_u64(prev: u64, cur: u64) -> (r: u64)
    ensures
        r as int == delta(prev as int, cur as int),
{
    if cur >= prev {
        cur - prev
    } else {
        0
    }
}

fn rate_of_pair(prev: (u32, u32), cur: (u32, u32)) -> (r: NormalizedMetric)
    ensures
        r == unit_rate(prev, cur),
        r.wf(),
{
    let bd: u32 = delta_u32(prev.0, cur.0);
    let td: u32 = delta_u32(prev.1, cur.1);
    if td == 0 {
        NormalizedMetric { num: 0, den: 1 }
    } else {
        let n: u32 = if bd <= td {
            bd
        } else {
            td
        };
        NormalizedMetric { num: n as u64, den: td as u64 }
    }
}

/// Per-core CPU sampler: keeps the previous `(busy, total)` tick counters.
pub struct CpuInfo {
    last_vals: Vec<(u32, u32)>,
}

impl CpuInfo {
    /// The stored previous sample.
    pub closed spec fn prev(self) -> Seq<(u32, u32)> {
        self.last_vals@
    }

    pub fn new() -> (r: CpuInfo)
        ensures
            r.prev() == Seq::<(u32, u32)>::empty(),
    {
        CpuInfo { last_vals: Vec::new() }
    }

    /// One sampling tick: emits the rate of each core over the interval since
    /// the previous sample and stores the new sample. On the first tick, or
    /// when the core count changed, every rate is zero; likewise when the new
    /// sample equals the previous one.
    pub fn fetch_stats(&mut self, vals: Vec<(u32, u32)>) -> (r: Vec<NormalizedMetric>)
        ensures
            final(self).prev() == vals@,
            r@ == cpu_rates(effective_prev(old(self).prev(), vals@), vals@),
            r@.len() == vals@.len(),
            forall|i: int| 0 <= i < r@.len() ==> (#[trigger] r@[i]).wf(),
            old(self).prev().len() != vals@.len()
                ==> forall|i: int| 0 <= i < r@.len() ==> (#[trigger] r@[i]).is_zero(),
            old(self).prev() == vals@
                ==> forall|i: int| 0 <= i < r@.len() ==> (#[trigger] r@[i]).is_zero(),
    {
        let ghost eff = effective_prev(self.last_vals@, vals@);
        let rebase = self.last_vals.len() != vals.len();
        let mut r: Vec<NormalizedMetric> = Vec::new();
        let mut i: usize = 0;
        while i < vals.len()
            invariant
                i <= vals.len(),
                eff == effective_prev(self.last_vals@, vals@),
                rebase == (self.last_vals@.len() != vals@.len()),
                r@.len() == i,
                forall|j: int| 0 <= j < i ==> r@[j] == unit_rate(eff[j], vals@[j]),
            decreases vals.len() - i,
        {
            if rebase {
                r.push(NormalizedMetric { num: 0, den: 1 });
                assert(unit_rate(eff[i as int], vals@[i as int])
                    == (NormalizedMetric { num: 0u64, den: 1u64 }));
            } else {
                let m = rate_of_pair(self.last_vals[i], vals[i]);
                r.push(m);
            }
            i += 1;
        }
        self.last_vals = vals;
        proof {
            assert(r@ =~= cpu_rates(eff, self.last_vals@));
            lemma_identical_sample_rates_zero(self.last_vals@);
        }
        r
    }
}

/// Network sampler: keeps the previous per-interface `(received, sent)` byte
/// counters and aggregates all interfaces into one delta pair per tick.
pub struct NetInfo {
    last_vals: Vec<(u64, u64)>,
}

impl NetInfo {
    /// The stored previous sample.
    pub closed spec fn prev(self) -> Seq<(u64, u64)> {
        self.last_vals@
    }

    pub fn new() -> (r: NetInfo)
        ensures
            r.prev() == Seq::<(u64, u64)>::empty(),
    {
        NetInfo { last_vals: Vec::new() }
    }

    /// One sampling tick: emits the `(received, sent)` byte deltas since the
    /// previous sample, summed over all interfaces (saturating at the counter
    /// maximum), and stores the new sample. First tick, topology change, or
    /// an unchanged sample all yield `(0, 0)`.
    pub fn fetch_stats(&mut self, vals: Vec<(u64, u64)>) -> (r: (u64, u64))
        ensures
            final(self).prev() == vals@,
            r == agg_delta(old(self).prev(), vals@),
            old(self).prev().len() != vals@.len() ==> r == (0u64, 0u64),
            old(self).prev() == vals@ ==> r == (0u64, 0u64),
    {
        let ghost p = pairs64(effective_prev(self.last_vals@, vals@));
        let ghost c = pairs64(vals@);
        let rebase = self.last_vals.len() != vals.len();
        let mut recv: u64 = 0;
        let mut sent: u64 = 0;
        if !rebase {
            let mut i: usize = 0;
            while i < vals.len()
                invariant
                    i <= vals.len(),
                    self.last_vals@.len() == vals@.len(),
                    p == pairs64(self.last_vals@),
                    c == pairs64(vals@),
                    recv as int == capped(sum_fst(p, c, i as int), u64::MAX as int),
                    sent as int == capped(sum_snd(p, c, i as int), u64::MAX as int),
                decreases vals.len() - i,
            {
                let d0: u64 = delta_u64(self.last_vals[i].0, vals[i].0);
                let d1: u64 = delta_u64(self.last_vals[i].1, vals[i].1);
                recv = if recv <= u64::MAX - d0 {
                    recv + d0
                } else {
                    u64::MAX
                };
                sent = if sent <= u64::MAX - d1 {
                    sent + d1
                } else {
                    u64::MAX
                };
                proof {
                    lemma_sums_nonneg(p, c, i as int);
                }
                i += 1;
            }
        } else {
            proof {
                lemma_identical_sample_sums_zero(c, c.len() as int);
            }
        }
        self.last_vals = vals;
        proof {
            lemma_sums_nonneg(p, c, c.len() as int);
            if old(self).prev() == self.last_vals@ {
                lemma_identical_sample_sums_zero(c, c.len() as int);
            }
        }
        (recv, sent)
    }
}

/// Disk sampler: keeps the previous per-device `(read, written)` byte
/// counters and aggregates all devices into one delta pair per tick.
pub struct DiskInfo {
    last_vals: Vec<(u64, u64)>,
}

impl DiskInfo {
    /// The stored previous sample.
    pub closed spec fn prev(self) -> Seq<(u64, u64)> {
        self.last_vals@
    }

    pub fn new() -> (r: DiskInfo)
        ensures
            r.prev() == Seq::<(u64, u64)>::empty(),
    {
        DiskInfo { last_vals: Vec::new() }
    }

    /// One sampling tick: emits the `(read, written)` byte deltas since the
    /// previous sample, summed over all devices (saturating at the counter
    /// maximum), and stores the new sample. First tick, topology change, or
    /// an unchanged sample all yield `(0, 0)`.
    pub fn fetch_stats(&mut self, vals: Vec<(u64, u64)>) -> (r: (u64, u64))
        ensures
            final(self).prev() == vals@,
            r == agg_delta(old(self).prev(), vals@),
            old(self).prev().len() != vals@.len() ==> r == (0u64, 0u64),
            old(self).prev() == vals@ ==> r == (0u64, 0u64),
    {
        let ghost p = pairs64(effective_prev(self.last_vals@, vals@));
        let ghost c = pairs64(vals@);
        let rebase = self.last_vals.len() != vals.len();
        let mut read: u64 = 0;
        let mut written: u64 = 0;
        if !rebase {
            let mut i: usize = 0;
            while i < vals.len()
                invariant
                    i <= vals.len(),
                    self.last_vals@.len() == vals@.len(),
                    p == pairs64(self.last_vals@),
                    c == pairs64(vals@),
                    read as int == capped(sum_fst(p, c, i as int), u64::MAX as int),
                    written as int == capped(sum_snd(p, c, i as int), u64::MAX as int),
                decreases vals.len() - i,
            {
                let d0: u64 = delta_u64(self.last_vals[i].0, vals[i].0);
                let d1: u64 = delta_u64(self.last_vals[i].1, vals[i].1);
                read = if read <= u64::MAX - d0 {
                    read + d0
                } else {
                    u64::MAX
                };
                written = if written <= u64::MAX - d1 {
                    written + d1
                } else {
                    u64::MAX
                };
                proof {
                    lemma_sums_nonneg(p, c, i as int);
                }
                i += 1;
            }
        } else {
            proof {
                lemma_identical_sample_sums_zero(c, c.len() as int);
            }
        }
        self.last_vals = vals;
        proof {
            lemma_sums_nonneg(p, c, c.len() as int);
            if old(self).prev() == self.last_vals@ {
                lemma_identical_sample_sums_zero(c, c.len() as int);
            }
        }
        (read, written)
    }
}

} // verus!
