//! Parsing of kernel counter-file lines into typed counter pairs.
//!
//! The counter files are text: one record per line, fields separated by
//! blanks (and, for network interfaces, a colon after the interface name).
//! Parsing is total: a line that does not belong to a watched unit is
//! skipped, and a line that should parse but does not — including a value
//! that would overflow its counter width — is reported as malformed, which
//! the caller treats as a fatal acquisition failure.

use vstd::prelude::*;

verus! {

/// Field separator: ASCII space or tab.
pub open spec fn is_blank(b: u8) -> bool {
    b == 32 || b == 9
}

/// ASCII decimal digit.
pub open spec fn is_digit(b: u8) -> bool {
    48 <= b && b <= 57
}

/// The blank-separated fields of `s`, with `cur` the partial field read so
/// far: a blank ends the current field, and a field is emitted only when
/// non-empty.
pub open spec fn fields_from(s: Seq<u8>, cur: Seq<u8>) -> Seq<Seq<u8>>
    decreases s.len(),
{
    if s.len() == 0 {
        if cur.len() == 0 {
            Seq::empty()
        } else {
            seq![cur]
        }
    } else if is_blank(s[0]) {
        if cur.len() == 0 {
            fields_from(s.skip(1), Seq::empty())
        } else {
            seq![cur] + fields_from(s.skip(1), Seq::empty())
        }
    } else {
        fields_from(s.skip(1), cur.push(s[0]))
    }
}

/// The blank-separated fields of a line.
pub open spec fn fields_of(s: Seq<u8>) -> Seq<Seq<u8>> {
    fields_from(s, Seq::empty())
}

/// The segments of `s` around separator byte `b`, with `cur` the partial
/// segment read so far; empty segments are kept, and there is always at
/// least one segment.
pub open spec fn segments_from(s: Seq<u8>, b: u8, cur: Seq<u8>) -> Seq<Seq<u8>>
    decreases s.len(),
{
    if s.len() == 0 {
        seq![cur]
    } else if s[0] == b {
        seq![cur] + segments_from(s.skip(1), b, Seq::empty())
    } else {
        segments_from(s.skip(1), b, cur.push(s[0]))
    }
}

/// The segments of `s` around separator byte `b`.
pub open spec fn segments_of(s: Seq<u8>, b: u8) -> Seq<Seq<u8>> {
    segments_from(s, b, Seq::empty())
}

/// The lines of a text, with `cur` the partial line read so far: a newline
/// always ends a line (so a blank line counts), while text after the last
/// newline forms a final line only when non-empty.
pub open spec fn lines_from(s: Seq<u8>, cur: Seq<u8>) -> Seq<Seq<u8>>
    decreases s.len(),
{
    if s.len() == 0 {
        if cur.len() == 0 {
            Seq::empty()
        } else {
            seq![cur]
        }
    } else if s[0] == 10 {
        seq![cur] + lines_from(s.skip(1), Seq::empty())
    } else {
        lines_from(s.skip(1), cur.push(s[0]))
    }
}

/// The lines of a text.
pub open spec fn lines_of(s: Seq<u8>) -> Seq<Seq<u8>> {
    lines_from(s, Seq::empty())
}

/// `s` without leading blanks.
pub open spec fn trim_front(s: Seq<u8>) -> Seq<u8>
    decreases s.len(),
{
    if s.len() > 0 && is_blank(s[0]) {
        trim_front(s.skip(1))
    } else {
        s
    }
}

/// `s` without trailing blanks.
pub open spec fn trim_back(s: Seq<u8>) -> Seq<u8>
    decreases s.len(),
{
    if s.len() > 0 && is_blank(s.last()) {
        trim_back(s.drop_last())
    } else {
        s
    }
}

/// `s` without leading and trailing blanks.
pub open spec fn trimmed(s: Seq<u8>) -> Seq<u8> {
    trim_back(trim_front(s))
}

/// Value of a digit string read as a decimal number.
pub open spec fn digits_val(t: Seq<u8>) -> int
    decreases t.len(),
{
    if t.len() == 0 {
        0
    } else {
        10 * digits_val(t.drop_last()) + (t.last() - 48)
    }
}

/// Every byte of `t` is a decimal digit.
pub open spec fn all_digits(t: Seq<u8>) -> bool {
    forall|i: int| 0 <= i < t.len() ==> is_digit(#[trigger] t[i])
}

/// `t` parses as an unsigned decimal number no greater than `max`.
pub open spec fn is_number(t: Seq<u8>, max: int) -> bool {
    t.len() > 0 && all_digits(t) && digits_val(t) <= max
}

/// The value of a digit string is non-negative.
pub proof fn lemma_digits_val_nonneg(t: Seq<u8>)
    requires
        all_digits(t),
    ensures
        digits_val(t) >= 0,
    decreases t.len(),
{
    if t.len() > 0 {
        assert(all_digits(t.drop_last())) by {
            assert(forall|i: int| 0 <= i < t.len() - 1 ==> t.drop_last()[i] == t[i]);
        }
        lemma_digits_val_nonneg(t.drop_last());
    }
}

/// Reading further digits never decreases the value.
pub proof fn lemma_digits_val_monotone(t: Seq<u8>, k: int)
    requires
        all_digits(t),
        0 <= k <= t.len(),
    ensures
        digits_val(t.take(k)) <= digits_val(t),
    decreases t.len(),
{
    if k < t.len() {
        assert(all_digits(t.drop_last())) by {
            assert(forall|i: int| 0 <= i < t.len() - 1 ==> t.drop_last()[i] == t[i]);
        }
        assert(t.drop_last().take(k) =~= t.take(k));
        lemma_digits_val_monotone(t.drop_last(), k);
        lemma_digits_val_nonneg(t.drop_last());
        assert(is_digit(t.last()));
    } else {
        assert(t.take(k) =~= t);
    }
}

fn byte_is_blank(b: u8) -> (r: bool)
    ensures
        r == is_blank(b),
{
    b == 32u8 || b == 9u8
}

/// The views of a vector of byte vectors.
pub open spec fn views_of(ts: Seq<Vec<u8>>) -> Seq<Seq<u8>> {
    ts.map_values(|t: Vec<u8>| t@)
}

/// Split a line into its blank-separated fields.
pub fn split_fields(line: &Vec<u8>) -> (r: Vec<Vec<u8>>)
    ensures
        views_of(r@) == fields_of(line@),
{
    let mut r: Vec<Vec<u8>> = Vec::new();
    let mut cur: Vec<u8> = Vec::new();
    let mut i: usize = 0;
    proof {
        assert(line@.skip(0) =~= line@);
        assert(views_of(r@) =~= Seq::<Seq<u8>>::empty());
        assert(Seq::<Seq<u8>>::empty() + fields_from(line@, cur@) =~= fields_from(line@, cur@));
    }
    while i < line.len()
        invariant
            i <= line.len(),
            fields_of(line@) == views_of(r@) + fields_from(line@.skip(i as int), cur@),
        decreases line.len() - i,
    {
        proof {
            assert(line@.skip(i as int).skip(1) =~= line@.skip(i as int + 1));
            assert(line@.skip(i as int)[0] == line@[i as int]);
        }
        let b = line[i];
        if byte_is_blank(b) {
            proof {
                if cur@.len() == 0 {
                    assert(cur@ =~= Seq::<u8>::empty());
                }
            }
            if cur.len() > 0 {
                let done = cur;
                cur = Vec::new();
                r.push(done);
                proof {
                    assert(views_of(r@) =~= views_of(r@.drop_last()) + seq![done@]);
                    assert((views_of(r@.drop_last()) + seq![done@])
                        + fields_from(line@.skip(i as int + 1), Seq::empty())
                        =~= views_of(r@.drop_last())
                        + (seq![done@] + fields_from(line@.skip(i as int + 1), Seq::empty())));
                }
            }
        } else {
            cur.push(b);
        }
        i += 1;
    }
    proof {
        assert(line@.skip(line@.len() as int) =~= Seq::<u8>::empty());
    }
    if cur.len() > 0 {
        let done = cur;
        r.push(done);
        proof {
            assert(views_of(r@) =~= views_of(r@.drop_last()) + seq![done@]);
        }
    }
    proof {
        assert(views_of(r@) =~= fields_of(line@));
    }
    r
}

/// Split a line into its segments around byte `b`.
pub fn split_segments(line: &Vec<u8>, b: u8) -> (r: Vec<Vec<u8>>)
    ensures
        views_of(r@) == segments_of(line@, b),
        r@.len() >= 1,
{
    let mut r: Vec<Vec<u8>> = Vec::new();
    let mut cur: Vec<u8> = Vec::new();
    let mut i: usize = 0;
    proof {
        assert(line@.skip(0) =~= line@);
        assert(views_of(r@) =~= Seq::<Seq<u8>>::empty());
        assert(Seq::<Seq<u8>>::empty() + segments_from(line@, b, cur@)
            =~= segments_from(line@, b, cur@));
    }
    while i < line.len()
        invariant
            i <= line.len(),
            segments_of(line@, b) == views_of(r@) + segments_from(line@.skip(i as int), b, cur@),
        decreases line.len() - i,
    {
        proof {
            assert(line@.skip(i as int).skip(1) =~= line@.skip(i as int + 1));
            assert(line@.skip(i as int)[0] == line@[i as int]);
        }
        let c = line[i];
        if c == b {
            let done = cur;
            cur = Vec::new();
            r.push(done);
            proof {
                assert(views_of(r@) =~= views_of(r@.drop_last()) + seq![done@]);
                assert((views_of(r@.drop_last()) + seq![done@])
                    + segments_from(line@.skip(i as int + 1), b, Seq::empty())
                    =~= views_of(r@.drop_last())
                    + (seq![done@] + segments_from(line@.skip(i as int + 1), b, Seq::empty())));
            }
        } else {
            cur.push(c);
        }
        i += 1;
    }
    proof {
        assert(line@.skip(line@.len() as int) =~= Seq::<u8>::empty());
    }
    let done = cur;
    r.push(done);
    proof {
        assert(views_of(r@) =~= views_of(r@.drop_last()) + seq![done@]);
        assert(views_of(r@) =~= segments_of(line@, b));
    }
    r
}

/// Split a text into its lines.
pub fn split_lines(content: &Vec<u8>) -> (r: Vec<Vec<u8>>)
    ensures
        views_of(r@) == lines_of(content@),
{
    let mut r: Vec<Vec<u8>> = Vec::new();
    let mut cur: Vec<u8> = Vec::new();
    let mut i: usize = 0;
    proof {
        assert(content@.skip(0) =~= content@);
        assert(views_of(r@) =~= Seq::<Seq<u8>>::empty());
        assert(Seq::<Seq<u8>>::empty() + lines_from(content@, cur@)
            =~= lines_from(content@, cur@));
    }
    while i < content.len()
        invariant
            i <= content.len(),
            lines_of(content@) == views_of(r@) + lines_from(content@.skip(i as int), cur@),
        decreases content.len() - i,
    {
        proof {
            assert(content@.skip(i as int).skip(1) =~= content@.skip(i as int + 1));
            assert(content@.skip(i as int)[0] == content@[i as int]);
        }
        let c = content[i];
        if c == 10u8 {
            let done = cur;
            cur = Vec::new();
            r.push(done);
            proof {
                assert(views_of(r@) =~= views_of(r@.drop_last()) + seq![done@]);
                assert((views_of(r@.drop_last()) + seq![done@])
                    + lines_from(content@.skip(i as int + 1), Seq::empty())
                    =~= views_of(r@.drop_last())
                    + (seq![done@] + lines_from(content@.skip(i as int + 1), Seq::empty())));
            }
        } else {
            cur.push(c);
        }
        i += 1;
    }
    proof {
        assert(content@.skip(content@.len() as int) =~= Seq::<u8>::empty());
    }
    if cur.len() > 0 {
        let done = cur;
        r.push(done);
        proof {
            assert(views_of(r@) =~= views_of(r@.drop_last()) + seq![done@]);
        }
    }
    proof {
        assert(views_of(r@) =~= lines_of(content@));
    }
    r
}

/// Parse a field as a decimal `u64`; `None` when the field is empty, holds a
/// non-digit, or overflows.
pub fn field_u64(t: &Vec<u8>) -> (r: Option<u64>)
    ensures
        match r {
            Some(v) => is_number(t@, u64::MAX as int) && v as int == digits_val(t@),
            None => !is_number(t@, u64::MAX as int),
        },
{
    if t.len() == 0 {
        return None;
    }
    let mut acc: u64 = 0;
    let mut k: usize = 0;
    while k < t.len()
        invariant
            k <= t.len(),
            all_digits(t@.take(k as int)),
            acc as int == digits_val(t@.take(k as int)),
        decreases t.len() - k,
    {
        let b = t[k];
        if b < 48u8 || b > 57u8 {
            assert(!all_digits(t@));
            return None;
        }
        let d: u64 = (b - 48) as u64;
        let wide: u128 = (acc as u128) * 10 + (d as u128);
        proof {
            assert(t@.take(k as int + 1).drop_last() =~= t@.take(k as int));
            assert(t@.take(k as int + 1).last() == t@[k as int]);
        }
        if wide > u64::MAX as u128 {
            proof {
                if all_digits(t@) {
                    lemma_digits_val_monotone(t@, k as int + 1);
                }
            }
            return None;
        }
        acc = wide as u64;
        k += 1;
    }
    proof {
        assert(t@.take(t@.len() as int) =~= t@);
    }
    Some(acc)
}

/// Leading blanks up to `a` determine the front trim.
pub proof fn lemma_trim_front_at(s: Seq<u8>, a: int)
    requires
        0 <= a <= s.len(),
        forall|k: int| 0 <= k < a ==> is_blank(#[trigger] s[k]),
        a < s.len() ==> !is_blank(s[a]),
    ensures
        trim_front(s) == s.skip(a),
    decreases a,
{
    if a == 0 {
        assert(s.skip(0) =~= s);
    } else {
        lemma_trim_front_at(s.skip(1), a - 1);
        assert(s.skip(1).skip(a - 1) =~= s.skip(a));
    }
}

/// Trailing blanks from `b` on determine the back trim.
pub proof fn lemma_trim_back_at(s: Seq<u8>, b: int)
    requires
        0 <= b <= s.len(),
        forall|k: int| b <= k < s.len() ==> is_blank(#[trigger] s[k]),
        b > 0 ==> !is_blank(s[b - 1]),
    ensures
        trim_back(s) == s.take(b),
    decreases s.len(),
{
    if b == s.len() {
        assert(s.take(b) =~= s);
    } else {
        assert(is_blank(s.last()));
        lemma_trim_back_at(s.drop_last(), b);
        assert(s.drop_last().take(b) =~= s.take(b));
    }
}

/// Outcome of parsing one counter-file line: the line belongs to no watched
/// unit, or parsed into a counter pair, or should have parsed but did not.
#[derive(Clone, Copy, Debug, PartialEq, Eq)]
pub enum LineResult<T> {
    Skip,
    Parsed(T),
    Malformed,
}

/// A per-core CPU record: the line names one core ("cpu" followed by
/// anything but a blank), as opposed to the aggregate line or another row.
pub open spec fn is_core_line(s: Seq<u8>) -> bool {
    s.len() >= 3 && s[0] == 99 && s[1] == 112 && s[2] == 117 && !(s.len() >= 4 && s[3] == 32)
}

/// The values of the fields that parse as decimal numbers at most `max`,
/// in order; other fields are passed over.
pub open spec fn numbers_of(ts: Seq<Seq<u8>>, max: int) -> Seq<int>
    decreases ts.len(),
{
    if ts.len() == 0 {
        Seq::empty()
    } else if is_number(ts[0], max) {
        seq![digits_val(ts[0])] + numbers_of(ts.skip(1), max)
    } else {
        numbers_of(ts.skip(1), max)
    }
}

/// Sum of the first `n` values.
pub open spec fn sum_prefix(ns: Seq<int>, n: int) -> int
    decreases n,
{
    if n <= 0 {
        0
    } else {
        sum_prefix(ns, n - 1) + ns[n - 1]
    }
}

/// The `(busy, total)` tick counters of one CPU statistics line: the first
/// eight numeric fields are the per-category tick counts, of which fields
/// three and four (idle and I/O wait) count as idle; `busy` is their
/// difference from the total. A core line with fewer than eight numeric
/// fields, or whose total overflows the counter width, is malformed.
pub open spec fn core_counters(s: Seq<u8>) -> LineResult<(u32, u32)> {
    if !is_core_line(s) {
        LineResult::Skip
    } else {
        let ns = numbers_of(fields_of(s), u32::MAX as int);
        if ns.len() < 8 {
            LineResult::Malformed
        } else {
            let total = sum_prefix(ns, 8);
            let idle = ns[3] + ns[4];
            if total > u32::MAX {
                LineResult::Malformed
            } else {
                LineResult::Parsed(((total - idle) as u32, total as u32))
            }
        }
    }
}

/// Parse one CPU statistics line.
pub fn parse_cpu_line(line: &Vec<u8>) -> (r: LineResult<(u32, u32)>)
    ensures
        r == core_counters(line@),
{
    let is_core = line.len() >= 3 && line[0] == 99 && line[1] == 112 && line[2] == 117
        && !(line.len() >= 4 && line[3] == 32);
    if !is_core {
        return LineResult::Skip;
    }
    let toks = split_fields(line);
    let ghost ts = views_of(toks@);
    let ghost ns = numbers_of(ts, u32::MAX as int);
    let mut nums: Vec<u32> = Vec::new();
    let mut k: usize = 0;
    proof {
        assert(ts.skip(0) =~= ts);
        assert(nums@.map_values(|v: u32| v as int) =~= Seq::<int>::empty());
        assert(Seq::<int>::empty() + ns =~= ns);
    }
    while k < toks.len()
        invariant
            k <= ts.len(),
            ts == views_of(toks@),
            ns == numbers_of(ts, u32::MAX as int),
            ns == nums@.map_values(|v: u32| v as int)
                + numbers_of(ts.skip(k as int), u32::MAX as int),
        decreases ts.len() - k,
    {
        proof {
            assert(ts.skip(k as int).skip(1) =~= ts.skip(k as int + 1));
            assert(ts.skip(k as int)[0] == ts[k as int]);
        }
        let parsed = field_u64(&toks[k]);
        match parsed {
            Some(v) => {
                if v <= 0xFFFF_FFFFu64 {
                    nums.push(v as u32);
                    proof {
                        let f = |v: u32| v as int;
                        assert(nums@.map_values(f)
                            =~= nums@.drop_last().map_values(f) + seq![v as int]);
                        assert((nums@.drop_last().map_values(f) + seq![v as int])
                            + numbers_of(ts.skip(k as int + 1), u32::MAX as int)
                            =~= nums@.drop_last().map_values(f)
                            + (seq![v as int] + numbers_of(ts.skip(k as int + 1), u32::MAX as int)));
                    }
                } else {
                    proof {
                        assert(!is_number(ts[k as int], u32::MAX as int));
                    }
                }
            },
            None => {
                proof {
                    if is_number(ts[k as int], u32::MAX as int) {
                        assert(is_number(ts[k as int], u64::MAX as int));
                    }
                }
            },
        }
        k += 1;
    }
    proof {
        assert(ts.skip(ts.len() as int) =~= Seq::<Seq<u8>>::empty());
        assert(nums@.map_values(|v: u32| v as int) + Seq::<int>::empty()
            =~= nums@.map_values(|v: u32| v as int));
    }
    if nums.len() < 8 {
        return LineResult::Malformed;
    }
    let mut total: u64 = 0;
    let mut j: usize = 0;
    while j < 8
        invariant
            j <= 8,
            nums@.len() >= 8,
            ns == nums@.map_values(|v: u32| v as int),
            total as int == sum_prefix(ns, j as int),
            total <= (j as u64) * 0xFFFF_FFFFu64,
        decreases 8 - j,
    {
        total = total + nums[j] as u64;
        j += 1;
    }
    if total > 0xFFFF_FFFFu64 {
        return LineResult::Malformed;
    }
    let idle: u64 = nums[3] as u64 + nums[4] as u64;
    proof {
        reveal_with_fuel(sum_prefix, 9);
        assert(idle as int <= sum_prefix(ns, 8));
    }
    let busy: u64 = total - idle;
    LineResult::Parsed((busy as u32, total as u32))
}

/// An interface the indicator watches: wired ("en…") or wireless ("wl…").
pub open spec fn is_watched_name(n: Seq<u8>) -> bool {
    n.len() >= 2 && ((n[0] == 101 && n[1] == 110) || (n[0] == 119 && n[1] == 108))
}

/// The `(received, sent)` byte counters of one network statistics line.
/// The interface name stands before a colon; for a watched interface the
/// received bytes are the first field after the colon and the sent bytes
/// the ninth. A watched line without its colon or its fields is malformed.
pub open spec fn net_counters(s: Seq<u8>) -> LineResult<(u64, u64)> {
    let segs = segments_of(s, 58);
    let name = trimmed(segs[0]);
    if !is_watched_name(name) {
        LineResult::Skip
    } else if segs.len() < 2 {
        LineResult::Malformed
    } else {
        let fs = fields_of(segs[1]);
        if fs.len() < 9 {
            LineResult::Malformed
        } else if !is_number(fs[0], u64::MAX as int) {
            LineResult::Malformed
        } else if !is_number(fs[8], u64::MAX as int) {
            LineResult::Malformed
        } else {
            LineResult::Parsed((digits_val(fs[0]) as u64, digits_val(fs[8]) as u64))
        }
    }
}

/// Parse one network statistics line.
pub fn parse_net_line(line: &Vec<u8>) -> (r: LineResult<(u64, u64)>)
    ensures
        r == net_counters(line@),
{
    let segs = split_segments(line, 58);
    let ghost segv = segments_of(line@, 58);
    let seg0 = &segs[0];
    let mut a: usize = 0;
    while a < seg0.len() && (seg0[a] == 32 || seg0[a] == 9)
        invariant
            a <= seg0@.len(),
            forall|k: int| 0 <= k < a ==> is_blank(#[trigger] seg0@[k]),
        decreases seg0@.len() - a,
    {
        a += 1;
    }
    let mut b: usize = seg0.len();
    while b > a && (seg0[b - 1] == 32 || seg0[b - 1] == 9)
        invariant
            a <= b <= seg0@.len(),
            forall|k: int| b <= k < seg0@.len() ==> is_blank(#[trigger] seg0@[k]),
        decreases b,
    {
        b -= 1;
    }
    proof {
        lemma_trim_front_at(seg0@, a as int);
        lemma_trim_back_at(seg0@.skip(a as int), b as int - a as int);
        assert(trimmed(seg0@) == seg0@.skip(a as int).take(b as int - a as int));
        assert(seg0@ == segv[0]);
    }
    let ghost name = trimmed(segv[0]);
    proof {
        assert(name.len() == b - a);
        assert(forall|k: int| 0 <= k < name.len() ==> name[k] == seg0@[a + k]);
    }
    let watched = b - a >= 2
        && ((seg0[a] == 101 && seg0[a + 1] == 110) || (seg0[a] == 119 && seg0[a + 1] == 108));
    proof {
        assert(watched == is_watched_name(name));
    }
    if !watched {
        return LineResult::Skip;
    }
    if segs.len() < 2 {
        return LineResult::Malformed;
    }
    let fs = split_fields(&segs[1]);
    proof {
        assert(segs@[1]@ == segv[1]);
    }
    if fs.len() < 9 {
        return LineResult::Malformed;
    }
    let recv = field_u64(&fs[0]);
    let recv_v: u64 = match recv {
        Some(v) => v,
        None => {
            return LineResult::Malformed;
        },
    };
    let sent = field_u64(&fs[8]);
    let sent_v: u64 = match sent {
        Some(v) => v,
        None => {
            return LineResult::Malformed;
        },
    };
    LineResult::Parsed((recv_v, sent_v))
}

/// The `(read, written)` byte counters of one disk statistics line: the
/// fixed device identifier is major `8`, minor `0` (the first two fields);
/// sectors read and written are the sixth and tenth fields, scaled by the
/// 512-byte sector size. A matching line with missing or non-numeric
/// fields, or whose byte count overflows the counter width, is malformed;
/// so is a line with no fields at all.
pub open spec fn disk_counters(s: Seq<u8>) -> LineResult<(u64, u64)> {
    let ts = fields_of(s);
    if ts.len() == 0 {
        LineResult::Malformed
    } else if ts[0] != seq![56u8] {
        LineResult::Skip
    } else if ts.len() < 2 {
        LineResult::Malformed
    } else if ts[1] != seq![48u8] {
        LineResult::Skip
    } else if ts.len() < 10 {
        LineResult::Malformed
    } else if !is_number(ts[5], u64::MAX as int) {
        LineResult::Malformed
    } else if 512 * digits_val(ts[5]) > u64::MAX as int {
        LineResult::Malformed
    } else if !is_number(ts[9], u64::MAX as int) {
        LineResult::Malformed
    } else if 512 * digits_val(ts[9]) > u64::MAX as int {
        LineResult::Malformed
    } else {
        LineResult::Parsed(((512 * digits_val(ts[5])) as u64, (512 * digits_val(ts[9])) as u64))
    }
}

/// Parse one disk statistics line.
pub fn parse_disk_line(line: &Vec<u8>) -> (r: LineResult<(u64, u64)>)
    ensures
        r == disk_counters(line@),
{
    let ts = split_fields(line);
    let ghost tsv = fields_of(line@);
    if ts.len() == 0 {
        return LineResult::Malformed;
    }
    let t0 = &ts[0];
    if !(t0.len() == 1 && t0[0] == 56) {
        proof {
            assert(t0@ == tsv[0]);
            assert(tsv[0] != seq![56u8]);
        }
        return LineResult::Skip;
    }
    proof {
        assert(t0@ =~= seq![56u8]);
    }
    if ts.len() < 2 {
        return LineResult::Malformed;
    }
    let t1 = &ts[1];
    if !(t1.len() == 1 && t1[0] == 48) {
        proof {
            assert(t1@ == tsv[1]);
            assert(tsv[1] != seq![48u8]);
        }
        return LineResult::Skip;
    }
    proof {
        assert(t1@ =~= seq![48u8]);
    }
    if ts.len() < 10 {
        return LineResult::Malformed;
    }
    let read_sectors = field_u64(&ts[5]);
    let read_v: u64 = match read_sectors {
        Some(v) => v,
        None => {
            return LineResult::Malformed;
        },
    };
    if read_v > u64::MAX / 512 {
        return LineResult::Malformed;
    }
    let written_sectors = field_u64(&ts[9]);
    let written_v: u64 = match written_sectors {
        Some(v) => v,
        None => {
            return LineResult::Malformed;
        },
    };
    if written_v > u64::MAX / 512 {
        return LineResult::Malformed;
    }
    LineResult::Parsed((read_v * 512, written_v * 512))
}

/// The per-core `(busy, total)` counters of a whole CPU statistics file:
/// one entry per core line, in file order; `None` when any core line is
/// malformed.
pub open spec fn fold_cpu(ls: Seq<Seq<u8>>) -> Option<Seq<(u32, u32)>>
    decreases ls.len(),
{
    if ls.len() == 0 {
        Some(Seq::empty())
    } else {
        match core_counters(ls[0]) {
            LineResult::Malformed => None,
            LineResult::Skip => fold_cpu(ls.skip(1)),
            LineResult::Parsed(p) => match fold_cpu(ls.skip(1)) {
                None => None,
                Some(rest) => Some(seq![p] + rest),
            },
        }
    }
}

/// The per-core counters of a CPU statistics file's text.
pub open spec fn cpu_stats_of(content: Seq<u8>) -> Option<Seq<(u32, u32)>> {
    fold_cpu(lines_of(content))
}

/// Parse a whole CPU statistics file into per-core `(busy, total)` pairs.
pub fn parse_cpu_stats(content: &Vec<u8>) -> (r: Option<Vec<(u32, u32)>>)
    ensures
        match r {
            Some(v) => cpu_stats_of(content@) == Some(v@),
            None => cpu_stats_of(content@) is None,
        },
{
    let ls = split_lines(content);
    let ghost lsv = lines_of(content@);
    let mut acc: Vec<(u32, u32)> = Vec::new();
    let mut i: usize = 0;
    proof {
        assert(lsv.skip(0) =~= lsv);
        if fold_cpu(lsv) is Some {
            assert(acc@ + fold_cpu(lsv).unwrap() =~= fold_cpu(lsv).unwrap());
        }
    }
    while i < ls.len()
        invariant
            i <= lsv.len(),
            lsv == views_of(ls@),
            lsv == lines_of(content@),
            fold_cpu(lsv) == match fold_cpu(lsv.skip(i as int)) {
                None => None::<Seq<(u32, u32)>>,
                Some(rest) => Some(acc@ + rest),
            },
        decreases lsv.len() - i,
    {
        proof {
            assert(lsv.len() == ls@.len());
            assert(lsv.skip(i as int).skip(1) =~= lsv.skip(i as int + 1));
            assert(lsv.skip(i as int)[0] == lsv[i as int]);
            assert(lsv[i as int] == ls@[i as int]@);
        }
        match parse_cpu_line(&ls[i]) {
            LineResult::Malformed => {
                proof {
                    assert(fold_cpu(lsv.skip(i as int)) is None);
                }
                return None;
            },
            LineResult::Skip => {},
            LineResult::Parsed(p) => {
                acc.push(p);
                proof {
                    if fold_cpu(lsv.skip(i as int + 1)) is Some {
                        let rest = fold_cpu(lsv.skip(i as int + 1)).unwrap();
                        assert(acc@.drop_last() + (seq![p] + rest)
                            =~= (acc@.drop_last() + seq![p]) + rest);
                        assert(acc@ =~= acc@.drop_last() + seq![p]);
                    }
                }
            },
        }
        i += 1;
    }
    proof {
        assert(lsv.skip(lsv.len() as int) =~= Seq::<Seq<u8>>::empty());
        if fold_cpu(lsv) is Some {
            assert(acc@ + Seq::<(u32, u32)>::empty() =~= acc@);
        }
    }
    Some(acc)
}

/// The per-interface `(received, sent)` byte counters of a whole network
/// statistics file: one entry per watched interface line, in file order;
/// `None` when any watched line is malformed.
pub open spec fn fold_net(ls: Seq<Seq<u8>>) -> Option<Seq<(u64, u64)>>
    decreases ls.len(),
{
    if ls.len() == 0 {
        Some(Seq::empty())
    } else {
        match net_counters(ls[0]) {
            LineResult::Malformed => None,
            LineResult::Skip => fold_net(ls.skip(1)),
            LineResult::Parsed(p) => match fold_net(ls.skip(1)) {
                None => None,
                Some(rest) => Some(seq![p] + rest),
            },
        }
    }
}

/// The watched-interface counters of a network statistics file's text.
pub open spec fn net_stats_of(content: Seq<u8>) -> Option<Seq<(u64, u64)>> {
    fold_net(lines_of(content))
}

/// Parse a whole network statistics file into `(received, sent)` pairs.
pub fn parse_net_stats(content: &Vec<u8>) -> (r: Option<Vec<(u64, u64)>>)
    ensures
        match r {
            Some(v) => net_stats_of(content@) == Some(v@),
            None => net_stats_of(content@) is None,
        },
{
    let ls = split_lines(content);
    let ghost lsv = lines_of(content@);
    let mut acc: Vec<(u64, u64)> = Vec::new();
    let mut i: usize = 0;
    proof {
        assert(lsv.skip(0) =~= lsv);
        if fold_net(lsv) is Some {
            assert(acc@ + fold_net(lsv).unwrap() =~= fold_net(lsv).unwrap());
        }
    }
    while i < ls.len()
        invariant
            i <= lsv.len(),
            lsv == views_of(ls@),
            lsv == lines_of(content@),
            fold_net(lsv) == match fold_net(lsv.skip(i as int)) {
                None => None::<Seq<(u64, u64)>>,
                Some(rest) => Some(acc@ + rest),
            },
        decreases lsv.len() - i,
    {
        proof {
            assert(lsv.len() == ls@.len());
            assert(lsv.skip(i as int).skip(1) =~= lsv.skip(i as int + 1));
            assert(lsv.skip(i as int)[0] == lsv[i as int]);
            assert(lsv[i as int] == ls@[i as int]@);
        }
        match parse_net_line(&ls[i]) {
            LineResult::Malformed => {
                proof {
                    assert(fold_net(lsv.skip(i as int)) is None);
                }
                return None;
            },
            LineResult::Skip => {},
            LineResult::Parsed(p) => {
                acc.push(p);
                proof {
                    if fold_net(lsv.skip(i as int + 1)) is Some {
                        let rest = fold_net(lsv.skip(i as int + 1)).unwrap();
                        assert(acc@.drop_last() + (seq![p] + rest)
                            =~= (acc@.drop_last() + seq![p]) + rest);
                        assert(acc@ =~= acc@.drop_last() + seq![p]);
                    }
                }
            },
        }
        i += 1;
    }
    proof {
        assert(lsv.skip(lsv.len() as int) =~= Seq::<Seq<u8>>::empty());
        if fold_net(lsv) is Some {
            assert(acc@ + Seq::<(u64, u64)>::empty() =~= acc@);
        }
    }
    Some(acc)
}

/// The per-device `(read, written)` byte counters of a whole disk
/// statistics file: one entry per matched device line, in file order;
/// `None` when any line is malformed.
pub open spec fn fold_disk(ls: Seq<Seq<u8>>) -> Option<Seq<(u64, u64)>>
    decreases ls.len(),
{
    if ls.len() == 0 {
        Some(Seq::empty())
    } else {
        match disk_counters(ls[0]) {
            LineResult::Malformed => None,
            LineResult::Skip => fold_disk(ls.skip(1)),
            LineResult::Parsed(p) => match fold_disk(ls.skip(1)) {
                None => None,
                Some(rest) => Some(seq![p] + rest),
            },
        }
    }
}

/// The matched-device counters of a disk statistics file's text.
pub open spec fn disk_stats_of(content: Seq<u8>) -> Option<Seq<(u64, u64)>> {
    fold_disk(lines_of(content))
}

/// Parse a whole disk statistics file into `(read, written)` pairs.
pub fn parse_disk_stats(content: &Vec<u8>) -> (r: Option<Vec<(u64, u64)>>)
    ensures
        match r {
            Some(v) => disk_stats_of(content@) == Some(v@),
            None => disk_stats_of(content@) is None,
        },
{
    let ls = split_lines(content);
    let ghost lsv = lines_of(content@);
    let mut acc: Vec<(u64, u64)> = Vec::new();
    let mut i: usize = 0;
    proof {
        assert(lsv.skip(0) =~= lsv);
        if fold_disk(lsv) is Some {
            assert(acc@ + fold_disk(lsv).unwrap() =~= fold_disk(lsv).unwrap());
        }
    }
    while i < ls.len()
        invariant
            i <= lsv.len(),
            lsv == views_of(ls@),
            lsv == lines_of(content@),
            fold_disk(lsv) == match fold_disk(lsv.skip(i as int)) {
                None => None::<Seq<(u64, u64)>>,
                Some(rest) => Some(acc@ + rest),
            },
        decreases lsv.len() - i,
    {
        proof {
            assert(lsv.len() == ls@.len());
            assert(lsv.skip(i as int).skip(1) =~= lsv.skip(i as int + 1));
            assert(lsv.skip(i as int)[0] == lsv[i as int]);
            assert(lsv[i as int] == ls@[i as int]@);
        }
        match parse_disk_line(&ls[i]) {
            LineResult::Malformed => {
                proof {
                    assert(fold_disk(lsv.skip(i as int)) is None);
                }
                return None;
            },
            LineResult::Skip => {},
            LineResult::Parsed(p) => {
                acc.push(p);
                proof {
                    if fold_disk(lsv.skip(i as int + 1)) is Some {
                        let rest = fold_disk(lsv.skip(i as int + 1)).unwrap();
                        assert(acc@.drop_last() + (seq![p] + rest)
                            =~= (acc@.drop_last() + seq![p]) + rest);
                        assert(acc@ =~= acc@.drop_last() + seq![p]);
                    }
                }
            },
        }
        i += 1;
    }
    proof {
        assert(lsv.skip(lsv.len() as int) =~= Seq::<Seq<u8>>::empty());
        if fold_disk(lsv) is Some {
            assert(acc@ + Seq::<(u64, u64)>::empty() =~= acc@);
        }
    }
    Some(acc)
}

} // verus!
