//! The layout of the tooltip. Numbers that are shown with fractions stay readings here; the
//! caller writes them out.

use vstd::prelude::*;
use vstd::slice::slice_subrange;
use crate::aggregate;
use crate::lossy;
use crate::lossy::push_lossy;
use crate::procfs;
use crate::ranking;
use crate::ranking::{Blocked, IoEntry, IoRanked, Ranked, StateEntry, TopEntry};
use crate::sample;
use crate::sample::{Sample, Tally};
use crate::stats;
use crate::stats::COMM_LEN;
use crate::text;

verus! {

/// A number that is shown with a fraction or rounded, as the quantities that it is made of.
#[derive(Clone, Copy, PartialEq, Eq, Structural, Debug)]
pub enum Reading {
    /// A load average in units of 1/65536, with two decimals.
    Load(u64),
    /// The share of `elapsed_ms` that the GPU was not asleep, in whole percent.
    IgpuBusy { asleep_ms: u64, elapsed_ms: u64 },
    /// The share of the CPU time that was used, in whole percent; 0 where there was none.
    CpuPercent { used_ns: u64, total_ns: u64 },
    /// A frequency given in kHz, in GHz with one decimal.
    Gigahertz(u64),
    /// The share of the CPU time of all cores, in percent with one decimal, five wide.
    CpuShare { cpu_ns: u64, elapsed_ns: u64, cores: u32 },
    /// Bytes, in GiB with one decimal.
    Gibibytes(u64),
    /// The share of the time that tasks were stalled, in percent with one decimal, from 0 to 100.
    Pressure { stalled_us: u64, elapsed_ns: u64 },
    /// Pages per second, rounded.
    PageRate { pages: u64, elapsed_ns: u64 },
    /// The sum of two rates of pages per second, rounded.
    PageRateSum { pages_in: u64, pages_out: u64, elapsed_ns: u64 },
    /// Bytes, in MiB, rounded, five wide.
    Mebibytes(u64),
    /// Bytes per second, in MiB with one decimal.
    IoRate { bytes: u64, elapsed_ns: u64 },
    /// The sum of two rates of bytes per second, in MiB with one decimal.
    IoRateSum { read: u64, written: u64, elapsed_ns: u64 },
    /// Bytes per second, in MiB with one decimal, five wide.
    IoRateWide { bytes: u64, elapsed_ns: u64 },
    /// A duration in nanoseconds, in milliseconds with one decimal.
    Milliseconds(u64),
}

/// A character of the tooltip, or a number that stands in it.
#[derive(Clone, Copy, PartialEq, Eq, Structural, Debug)]
pub enum Mark {
    Char(char),
    Number(Reading),
}

/// A character as a mark.
pub open spec fn mark(c: char) -> Mark {
    Mark::Char(c)
}

/// Text as marks.
pub open spec fn marks(s: Seq<char>) -> Seq<Mark> {
    s.map_values(|c: char| mark(c))
}

/// A number as marks.
pub open spec fn number(r: Reading) -> Seq<Mark> {
    seq![Mark::Number(r)]
}

/// A whole number as marks.
pub open spec fn whole(n: nat) -> Seq<Mark> {
    marks(text::decimal(n))
}

/// Bytes as marks.
pub open spec fn shown(b: Seq<u8>) -> Seq<Mark> {
    marks(lossy::lossy(b))
}

fn put(out: &mut Vec<Mark>, s: &str)
    ensures
        final(out)@ == old(out)@ + marks(s@),
{
    let c = text::chars_of(s);
    let mut i: usize = 0;
    proof {
        assert(marks(s@.take(0)) =~= Seq::empty());
        assert(out@ =~= old(out)@ + marks(s@.take(0)));
    }
    while i < c.len()
        invariant
            c@ == s@,
            i <= c@.len(),
            out@ == old(out)@ + marks(s@.take(i as int)),
        decreases c@.len() - i,
    {
        let m = Mark::Char(c[i]);
        out.push(m);
        i += 1;
        proof {
            assert(m == mark(s@[i - 1]));
            assert(marks(s@.take(i as int)) =~= marks(s@.take(i - 1)).push(mark(s@[i - 1])));
            assert(out@ =~= old(out)@ + marks(s@.take(i as int)));
        }
    }
    proof {
        assert(s@.take(i as int) =~= s@);
    }
}

fn put_whole(out: &mut Vec<Mark>, n: u64)
    ensures
        final(out)@ == old(out)@ + whole(n as nat),
{
    let mut s = String::new();
    text::push_decimal(&mut s, n);
    proof {
        assert(s@ =~= text::decimal(n as nat));
    }
    put(out, s.as_str());
}

fn put_bytes(out: &mut Vec<Mark>, b: &[u8])
    ensures
        final(out)@ == old(out)@ + shown(b@),
{
    let mut s = String::new();
    push_lossy(&mut s, b);
    proof {
        assert(s@ =~= lossy::lossy(b@));
    }
    put(out, s.as_str());
}

fn put_name(out: &mut Vec<Mark>, comm: &[u8; COMM_LEN], l: u8)
    requires
        l <= COMM_LEN,
    ensures
        final(out)@ == old(out)@ + shown(stats::name_in(comm@, l)),
{
    let mut s = String::new();
    lossy::push_comm(&mut s, comm, l);
    proof {
        assert(s@ =~= lossy::lossy(stats::name_in(comm@, l)));
    }
    put(out, s.as_str());
}

// ---- The interval ----

/// Nanoseconds between two samples; 0 where there is no previous one.
pub open spec fn elapsed(prev: Option<Sample>, cur: Sample) -> u64 {
    match prev {
        Some(p) => aggregate::less(cur.at_ns, p.at_ns),
        None => 0,
    }
}

/// By how much a counter grew between two samples, where both have it and time has passed.
pub open spec fn growth(now: Option<u64>, before: Option<u64>, elapsed_ns: u64) -> Option<u64> {
    match (now, before) {
        (Some(n), Some(b)) if elapsed_ns > 0 => Some(aggregate::less(n, b)),
        _ => None,
    }
}

fn grown(now: Option<u64>, before: Option<u64>, elapsed_ns: u64) -> (r: Option<u64>)
    ensures
        r == growth(now, before, elapsed_ns),
{
    match (now, before) {
        (Some(n), Some(b)) => {
            if elapsed_ns > 0 {
                Some(n.saturating_sub(b))
            } else {
                None
            }
        },
        _ => None,
    }
}

/// What an optional reference refers to.
pub open spec fn referenced(s: Option<&Sample>) -> Option<Sample> {
    match s {
        Some(p) => Some(*p),
        None => None,
    }
}

// ---- Load, GPU, profile ----

/// The load averages and the number of cores.
pub open spec fn load_line(cur: Sample) -> Seq<Mark> {
    marks("Load: "@) + number(Reading::Load(cur.loads@[0])) + marks(" "@) + number(Reading::Load(cur.loads@[1])) + marks(
        " "@,
    ) + number(Reading::Load(cur.loads@[2])) + marks(" ("@) + whole(cur.cores as nat) + marks(" cores)"@)
}

fn put_load(out: &mut Vec<Mark>, cur: &Sample)
    ensures
        final(out)@ == old(out)@ + load_line(*cur),
{
    put(out, "Load: ");
    out.push(Mark::Number(Reading::Load(cur.loads[0])));
    put(out, " ");
    out.push(Mark::Number(Reading::Load(cur.loads[1])));
    put(out, " ");
    out.push(Mark::Number(Reading::Load(cur.loads[2])));
    put(out, " (");
    put_whole(out, cur.cores as u64);
    put(out, " cores)");
    proof {
        assert(out@ =~= old(out)@ + load_line(*cur));
    }
}

/// How busy the GPU was, where both samples say how long it slept.
pub open spec fn igpu_busy(prev: Option<Sample>, cur: Sample, elapsed_ms: u64) -> Seq<Mark> {
    match prev {
        Some(p) => match (cur.gpu_rc6_ms, p.gpu_rc6_ms) {
            (Some(now), Some(before)) if elapsed_ms > 0 => number(
                Reading::IgpuBusy { asleep_ms: aggregate::less(now, before), elapsed_ms },
            ) + marks("% @ "@),
            _ => Seq::empty(),
        },
        None => Seq::empty(),
    }
}

/// The GPU's load and frequency.
pub open spec fn igpu_line(prev: Option<Sample>, cur: Sample, elapsed_ms: u64) -> Seq<Mark> {
    marks("\niGPU: "@) + match (cur.gpu_freq, cur.gpu_max) {
        (Some(freq), Some(max)) => igpu_busy(prev, cur, elapsed_ms) + whole(freq as nat) + marks("/"@) + whole(
            max as nat,
        ) + marks(" MHz"@),
        _ => marks("n/a"@),
    }
}

fn put_igpu(out: &mut Vec<Mark>, prev: Option<&Sample>, cur: &Sample, elapsed_ms: u64)
    ensures
        final(out)@ == old(out)@ + igpu_line(referenced(prev), *cur, elapsed_ms),
{
    put(out, "\niGPU: ");
    if let (Some(freq), Some(max)) = (cur.gpu_freq, cur.gpu_max) {
        let ghost before_busy = out@;
        if let Some(p) = prev {
            if let (Some(now), Some(before)) = (cur.gpu_rc6_ms, p.gpu_rc6_ms) {
                if elapsed_ms > 0 {
                    out.push(
                        Mark::Number(Reading::IgpuBusy { asleep_ms: now.saturating_sub(before), elapsed_ms }),
                    );
                    put(out, "% @ ");
                }
            }
        }
        proof {
            assert(out@ =~= before_busy + igpu_busy(referenced(prev), *cur, elapsed_ms));
        }
        put_whole(out, freq);
        put(out, "/");
        put_whole(out, max);
        put(out, " MHz");
    } else {
        put(out, "n/a");
    }
    proof {
        assert(out@ =~= old(out)@ + igpu_line(referenced(prev), *cur, elapsed_ms));
    }
}

/// The power profile, and the throttle reasons where there are any.
pub open spec fn profile_lines(cur: Sample) -> Seq<Mark> {
    marks("\nProfile: "@) + (if cur.profile_len > 0 {
        shown(cur.profile_name())
    } else {
        marks("n/a"@)
    }) + (if cur.throttle.1 > 0 {
        marks("\n⚠ Throttled: "@) + shown(cur.throttle_reasons())
    } else {
        Seq::empty()
    })
}

fn put_profile(out: &mut Vec<Mark>, cur: &Sample)
    requires
        cur.wf(),
    ensures
        final(out)@ == old(out)@ + profile_lines(*cur),
{
    put(out, "\nProfile: ");
    if cur.profile_len > 0 {
        let name = slice_subrange(cur.profile.as_slice(), 0, cur.profile_len as usize);
        proof {
            assert(name@ =~= cur.profile_name());
        }
        put_bytes(out, name);
    } else {
        put(out, "n/a");
    }
    if cur.throttle.1 > 0 {
        put(out, "\n⚠ Throttled: ");
        let reasons = slice_subrange(cur.throttle.0.as_slice(), 0, cur.throttle.1);
        proof {
            assert(reasons@ =~= cur.throttle_reasons());
        }
        put_bytes(out, reasons);
    }
    proof {
        assert(out@ =~= old(out)@ + profile_lines(*cur));
    }
}

// ---- CPU ----

/// Temperature, use and frequency of the CPU.
pub open spec fn cpu_header(has_prev: bool, cur: Sample) -> Seq<Mark> {
    marks("\n\n CPU    "@) + (match cur.cpu_temp {
        Some(t) => whole((t / 1000) as nat) + marks("°C    "@),
        None => marks("n/a    "@),
    }) + (if has_prev {
        number(Reading::CpuPercent { used_ns: sample::used_time(cur.busy_ns, cur.total_ns), total_ns: cur.total_ns })
    } else {
        marks("?"@)
    }) + marks("%    "@) + match (cur.cpu_freq, cur.cpu_fmax) {
        (Some(freq), Some(max)) => marks("CPU0 "@) + number(Reading::Gigahertz(freq)) + marks("/"@) + number(
            Reading::Gigahertz(max),
        ) + marks(" GHz"@),
        _ => marks("n/a"@),
    }
}

fn put_cpu_header(out: &mut Vec<Mark>, has_prev: bool, cur: &Sample)
    ensures
        final(out)@ == old(out)@ + cpu_header(has_prev, *cur),
{
    put(out, "\n\n CPU    ");
    match cur.cpu_temp {
        Some(t) => {
            put_whole(out, t / 1000);
            put(out, "°C    ");
        },
        None => {
            put(out, "n/a    ");
        },
    }
    if has_prev {
        out.push(Mark::Number(Reading::CpuPercent { used_ns: cur.used_ns(), total_ns: cur.total_ns }));
    } else {
        put(out, "?");
    }
    put(out, "%    ");
    if let (Some(freq), Some(max)) = (cur.cpu_freq, cur.cpu_fmax) {
        put(out, "CPU0 ");
        out.push(Mark::Number(Reading::Gigahertz(freq)));
        put(out, "/");
        out.push(Mark::Number(Reading::Gigahertz(max)));
        put(out, " GHz");
    } else {
        put(out, "n/a");
    }
    proof {
        assert(out@ =~= old(out)@ + cpu_header(has_prev, *cur));
    }
}

/// One line for each blocked task.
pub open spec fn blocked_lines(tasks: Seq<Blocked>) -> Seq<Mark>
    decreases tasks.len(),
{
    if tasks.len() == 0 {
        Seq::empty()
    } else {
        let b = tasks.last();
        blocked_lines(tasks.drop_last()) + (marks("\n    "@) + marks(seq![b.state as char]) + marks("  "@) + shown(
            b.name,
        ))
    }
}

fn put_blocked(out: &mut Vec<Mark>, tasks: &[StateEntry])
    requires
        forall|i: int| 0 <= i < tasks@.len() ==> (#[trigger] tasks@[i]).cl <= COMM_LEN,
    ensures
        final(out)@ == old(out)@ + blocked_lines(tasks@.map_values(|e: StateEntry| e@)),
{
    let ghost all = tasks@.map_values(|e: StateEntry| e@);
    let mut i: usize = 0;
    proof {
        assert(out@ =~= old(out)@ + blocked_lines(all.take(0)));
    }
    while i < tasks.len()
        invariant
            i <= tasks@.len(),
            all == tasks@.map_values(|e: StateEntry| e@),
            forall|k: int| 0 <= k < tasks@.len() ==> (#[trigger] tasks@[k]).cl <= COMM_LEN,
            out@ == old(out)@ + blocked_lines(all.take(i as int)),
        decreases tasks@.len() - i,
    {
        let ghost was = out@;
        let e = &tasks[i];
        put(out, "\n    ");
        let state: char = e.state as char;
        out.push(Mark::Char(state));
        put(out, "  ");
        put_name(out, &e.comm, e.cl);
        proof {
            let b = all[i as int];
            assert(marks(seq![state]) =~= seq![Mark::Char(state)]);
            assert(all.take(i + 1).drop_last() =~= all.take(i as int));
            assert(out@ =~= was + (marks("\n    "@) + marks(seq![b.state as char]) + marks("  "@) + shown(b.name)));
            assert(out@ =~= old(out)@ + blocked_lines(all.take(i + 1)));
        }
        i += 1;
    }
    proof {
        assert(all.take(i as int) =~= all);
    }
}

/// One line for each of the processes that used most CPU time.
pub open spec fn cpu_lines(top: Seq<Ranked>, elapsed_ns: u64, cores: u32) -> Seq<Mark>
    decreases top.len(),
{
    if top.len() == 0 {
        Seq::empty()
    } else {
        let r = top.last();
        cpu_lines(top.drop_last(), elapsed_ns, cores) + (marks("\n"@) + number(
            Reading::CpuShare { cpu_ns: r.val, elapsed_ns, cores },
        ) + marks("%  "@) + shown(r.name))
    }
}

fn put_top_cpu(out: &mut Vec<Mark>, top: &[TopEntry], elapsed_ns: u64, cores: u32)
    requires
        forall|i: int| 0 <= i < top@.len() ==> (#[trigger] top@[i]).cl <= COMM_LEN,
    ensures
        final(out)@ == old(out)@ + cpu_lines(top@.map_values(|e: TopEntry| e@), elapsed_ns, cores),
{
    let ghost all = top@.map_values(|e: TopEntry| e@);
    let mut i: usize = 0;
    proof {
        assert(out@ =~= old(out)@ + cpu_lines(all.take(0), elapsed_ns, cores));
    }
    while i < top.len()
        invariant
            i <= top@.len(),
            all == top@.map_values(|e: TopEntry| e@),
            forall|k: int| 0 <= k < top@.len() ==> (#[trigger] top@[k]).cl <= COMM_LEN,
            out@ == old(out)@ + cpu_lines(all.take(i as int), elapsed_ns, cores),
        decreases top@.len() - i,
    {
        let ghost was = out@;
        let e = &top[i];
        put(out, "\n");
        out.push(Mark::Number(Reading::CpuShare { cpu_ns: e.val, elapsed_ns, cores }));
        put(out, "%  ");
        put_name(out, &e.comm, e.cl);
        proof {
            let r = all[i as int];
            assert(all.take(i + 1).drop_last() =~= all.take(i as int));
            assert(out@ =~= was + (marks("\n"@) + number(Reading::CpuShare { cpu_ns: r.val, elapsed_ns, cores })
                + marks("%  "@) + shown(r.name)));
            assert(out@ =~= old(out)@ + cpu_lines(all.take(i + 1), elapsed_ns, cores));
        }
        i += 1;
    }
    proof {
        assert(all.take(i as int) =~= all);
    }
}

// ---- Memory ----

/// Memory in use.
pub open spec fn used(cur: Sample) -> u64 {
    aggregate::less(cur.mem_total, cur.mem_available)
}

/// The share of the memory that is in use, in whole percent. A hundred times the memory in use
/// is taken as a 64-bit word holds it.
pub open spec fn used_percent(cur: Sample) -> nat {
    if cur.mem_total == 0 {
        0
    } else {
        procfs::wrapped((100 * used(cur)) as nat) as nat / cur.mem_total as nat
    }
}

/// How much memory is in use.
pub open spec fn memory_header(cur: Sample) -> Seq<Mark> {
    marks("\n\n Memory    "@) + number(Reading::Gibibytes(used(cur))) + marks("/"@) + number(
        Reading::Gibibytes(cur.mem_total),
    ) + marks(" GiB ("@) + whole(used_percent(cur)) + marks("%)"@)
}

fn put_memory(out: &mut Vec<Mark>, cur: &Sample)
    ensures
        final(out)@ == old(out)@ + memory_header(*cur),
{
    let mused: u64 = cur.mem_total.saturating_sub(cur.mem_available);
    let percent: u64 = if cur.mem_total == 0 {
        0
    } else {
        let hundredfold: u64 = ((100 * mused as u128) % 0x1_0000_0000_0000_0000) as u64;
        hundredfold / cur.mem_total
    };
    put(out, "\n\n Memory    ");
    out.push(Mark::Number(Reading::Gibibytes(mused)));
    put(out, "/");
    out.push(Mark::Number(Reading::Gibibytes(cur.mem_total)));
    put(out, " GiB (");
    put_whole(out, percent);
    put(out, "%)");
    proof {
        assert(percent == used_percent(*cur));
        assert(out@ =~= old(out)@ + memory_header(*cur));
    }
}

/// For how much of the interval tasks were stalled for want of memory.
pub open spec fn pressure_line(some: Option<u64>, full: Option<u64>, elapsed_ns: u64) -> Seq<Mark> {
    match (some, full) {
        (Some(s), Some(f)) => marks("\n PSI some/full: "@) + number(
            Reading::Pressure { stalled_us: s, elapsed_ns },
        ) + marks("%/"@) + number(Reading::Pressure { stalled_us: f, elapsed_ns }) + marks("%"@),
        _ => marks("\n PSI some/full: n/a"@),
    }
}

fn put_pressure(out: &mut Vec<Mark>, some: Option<u64>, full: Option<u64>, elapsed_ns: u64)
    ensures
        final(out)@ == old(out)@ + pressure_line(some, full, elapsed_ns),
{
    match (some, full) {
        (Some(s), Some(f)) => {
            put(out, "\n PSI some/full: ");
            out.push(Mark::Number(Reading::Pressure { stalled_us: s, elapsed_ns }));
            put(out, "%/");
            out.push(Mark::Number(Reading::Pressure { stalled_us: f, elapsed_ns }));
            put(out, "%");
            proof {
                assert(out@ =~= old(out)@ + pressure_line(some, full, elapsed_ns));
            }
        },
        _ => {
            put(out, "\n PSI some/full: n/a");
        },
    }
}

/// How many pages were swapped per second.
pub open spec fn swap_line(pages_in: Option<u64>, pages_out: Option<u64>, elapsed_ns: u64) -> Seq<Mark> {
    match (pages_in, pages_out) {
        (Some(i), Some(o)) => marks("\n Swap: "@) + number(
            Reading::PageRateSum { pages_in: i, pages_out: o, elapsed_ns },
        ) + marks(" pages/s (in:"@) + number(Reading::PageRate { pages: i, elapsed_ns }) + marks(" out:"@) + number(
            Reading::PageRate { pages: o, elapsed_ns },
        ) + marks(")"@),
        _ => marks("\n Swap: n/a"@),
    }
}

fn put_swap(out: &mut Vec<Mark>, pages_in: Option<u64>, pages_out: Option<u64>, elapsed_ns: u64)
    ensures
        final(out)@ == old(out)@ + swap_line(pages_in, pages_out, elapsed_ns),
{
    match (pages_in, pages_out) {
        (Some(i), Some(o)) => {
            put(out, "\n Swap: ");
            out.push(Mark::Number(Reading::PageRateSum { pages_in: i, pages_out: o, elapsed_ns }));
            put(out, " pages/s (in:");
            out.push(Mark::Number(Reading::PageRate { pages: i, elapsed_ns }));
            put(out, " out:");
            out.push(Mark::Number(Reading::PageRate { pages: o, elapsed_ns }));
            put(out, ")");
            proof {
                assert(out@ =~= old(out)@ + swap_line(pages_in, pages_out, elapsed_ns));
            }
        },
        _ => {
            put(out, "\n Swap: n/a");
        },
    }
}

/// One line for each of the processes with most resident memory.
pub open spec fn memory_lines(top: Seq<Ranked>) -> Seq<Mark>
    decreases top.len(),
{
    if top.len() == 0 {
        Seq::empty()
    } else {
        let r = top.last();
        memory_lines(top.drop_last()) + (marks("\n"@) + number(Reading::Mebibytes(r.val)) + marks("M  "@) + shown(
            r.name,
        ))
    }
}

fn put_top_mem(out: &mut Vec<Mark>, top: &[TopEntry])
    requires
        forall|i: int| 0 <= i < top@.len() ==> (#[trigger] top@[i]).cl <= COMM_LEN,
    ensures
        final(out)@ == old(out)@ + memory_lines(top@.map_values(|e: TopEntry| e@)),
{
    let ghost all = top@.map_values(|e: TopEntry| e@);
    let mut i: usize = 0;
    proof {
        assert(out@ =~= old(out)@ + memory_lines(all.take(0)));
    }
    while i < top.len()
        invariant
            i <= top@.len(),
            all == top@.map_values(|e: TopEntry| e@),
            forall|k: int| 0 <= k < top@.len() ==> (#[trigger] top@[k]).cl <= COMM_LEN,
            out@ == old(out)@ + memory_lines(all.take(i as int)),
        decreases top@.len() - i,
    {
        let ghost was = out@;
        let e = &top[i];
        put(out, "\n");
        out.push(Mark::Number(Reading::Mebibytes(e.val)));
        put(out, "M  ");
        put_name(out, &e.comm, e.cl);
        proof {
            let r = all[i as int];
            assert(all.take(i + 1).drop_last() =~= all.take(i as int));
            assert(out@ =~= was + (marks("\n"@) + number(Reading::Mebibytes(r.val)) + marks("M  "@) + shown(r.name)));
            assert(out@ =~= old(out)@ + memory_lines(all.take(i + 1)));
        }
        i += 1;
    }
    proof {
        assert(all.take(i as int) =~= all);
    }
}

// ---- Task I/O ----

/// Bytes read and written per second, where time has passed.
pub open spec fn io_header(read: u64, written: u64, elapsed_ns: u64) -> Seq<Mark> {
    marks("\n\n Task IO/s"@) + if elapsed_ns > 0 {
        marks(" "@) + number(Reading::IoRateSum { read, written, elapsed_ns }) + marks("M/s (R:"@) + number(
            Reading::IoRate { bytes: read, elapsed_ns },
        ) + marks(" W:"@) + number(Reading::IoRate { bytes: written, elapsed_ns }) + marks(")"@)
    } else {
        Seq::empty()
    }
}

fn put_io(out: &mut Vec<Mark>, read: u64, written: u64, elapsed_ns: u64)
    ensures
        final(out)@ == old(out)@ + io_header(read, written, elapsed_ns),
{
    put(out, "\n\n Task IO/s");
    if elapsed_ns > 0 {
        put(out, " ");
        out.push(Mark::Number(Reading::IoRateSum { read, written, elapsed_ns }));
        put(out, "M/s (R:");
        out.push(Mark::Number(Reading::IoRate { bytes: read, elapsed_ns }));
        put(out, " W:");
        out.push(Mark::Number(Reading::IoRate { bytes: written, elapsed_ns }));
        put(out, ")");
    }
    proof {
        assert(out@ =~= old(out)@ + io_header(read, written, elapsed_ns));
    }
}

/// The line of one of the processes with most I/O.
pub open spec fn io_line(r: IoRanked, elapsed_ns: u64) -> Seq<Mark> {
    marks("\n"@) + number(Reading::IoRateWide { bytes: r.total, elapsed_ns }) + marks("M/s  "@) + shown(r.name) + marks(
        " (R:"@,
    ) + number(Reading::IoRate { bytes: r.dr, elapsed_ns }) + marks(" W:"@) + number(
        Reading::IoRate { bytes: r.dw, elapsed_ns },
    ) + marks(")"@)
}

/// One line for each of the processes with most I/O.
pub open spec fn io_lines(top: Seq<IoRanked>, elapsed_ns: u64) -> Seq<Mark>
    decreases top.len(),
{
    if top.len() == 0 {
        Seq::empty()
    } else {
        io_lines(top.drop_last(), elapsed_ns) + io_line(top.last(), elapsed_ns)
    }
}

fn put_top_io(out: &mut Vec<Mark>, top: &[IoEntry], elapsed_ns: u64)
    requires
        forall|i: int| 0 <= i < top@.len() ==> (#[trigger] top@[i]).cl <= COMM_LEN,
    ensures
        final(out)@ == old(out)@ + io_lines(top@.map_values(|e: IoEntry| e@), elapsed_ns),
{
    let ghost all = top@.map_values(|e: IoEntry| e@);
    let mut i: usize = 0;
    proof {
        assert(out@ =~= old(out)@ + io_lines(all.take(0), elapsed_ns));
    }
    while i < top.len()
        invariant
            i <= top@.len(),
            all == top@.map_values(|e: IoEntry| e@),
            forall|k: int| 0 <= k < top@.len() ==> (#[trigger] top@[k]).cl <= COMM_LEN,
            out@ == old(out)@ + io_lines(all.take(i as int), elapsed_ns),
        decreases top@.len() - i,
    {
        let ghost was = out@;
        let e = &top[i];
        put(out, "\n");
        out.push(Mark::Number(Reading::IoRateWide { bytes: e.total, elapsed_ns }));
        put(out, "M/s  ");
        put_name(out, &e.comm, e.cl);
        put(out, " (R:");
        out.push(Mark::Number(Reading::IoRate { bytes: e.dr, elapsed_ns }));
        put(out, " W:");
        out.push(Mark::Number(Reading::IoRate { bytes: e.dw, elapsed_ns }));
        put(out, ")");
        proof {
            let r = all[i as int];
            assert(all.take(i + 1).drop_last() =~= all.take(i as int));
            assert(out@ =~= was + io_line(r, elapsed_ns));
            assert(out@ =~= old(out)@ + io_lines(all.take(i + 1), elapsed_ns));
        }
        i += 1;
    }
    proof {
        assert(all.take(i as int) =~= all);
    }
}

// ---- The whole tooltip ----

/// How long the sample took, how often one is taken, and whether kernel threads are in it.
pub open spec fn footer(cur: Sample, collected_ns: u64, interval_ms: u64) -> Seq<Mark> {
    marks("\n\nCollected in "@) + number(Reading::Milliseconds(collected_ns)) + marks("ms (every "@) + whole(
        interval_ms as nat,
    ) + marks("ms)"@) + marks("\nKernel threads "@) + marks(
        if cur.include_kthreads {
            "included"@
        } else {
            "excluded"@
        },
    )
}

fn put_footer(out: &mut Vec<Mark>, cur: &Sample, collected_ns: u64, interval_ms: u64)
    ensures
        final(out)@ == old(out)@ + footer(*cur, collected_ns, interval_ms),
{
    put(out, "\n\nCollected in ");
    out.push(Mark::Number(Reading::Milliseconds(collected_ns)));
    put(out, "ms (every ");
    put_whole(out, interval_ms);
    put(out, "ms)");
    put(out, "\nKernel threads ");
    if cur.include_kthreads {
        put(out, "included");
    } else {
        put(out, "excluded");
    }
    proof {
        assert(out@ =~= old(out)@ + footer(*cur, collected_ns, interval_ms));
    }
}

/// A dash line where a list is empty.
pub open spec fn or_dashes(empty: bool) -> Seq<Mark> {
    if empty {
        marks("\n  ---"@)
    } else {
        Seq::empty()
    }
}

fn put_dashes(out: &mut Vec<Mark>, empty: bool)
    ensures
        final(out)@ == old(out)@ + or_dashes(empty),
{
    if empty {
        put(out, "\n  ---");
    }
    proof {
        assert(out@ =~= old(out)@ + or_dashes(empty));
    }
}

/// The CPU section: header, blocked tasks, top processes.
pub open spec fn cpu_section(prev: Option<Sample>, cur: Sample) -> Seq<Mark> {
    cpu_header(prev is Some, cur) + blocked_lines(cur.tally.blocked@) + or_dashes(
        cur.tally.top_cpu@.len() == 0 && cur.tally.blocked@.len() == 0,
    ) + cpu_lines(cur.tally.top_cpu@, elapsed(prev, cur), cur.cores)
}

/// The pressure between two samples.
pub open spec fn pressure_shown(prev: Option<Sample>, cur: Sample) -> Seq<Mark> {
    let ns = elapsed(prev, cur);
    match prev {
        Some(p) => pressure_line(
            growth(cur.psi_mem_some_total_us, p.psi_mem_some_total_us, ns),
            growth(cur.psi_mem_full_total_us, p.psi_mem_full_total_us, ns),
            ns,
        ),
        None => pressure_line(None, None, ns),
    }
}

/// The swapping between two samples.
pub open spec fn swap_shown(prev: Option<Sample>, cur: Sample) -> Seq<Mark> {
    let ns = elapsed(prev, cur);
    match prev {
        Some(p) => swap_line(
            growth(cur.pswpin_pages, p.pswpin_pages, ns),
            growth(cur.pswpout_pages, p.pswpout_pages, ns),
            ns,
        ),
        None => swap_line(None, None, ns),
    }
}

/// The memory section: header, pressure, swapping, top processes.
pub open spec fn memory_section(prev: Option<Sample>, cur: Sample) -> Seq<Mark> {
    memory_header(cur) + pressure_shown(prev, cur) + swap_shown(prev, cur) + or_dashes(
        cur.tally.top_mem@.len() == 0,
    ) + memory_lines(cur.tally.top_mem@)
}

/// The I/O section: header, top processes.
pub open spec fn io_section(prev: Option<Sample>, cur: Sample) -> Seq<Mark> {
    let ns = elapsed(prev, cur);
    io_header(cur.tally.io_total_dr, cur.tally.io_total_dw, ns) + or_dashes(cur.tally.top_io@.len() == 0) + io_lines(
        cur.tally.top_io@,
        ns,
    )
}

/// The tooltip of a sample whose lists are in the order in which they are shown.
pub open spec fn tooltip(
    prev: Option<Sample>,
    cur: Sample,
    elapsed_ms: u64,
    collected_ns: u64,
    interval_ms: u64,
) -> Seq<Mark> {
    load_line(cur) + igpu_line(prev, cur, elapsed_ms) + profile_lines(cur) + cpu_section(prev, cur) + memory_section(
        prev,
        cur,
    ) + io_section(prev, cur) + footer(cur, collected_ns, interval_ms)
}

/// `b` is `a` with its lists put in the order in which they are shown.
pub open spec fn arranged(a: Sample, b: Sample) -> bool {
    &&& b == (Sample { tally: b.tally, ..a })
    &&& b.tally.io_total_dr == a.tally.io_total_dr
    &&& b.tally.io_total_dw == a.tally.io_total_dw
    &&& ranking::in_state_order(b.tally.blocked@)
    &&& b.tally.blocked@.to_multiset() == a.tally.blocked@.to_multiset()
    &&& ranking::descending(b.tally.top_cpu@, ranking::by_val())
    &&& b.tally.top_cpu@.to_multiset() == a.tally.top_cpu@.to_multiset()
    &&& ranking::descending(b.tally.top_mem@, ranking::by_val())
    &&& b.tally.top_mem@.to_multiset() == a.tally.top_mem@.to_multiset()
    &&& ranking::descending(b.tally.top_io@, ranking::by_total())
    &&& b.tally.top_io@.to_multiset() == a.tally.top_io@.to_multiset()
}

fn put_cpu_section(out: &mut Vec<Mark>, prev: Option<&Sample>, cur: &mut Sample, ns: u64)
    requires
        old(cur).wf(),
        ns == elapsed(referenced(prev), *old(cur)),
    ensures
        final(out)@ == old(out)@ + cpu_section(referenced(prev), *final(cur)),
        final(cur).wf(),
        *final(cur) == (Sample {
            tally: (Tally {
                blocked: final(cur).tally.blocked,
                top_cpu: final(cur).tally.top_cpu,
                ..old(cur).tally
            }),
            ..*old(cur)
        }),
        ranking::in_state_order(final(cur).tally.blocked@),
        final(cur).tally.blocked@.to_multiset() == old(cur).tally.blocked@.to_multiset(),
        ranking::descending(final(cur).tally.top_cpu@, ranking::by_val()),
        final(cur).tally.top_cpu@.to_multiset() == old(cur).tally.top_cpu@.to_multiset(),
{
    put_cpu_header(out, prev.is_some(), cur);
    let cores: u32 = cur.cores;
    let blocked = cur.tally.blocked.sorted();
    let none_blocked: bool = blocked.len() == 0;
    put_blocked(out, blocked);
    let top_cpu = cur.tally.top_cpu.sorted();
    put_dashes(out, top_cpu.len() == 0 && none_blocked);
    put_top_cpu(out, top_cpu, ns, cores);
    proof {
        assert(cpu_header(prev is Some, *old(cur)) == cpu_header(prev is Some, *cur));
        assert(out@ =~= old(out)@ + cpu_section(referenced(prev), *cur));
    }
}

fn put_memory_section(out: &mut Vec<Mark>, prev: Option<&Sample>, cur: &mut Sample, ns: u64)
    requires
        old(cur).wf(),
        ns == elapsed(referenced(prev), *old(cur)),
    ensures
        final(out)@ == old(out)@ + memory_section(referenced(prev), *final(cur)),
        final(cur).wf(),
        *final(cur) == (Sample {
            tally: (Tally { top_mem: final(cur).tally.top_mem, ..old(cur).tally }),
            ..*old(cur)
        }),
        ranking::descending(final(cur).tally.top_mem@, ranking::by_val()),
        final(cur).tally.top_mem@.to_multiset() == old(cur).tally.top_mem@.to_multiset(),
{
    put_memory(out, cur);
    match prev {
        Some(p) => {
            let some = grown(cur.psi_mem_some_total_us, p.psi_mem_some_total_us, ns);
            let full = grown(cur.psi_mem_full_total_us, p.psi_mem_full_total_us, ns);
            put_pressure(out, some, full, ns);
            let pages_in = grown(cur.pswpin_pages, p.pswpin_pages, ns);
            let pages_out = grown(cur.pswpout_pages, p.pswpout_pages, ns);
            put_swap(out, pages_in, pages_out, ns);
        },
        None => {
            put_pressure(out, None, None, ns);
            put_swap(out, None, None, ns);
        },
    }
    let top_mem = cur.tally.top_mem.sorted();
    put_dashes(out, top_mem.len() == 0);
    put_top_mem(out, top_mem);
    proof {
        assert(memory_header(*old(cur)) == memory_header(*cur));
        assert(out@ =~= old(out)@ + memory_section(referenced(prev), *cur));
    }
}

fn put_io_section(out: &mut Vec<Mark>, prev: Option<&Sample>, cur: &mut Sample, ns: u64)
    requires
        old(cur).wf(),
        ns == elapsed(referenced(prev), *old(cur)),
    ensures
        final(out)@ == old(out)@ + io_section(referenced(prev), *final(cur)),
        final(cur).wf(),
        *final(cur) == (Sample {
            tally: (Tally { top_io: final(cur).tally.top_io, ..old(cur).tally }),
            ..*old(cur)
        }),
        ranking::descending(final(cur).tally.top_io@, ranking::by_total()),
        final(cur).tally.top_io@.to_multiset() == old(cur).tally.top_io@.to_multiset(),
{
    put_io(out, cur.tally.io_total_dr, cur.tally.io_total_dw, ns);
    let top_io = cur.tally.top_io.sorted();
    put_dashes(out, top_io.len() == 0);
    put_top_io(out, top_io, ns);
    proof {
        assert(out@ =~= old(out)@ + io_section(referenced(prev), *cur));
    }
}

/// Lays the tooltip of `cur` out. `elapsed_ms` is the time since `prev` in whole milliseconds.
pub fn render(
    prev: Option<&Sample>,
    cur: &mut Sample,
    elapsed_ms: u64,
    collected_ns: u64,
    interval_ms: u64,
) -> (out: Vec<Mark>)
    requires
        old(cur).wf(),
    ensures
        final(cur).wf(),
        arranged(*old(cur), *final(cur)),
        out@ == tooltip(referenced(prev), *final(cur), elapsed_ms, collected_ns, interval_ms),
{
    let ghost p = referenced(prev);
    let ns: u64 = match prev {
        Some(s) => cur.at_ns.saturating_sub(s.at_ns),
        None => 0,
    };
    let mut out: Vec<Mark> = Vec::new();
    put_load(&mut out, cur);
    put_igpu(&mut out, prev, cur, elapsed_ms);
    put_profile(&mut out, cur);
    let ghost head = out@;
    let ghost s0 = *cur;
    put_cpu_section(&mut out, prev, cur, ns);
    let ghost s1 = *cur;
    put_memory_section(&mut out, prev, cur, ns);
    let ghost s2 = *cur;
    put_io_section(&mut out, prev, cur, ns);
    put_footer(&mut out, cur, collected_ns, interval_ms);
    proof {
        assert(head =~= load_line(s0) + igpu_line(p, s0, elapsed_ms) + profile_lines(s0));
        assert(load_line(s0) == load_line(*cur));
        assert(igpu_line(p, s0, elapsed_ms) == igpu_line(p, *cur, elapsed_ms));
        assert(profile_lines(s0) == profile_lines(*cur));
        assert(cpu_header(p is Some, s1) == cpu_header(p is Some, *cur));
        assert(cpu_section(p, s1) == cpu_section(p, *cur));
        assert(memory_header(s2) == memory_header(*cur));
        assert(memory_section(p, s2) == memory_section(p, *cur));
        assert(out@ =~= tooltip(p, *cur, elapsed_ms, collected_ns, interval_ms));
    }
    out
}

// ---- The class ----

/// The class of a load average: critical from two per core on, a warning from one per core on.
pub open spec fn class_of(load: u64, cores: u32) -> Seq<char> {
    let per_core: int = 65536 * if cores == 0 {
        1
    } else {
        cores as int
    };
    if load >= 2 * per_core {
        "critical"@
    } else if load >= per_core {
        "warning"@
    } else {
        "normal"@
    }
}

/// The class of a load average, which is given in units of 1/65536.
pub fn load_class(load: u64, cores: u32) -> (r: &'static str)
    ensures
        r@ == class_of(load, cores),
{
    let per_core: u64 = 65536 * if cores == 0 {
        1
    } else {
        cores as u64
    };
    if load >= 2 * per_core {
        "critical"
    } else if load >= per_core {
        "warning"
    } else {
        "normal"
    }
}

// ---- Writing the numbers in ----

/// The numbers that stand in `m`, in order.
pub open spec fn readings(m: Seq<Mark>) -> Seq<Reading>
    decreases m.len(),
{
    if m.len() == 0 {
        Seq::empty()
    } else {
        match m.last() {
            Mark::Number(r) => readings(m.drop_last()).push(r),
            Mark::Char(c) => readings(m.drop_last()),
        }
    }
}

/// `m` with its numbers written as `numbers`, in order.
pub open spec fn written(m: Seq<Mark>, numbers: Seq<Seq<char>>) -> Seq<char>
    decreases m.len(),
{
    if m.len() == 0 {
        Seq::empty()
    } else {
        match m.last() {
            Mark::Char(c) => written(m.drop_last(), numbers).push(c),
            Mark::Number(r) => written(m.drop_last(), numbers.drop_last()) + numbers.last(),
        }
    }
}

/// The numbers that stand in `m`, in order.
pub fn numbers_in(m: &[Mark]) -> (r: Vec<Reading>)
    ensures
        r@ == readings(m@),
{
    let mut r: Vec<Reading> = Vec::new();
    let mut i: usize = 0;
    proof {
        assert(m@.take(0) =~= Seq::empty());
    }
    while i < m.len()
        invariant
            i <= m@.len(),
            r@ == readings(m@.take(i as int)),
        decreases m@.len() - i,
    {
        proof {
            assert(m@.take(i + 1).drop_last() =~= m@.take(i as int));
        }
        if let Mark::Number(n) = m[i] {
            r.push(n);
        }
        i += 1;
    }
    proof {
        assert(m@.take(i as int) =~= m@);
    }
    r
}

/// Writes `m` out, with `numbers` for its numbers.
pub fn write_out(m: &[Mark], numbers: &Vec<String>) -> (r: String)
    requires
        numbers@.len() == readings(m@).len(),
    ensures
        r@ == written(m@, text::strings(numbers@)),
{
    let mut r = String::new();
    let mut i: usize = 0;
    let mut used: usize = 0;
    let count: usize = numbers.len();
    let ghost all = text::strings(numbers@);
    proof {
        assert(m@.take(0) =~= Seq::empty());
    }
    while i < m.len()
        invariant
            i <= m@.len(),
            all == text::strings(numbers@),
            count == numbers@.len(),
            numbers@.len() == readings(m@).len(),
            used == readings(m@.take(i as int)).len(),
            used <= numbers@.len(),
            r@ == written(m@.take(i as int), all.take(used as int)),
        decreases m@.len() - i,
    {
        proof {
            assert(m@.take(i + 1).drop_last() =~= m@.take(i as int));
            lemma_fewer_readings(m@, i + 1);
        }
        match m[i] {
            Mark::Char(c) => {
                r.push(c);
            },
            Mark::Number(_) => {
                r.append(numbers[used].as_str());
                proof {
                    assert(all.take(used + 1).drop_last() =~= all.take(used as int));
                    assert(all.take(used + 1).last() == numbers@[used as int]@);
                }
                used += 1;
            },
        }
        i += 1;
    }
    proof {
        assert(m@.take(i as int) =~= m@);
        assert(all.take(used as int) =~= all);
    }
    r
}

proof fn lemma_fewer_readings(m: Seq<Mark>, n: int)
    requires
        0 <= n <= m.len(),
    ensures
        readings(m.take(n)).len() <= readings(m).len(),
    decreases m.len() - n,
{
    if n < m.len() {
        assert(m.take(n + 1).drop_last() =~= m.take(n));
        lemma_fewer_readings(m, n + 1);
    } else {
        assert(m.take(n) =~= m);
    }
}

// ---- What the tooltip promises ----

/// Sources that are missing show as `n/a`.
pub proof fn missing_sources_show_as_not_available(prev: Option<Sample>, cur: Sample, elapsed_ms: u64)
    ensures
        cur.gpu_freq is None || cur.gpu_max is None ==> igpu_line(prev, cur, elapsed_ms) == marks("\niGPU: "@) + marks(
            "n/a"@,
        ),
        cur.profile_len == 0 && cur.throttle.1 == 0 ==> profile_lines(cur) == marks("\nProfile: "@) + marks("n/a"@),
        cur.cpu_temp is None && (cur.cpu_freq is None || cur.cpu_fmax is None) ==> cpu_header(false, cur) == marks(
            "\n\n CPU    "@,
        ) + marks("n/a    "@) + marks("?"@) + marks("%    "@) + marks("n/a"@),
        cur.psi_mem_some_total_us is None || cur.psi_mem_full_total_us is None ==> pressure_shown(prev, cur) == marks(
            "\n PSI some/full: n/a"@,
        ),
        cur.pswpin_pages is None || cur.pswpout_pages is None ==> swap_shown(prev, cur) == marks("\n Swap: n/a"@),
{
    assert(marks("\nProfile: "@) + marks("n/a"@) + Seq::<Mark>::empty() =~= marks("\nProfile: "@) + marks("n/a"@));
}

/// The share of memory that is shown is at most a hundred percent, as long as a hundred times the
/// memory in use fits 64 bits.
pub proof fn memory_share_is_a_percentage(cur: Sample)
    requires
        100 * used(cur) <= u64::MAX,
    ensures
        used_percent(cur) <= 100,
        cur.mem_total > 0 && cur.mem_available == 0 ==> used_percent(cur) == 100,
{
    let t = cur.mem_total as nat;
    let n = (100 * used(cur)) as nat;
    if t > 0 {
        assert(procfs::wrapped(n) == n);
        assert(n / t <= 100) by (nonlinear_arith)
            requires
                n <= 100 * t,
                t > 0,
        ;
        if cur.mem_available == 0 {
            assert(n / t == 100) by (nonlinear_arith)
                requires
                    n == 100 * t,
                    t > 0,
            ;
        }
    }
}

/// The share of the CPU time that is shown lies between none and a hundred percent, whatever the
/// tasks add up to, and is none where there was no CPU time.
pub proof fn cpu_use_is_a_percentage(cur: Sample)
    ensures
        ({
            let used = sample::used_time(cur.busy_ns, cur.total_ns);
            &&& 0 <= 100 * used <= 100 * cur.total_ns
            &&& cur.busy_ns <= cur.total_ns ==> used == cur.busy_ns
            &&& cur.total_ns == 0 ==> used == 0
        }),
        cpu_header(true, cur).contains(
            Mark::Number(
                Reading::CpuPercent {
                    used_ns: sample::used_time(cur.busy_ns, cur.total_ns),
                    total_ns: cur.total_ns,
                },
            ),
        ),
{
    let n = (marks("\n\n CPU    "@) + match cur.cpu_temp {
        Some(t) => whole((t / 1000) as nat) + marks("°C    "@),
        None => marks("n/a    "@),
    }).len() as int;
    assert(cpu_header(true, cur)[n] is Number);
}

/// Without a previous sample, or without time between the two, no rate is shown.
pub proof fn rates_take_two_samples(prev: Option<Sample>, cur: Sample, read: u64, bytes_written: u64)
    requires
        elapsed(prev, cur) == 0,
    ensures
        pressure_shown(prev, cur) == marks("\n PSI some/full: n/a"@),
        swap_shown(prev, cur) == marks("\n Swap: n/a"@),
        io_header(read, bytes_written, elapsed(prev, cur)) == marks("\n\n Task IO/s"@),
        igpu_busy(prev, cur, 0) == Seq::<Mark>::empty(),
{
    assert(marks("\n\n Task IO/s"@) + Seq::<Mark>::empty() =~= marks("\n\n Task IO/s"@));
}

/// The tooltip ends by saying whether kernel threads are included.
pub proof fn the_footer_reports_kernel_threads(
    prev: Option<Sample>,
    cur: Sample,
    elapsed_ms: u64,
    collected_ns: u64,
    interval_ms: u64,
)
    ensures
        ({
            let end = marks("\nKernel threads "@) + marks(
                if cur.include_kthreads {
                    "included"@
                } else {
                    "excluded"@
                },
            );
            let all = tooltip(prev, cur, elapsed_ms, collected_ns, interval_ms);
            all.len() >= end.len() && all.skip(all.len() - end.len()) == end
        }),
{
    let end = marks("\nKernel threads "@) + marks(
        if cur.include_kthreads {
            "included"@
        } else {
            "excluded"@
        },
    );
    let all = tooltip(prev, cur, elapsed_ms, collected_ns, interval_ms);
    let foot = footer(cur, collected_ns, interval_ms);
    assert(foot.skip(foot.len() - end.len()) =~= end);
    assert(all.skip(all.len() - foot.len()) =~= foot);
    assert(all.skip(all.len() - end.len()) =~= foot.skip(foot.len() - end.len()));
}

// ---- What stands in the tooltip ----

/// `part` stands somewhere in `all`, in one piece.
pub open spec fn shows(all: Seq<Mark>, part: Seq<Mark>) -> bool {
    exists|i: int| 0 <= i && i + part.len() <= all.len() && #[trigger] all.subrange(i, i + part.len()) == part
}

/// The pieces `f(0)` to `f(n - 1)`, one behind the other.
pub open spec fn in_turn(n: nat, f: spec_fn(int) -> Seq<Mark>) -> Seq<Mark>
    decreases n,
{
    if n == 0 {
        Seq::empty()
    } else {
        in_turn((n - 1) as nat, f) + f(n - 1)
    }
}

proof fn lemma_shows(a: Seq<Mark>, part: Seq<Mark>, b: Seq<Mark>)
    ensures
        shows(a + part + b, part),
{
    let all = a + part + b;
    assert(all.subrange(a.len() as int, a.len() as int + part.len()) =~= part);
}

/// Text stands in the tooltip character by character.
pub proof fn text_is_shown_as_it_is(s: Seq<char>)
    ensures
        marks(s).len() == s.len(),
        forall|i: int| 0 <= i < s.len() ==> #[trigger] marks(s)[i] == Mark::Char(s[i]),
{
}

/// Each section stands in the tooltip, in its order.
proof fn lemma_sections(prev: Option<Sample>, cur: Sample, elapsed_ms: u64, collected_ns: u64, interval_ms: u64)
    ensures
        ({
            let all = tooltip(prev, cur, elapsed_ms, collected_ns, interval_ms);
            &&& shows(all, cpu_section(prev, cur))
            &&& shows(all, memory_section(prev, cur))
            &&& shows(all, io_section(prev, cur))
        }),
{
    let all = tooltip(prev, cur, elapsed_ms, collected_ns, interval_ms);
    let head = load_line(cur) + igpu_line(prev, cur, elapsed_ms) + profile_lines(cur);
    let cpu = cpu_section(prev, cur);
    let mem = memory_section(prev, cur);
    let io = io_section(prev, cur);
    let foot = footer(cur, collected_ns, interval_ms);
    lemma_shows(head, cpu, mem + io + foot);
    assert(all =~= head + cpu + (mem + io + foot));
    lemma_shows(head + cpu, mem, io + foot);
    assert(all =~= head + cpu + mem + (io + foot));
    lemma_shows(head + cpu + mem, io, foot);
}

/// By how much `a` is larger than `b`.
pub open spec fn over(a: u64, b: u64) -> int {
    if a >= b {
        a - b
    } else {
        0
    }
}

/// The memory section: what is in use and in all, the share of it, what tasks were stalled and
/// what pages were swapped since the previous sample, and the processes with the most, each with
/// its memory and its name. A counter that went back shows as unchanged.
pub proof fn the_memory_section_tells_growth(
    p: Sample,
    cur: Sample,
    elapsed_ms: u64,
    collected_ns: u64,
    interval_ms: u64,
)
    requires
        cur.at_ns > p.at_ns,
        p.psi_mem_some_total_us is Some && cur.psi_mem_some_total_us is Some,
        p.psi_mem_full_total_us is Some && cur.psi_mem_full_total_us is Some,
        p.pswpin_pages is Some && cur.pswpin_pages is Some,
        p.pswpout_pages is Some && cur.pswpout_pages is Some,
        cur.mem_total > 0,
        100 * over(cur.mem_total, cur.mem_available) <= u64::MAX,
    ensures
        ({
            let elapsed_ns = (cur.at_ns - p.at_ns) as u64;
            let in_use = over(cur.mem_total, cur.mem_available);
            let some = over(cur.psi_mem_some_total_us->0, p.psi_mem_some_total_us->0) as u64;
            let full = over(cur.psi_mem_full_total_us->0, p.psi_mem_full_total_us->0) as u64;
            let pages_in = over(cur.pswpin_pages->0, p.pswpin_pages->0) as u64;
            let pages_out = over(cur.pswpout_pages->0, p.pswpout_pages->0) as u64;
            let part = (marks("\n\n Memory    "@) + seq![Mark::Number(Reading::Gibibytes(in_use as u64))] + marks("/"@)
                    + seq![Mark::Number(Reading::Gibibytes(cur.mem_total))] + marks(" GiB ("@) + marks(
                    text::decimal((100 * in_use / cur.mem_total as int) as nat),
                ) + marks("%)"@)) + (marks("\n PSI some/full: "@) + seq![
                    Mark::Number(Reading::Pressure { stalled_us: some, elapsed_ns }),
                ] + marks("%/"@) + seq![Mark::Number(Reading::Pressure { stalled_us: full, elapsed_ns })] + marks("%"@))
                    + (marks("\n Swap: "@) + seq![
                    Mark::Number(Reading::PageRateSum { pages_in, pages_out, elapsed_ns }),
                ] + marks(" pages/s (in:"@) + seq![Mark::Number(Reading::PageRate { pages: pages_in, elapsed_ns })]
                    + marks(" out:"@) + seq![Mark::Number(Reading::PageRate { pages: pages_out, elapsed_ns })] + marks(
                    ")"@,
                )) + (if cur.tally.top_mem@.len() == 0 {
                    marks("\n  ---"@)
                } else {
                    in_turn(
                        cur.tally.top_mem@.len(),
                        |i: int|
                            marks("\n"@) + seq![Mark::Number(Reading::Mebibytes(cur.tally.top_mem@[i].val))] + marks(
                                "M  "@,
                            ) + shown(cur.tally.top_mem@[i].name),
                    )
                });
            &&& memory_section(Some(p), cur) == part
            &&& shows(tooltip(Some(p), cur, elapsed_ms, collected_ns, interval_ms), part)
        }),
{
    lemma_sections(Some(p), cur, elapsed_ms, collected_ns, interval_ms);
    let f = |i: int|
        marks("\n"@) + seq![Mark::Number(Reading::Mebibytes(cur.tally.top_mem@[i].val))] + marks("M  "@) + shown(
            cur.tally.top_mem@[i].name,
        );
    let n = cur.tally.top_mem@.len();
    lemma_memory_lines(cur.tally.top_mem@, n as int, f);
    assert(cur.tally.top_mem@.take(n as int) =~= cur.tally.top_mem@);
    let hundredfold = (100 * over(cur.mem_total, cur.mem_available)) as nat;
    assert(procfs::wrapped(hundredfold) == hundredfold);
    let elapsed_ns = (cur.at_ns - p.at_ns) as u64;
    let in_use = over(cur.mem_total, cur.mem_available);
    let some = over(cur.psi_mem_some_total_us->0, p.psi_mem_some_total_us->0) as u64;
    let full = over(cur.psi_mem_full_total_us->0, p.psi_mem_full_total_us->0) as u64;
    let pages_in = over(cur.pswpin_pages->0, p.pswpin_pages->0) as u64;
    let pages_out = over(cur.pswpout_pages->0, p.pswpout_pages->0) as u64;
    let head = marks("\n\n Memory    "@) + seq![Mark::Number(Reading::Gibibytes(in_use as u64))] + marks("/"@) + seq![
        Mark::Number(Reading::Gibibytes(cur.mem_total)),
    ] + marks(" GiB ("@) + marks(text::decimal((100 * in_use / cur.mem_total as int) as nat)) + marks("%)"@);
    let psi = marks("\n PSI some/full: "@) + seq![Mark::Number(Reading::Pressure { stalled_us: some, elapsed_ns })]
        + marks("%/"@) + seq![Mark::Number(Reading::Pressure { stalled_us: full, elapsed_ns })] + marks("%"@);
    let swap = marks("\n Swap: "@) + seq![Mark::Number(Reading::PageRateSum { pages_in, pages_out, elapsed_ns })] + marks(
        " pages/s (in:"@,
    ) + seq![Mark::Number(Reading::PageRate { pages: pages_in, elapsed_ns })] + marks(" out:"@) + seq![
        Mark::Number(Reading::PageRate { pages: pages_out, elapsed_ns }),
    ] + marks(")"@);
    let tail = if n == 0 {
        marks("\n  ---"@)
    } else {
        in_turn(n, f)
    };
    assert(memory_header(cur) == head);
    assert(pressure_shown(Some(p), cur) == psi);
    assert(swap_shown(Some(p), cur) == swap);
    let dashes = or_dashes(n == 0);
    let lines = memory_lines(cur.tally.top_mem@);
    if n == 0 {
        assert(dashes + lines =~= tail);
    } else {
        assert(dashes + lines =~= tail);
    }
    lemma_regrouped(head + psi + swap, dashes, lines);
}

proof fn lemma_regrouped(a: Seq<Mark>, b: Seq<Mark>, c: Seq<Mark>)
    ensures
        a + b + c == a + (b + c),
{
    assert(a + b + c =~= a + (b + c));
}

/// What stands in a part stands in the whole.
proof fn lemma_within(all: Seq<Mark>, part: Seq<Mark>, inner: Seq<Mark>)
    requires
        shows(all, part),
        shows(part, inner),
    ensures
        shows(all, inner),
{
    let i = choose|i: int| 0 <= i && i + part.len() <= all.len() && #[trigger] all.subrange(i, i + part.len()) == part;
    let j = choose|j: int|
        0 <= j && j + inner.len() <= part.len() && #[trigger] part.subrange(j, j + inner.len()) == inner;
    assert(all.subrange(i + j, i + j + inner.len()) =~= inner) by {
        assert(all.subrange(i + j, i + j + inner.len()) =~= all.subrange(i, i + part.len()).subrange(
            j,
            j + inner.len(),
        ));
    }
}

/// The second and the third of five parts stand in the whole.
proof fn lemma_parts(a: Seq<Mark>, b: Seq<Mark>, c: Seq<Mark>, d: Seq<Mark>, e: Seq<Mark>)
    ensures
        shows(a + b + c + d + e, b),
        shows(a + b + c + d + e, c),
{
    lemma_shows(a, b, c + d + e);
    assert(a + b + c + d + e =~= a + b + (c + d + e));
    lemma_shows(a + b, c, d + e);
    assert(a + b + c + d + e =~= a + b + c + (d + e));
}

proof fn lemma_memory_lines(top: Seq<Ranked>, n: int, f: spec_fn(int) -> Seq<Mark>)
    requires
        0 <= n <= top.len(),
        forall|i: int|
            0 <= i < top.len() ==> #[trigger] f(i) == marks("\n"@) + seq![Mark::Number(Reading::Mebibytes(top[i].val))]
                + marks("M  "@) + shown(top[i].name),
    ensures
        memory_lines(top.take(n)) == in_turn(n as nat, f),
    decreases n,
{
    if n > 0 {
        lemma_memory_lines(top, n - 1, f);
        assert(top.take(n).drop_last() =~= top.take(n - 1));
        assert(top.take(n).last() == top[n - 1]);
        assert(f(n - 1) == marks("\n"@) + number(Reading::Mebibytes(top[n - 1].val)) + marks("M  "@) + shown(
            top[n - 1].name,
        ));
    }
}

/// Pressure and swapping show only where time has passed and both samples have both counters. They
/// stand behind what is in use of the memory, and before the processes with the most.
pub proof fn growth_takes_both_samples(
    prev: Option<Sample>,
    cur: Sample,
    elapsed_ms: u64,
    collected_ns: u64,
    interval_ms: u64,
)
    ensures
        ({
            let all = tooltip(prev, cur, elapsed_ms, collected_ns, interval_ms);
            let timed = prev is Some && cur.at_ns > prev->0.at_ns;
            &&& !(timed && cur.psi_mem_some_total_us is Some && prev->0.psi_mem_some_total_us is Some
                && cur.psi_mem_full_total_us is Some && prev->0.psi_mem_full_total_us is Some) ==> pressure_shown(prev, cur)
                == marks("\n PSI some/full: n/a"@) && shows(all, marks("\n PSI some/full: n/a"@))
            &&& !(timed && cur.pswpin_pages is Some && prev->0.pswpin_pages is Some && cur.pswpout_pages is Some
                && prev->0.pswpout_pages is Some) ==> swap_shown(prev, cur) == marks("\n Swap: n/a"@) && shows(
                all,
                marks("\n Swap: n/a"@),
            )
            &&& memory_section(prev, cur) == memory_header(cur) + pressure_shown(prev, cur) + swap_shown(prev, cur) + (
            if cur.tally.top_mem@.len() == 0 {
                marks("\n  ---"@)
            } else {
                in_turn(
                    cur.tally.top_mem@.len(),
                    |i: int|
                        marks("\n"@) + seq![Mark::Number(Reading::Mebibytes(cur.tally.top_mem@[i].val))] + marks("M  "@)
                            + shown(cur.tally.top_mem@[i].name),
                )
            })
            &&& 100 * over(cur.mem_total, cur.mem_available) <= u64::MAX ==> memory_header(cur) == marks(
                "\n\n Memory    "@,
            ) + seq![Mark::Number(Reading::Gibibytes(over(cur.mem_total, cur.mem_available) as u64))] + marks("/"@) + seq![
                Mark::Number(Reading::Gibibytes(cur.mem_total)),
            ] + marks(" GiB ("@) + marks(
                text::decimal(
                    if cur.mem_total == 0 {
                        0
                    } else {
                        (100 * over(cur.mem_total, cur.mem_available) / cur.mem_total as int) as nat
                    },
                ),
            ) + marks("%)"@)
        }),
{
    let all = tooltip(prev, cur, elapsed_ms, collected_ns, interval_ms);
    let psi = pressure_shown(prev, cur);
    let swap = swap_shown(prev, cur);
    lemma_sections(prev, cur, elapsed_ms, collected_ns, interval_ms);
    lemma_parts(
        memory_header(cur),
        psi,
        swap,
        or_dashes(cur.tally.top_mem@.len() == 0),
        memory_lines(cur.tally.top_mem@),
    );
    lemma_within(all, memory_section(prev, cur), psi);
    lemma_within(all, memory_section(prev, cur), swap);
    let f = |i: int|
        marks("\n"@) + seq![Mark::Number(Reading::Mebibytes(cur.tally.top_mem@[i].val))] + marks("M  "@) + shown(
            cur.tally.top_mem@[i].name,
        );
    let n = cur.tally.top_mem@.len();
    lemma_memory_lines(cur.tally.top_mem@, n as int, f);
    assert(cur.tally.top_mem@.take(n as int) =~= cur.tally.top_mem@);
    let dashes = or_dashes(n == 0);
    let lines = memory_lines(cur.tally.top_mem@);
    if n == 0 {
        assert(dashes + lines =~= marks("\n  ---"@));
    } else {
        assert(dashes + lines =~= in_turn(n, f));
    }
    lemma_regrouped(memory_header(cur) + psi + swap, dashes, lines);
    let hundredfold = (100 * over(cur.mem_total, cur.mem_available)) as nat;
    if hundredfold <= u64::MAX {
        assert(procfs::wrapped(hundredfold) == hundredfold);
    }
}

/// The CPU section: temperature in whole degrees, the share of the CPU time that was used, the
/// frequencies, then every blocked task with its state, and the processes with the most CPU time,
/// each with its time and its name. A dash line stands where there is neither.
pub proof fn the_cpu_section_tells_use(
    prev: Option<Sample>,
    cur: Sample,
    elapsed_ms: u64,
    collected_ns: u64,
    interval_ms: u64,
)
    ensures
        ({
            let elapsed_ns = (match prev {
                Some(p) => over(cur.at_ns, p.at_ns),
                None => 0,
            }) as u64;
            let part = marks("\n\n CPU    "@) + (match cur.cpu_temp {
                    Some(t) => marks(text::decimal((t as int / 1000) as nat)) + marks("°C    "@),
                    None => marks("n/a    "@),
                }) + (if prev is Some {
                    seq![
                        Mark::Number(
                            Reading::CpuPercent {
                                used_ns: if cur.busy_ns > cur.total_ns {
                                    cur.total_ns
                                } else {
                                    cur.busy_ns
                                },
                                total_ns: cur.total_ns,
                            },
                        ),
                    ]
                } else {
                    marks("?"@)
                }) + marks("%    "@) + (match (cur.cpu_freq, cur.cpu_fmax) {
                    (Some(freq), Some(max)) => marks("CPU0 "@) + seq![Mark::Number(Reading::Gigahertz(freq))] + marks(
                        "/"@,
                    ) + seq![Mark::Number(Reading::Gigahertz(max))] + marks(" GHz"@),
                    _ => marks("n/a"@),
                }) + in_turn(
                    cur.tally.blocked@.len(),
                    |i: int|
                        marks("\n    "@) + seq![Mark::Char(cur.tally.blocked@[i].state as char)] + marks("  "@) + shown(
                            cur.tally.blocked@[i].name,
                        ),
                ) + (if cur.tally.top_cpu@.len() == 0 && cur.tally.blocked@.len() == 0 {
                    marks("\n  ---"@)
                } else {
                    in_turn(
                        cur.tally.top_cpu@.len(),
                        |i: int|
                            marks("\n"@) + seq![
                                Mark::Number(
                                    Reading::CpuShare {
                                        cpu_ns: cur.tally.top_cpu@[i].val,
                                        elapsed_ns,
                                        cores: cur.cores,
                                    },
                                ),
                            ] + marks("%  "@) + shown(cur.tally.top_cpu@[i].name),
                    )
                });
            &&& cpu_section(prev, cur) == part
            &&& shows(tooltip(prev, cur, elapsed_ms, collected_ns, interval_ms), part)
        }),
{
    lemma_sections(prev, cur, elapsed_ms, collected_ns, interval_ms);
    let elapsed_ns = (match prev {
        Some(p) => over(cur.at_ns, p.at_ns),
        None => 0,
    }) as u64;
    let blocked = cur.tally.blocked@;
    let top = cur.tally.top_cpu@;
    let f = |i: int|
        marks("\n    "@) + seq![Mark::Char(cur.tally.blocked@[i].state as char)] + marks("  "@) + shown(
            cur.tally.blocked@[i].name,
        );
    let g = |i: int|
        marks("\n"@) + seq![
            Mark::Number(Reading::CpuShare { cpu_ns: cur.tally.top_cpu@[i].val, elapsed_ns, cores: cur.cores }),
        ] + marks("%  "@) + shown(cur.tally.top_cpu@[i].name);
    lemma_blocked_lines(blocked, blocked.len() as int, f);
    lemma_cpu_lines(top, elapsed_ns, cur.cores, top.len() as int, g);
    assert(blocked.take(blocked.len() as int) =~= blocked);
    assert(top.take(top.len() as int) =~= top);
    let dash = or_dashes(top.len() == 0 && blocked.len() == 0);
    let tail = if top.len() == 0 && blocked.len() == 0 {
        marks("\n  ---"@)
    } else {
        in_turn(top.len(), g)
    };
    assert(dash + cpu_lines(top, elapsed_ns, cur.cores) =~= tail);
    let head = cpu_header(prev is Some, cur);
    assert(cpu_section(prev, cur) =~= head + in_turn(blocked.len(), f) + tail);
}

proof fn lemma_blocked_lines(tasks: Seq<Blocked>, n: int, f: spec_fn(int) -> Seq<Mark>)
    requires
        0 <= n <= tasks.len(),
        forall|i: int|
            0 <= i < tasks.len() ==> #[trigger] f(i) == marks("\n    "@) + seq![Mark::Char(tasks[i].state as char)]
                + marks("  "@) + shown(tasks[i].name),
    ensures
        blocked_lines(tasks.take(n)) == in_turn(n as nat, f),
    decreases n,
{
    if n > 0 {
        lemma_blocked_lines(tasks, n - 1, f);
        assert(tasks.take(n).drop_last() =~= tasks.take(n - 1));
        let b = tasks[n - 1];
        assert(tasks.take(n).last() == b);
        assert(marks(seq![b.state as char]) =~= seq![Mark::Char(b.state as char)]);
        assert(f(n - 1) == marks("\n    "@) + marks(seq![b.state as char]) + marks("  "@) + shown(b.name));
    }
}

proof fn lemma_cpu_lines(top: Seq<Ranked>, elapsed_ns: u64, cores: u32, n: int, f: spec_fn(int) -> Seq<Mark>)
    requires
        0 <= n <= top.len(),
        forall|i: int|
            0 <= i < top.len() ==> #[trigger] f(i) == marks("\n"@) + seq![
                Mark::Number(Reading::CpuShare { cpu_ns: top[i].val, elapsed_ns, cores }),
            ] + marks("%  "@) + shown(top[i].name),
    ensures
        cpu_lines(top.take(n), elapsed_ns, cores) == in_turn(n as nat, f),
    decreases n,
{
    if n > 0 {
        lemma_cpu_lines(top, elapsed_ns, cores, n - 1, f);
        assert(top.take(n).drop_last() =~= top.take(n - 1));
        assert(top.take(n).last() == top[n - 1]);
        assert(f(n - 1) == marks("\n"@) + number(Reading::CpuShare { cpu_ns: top[n - 1].val, elapsed_ns, cores })
            + marks("%  "@) + shown(top[n - 1].name));
    }
}

/// The I/O section: what all tasks read and wrote since the previous sample, and the processes
/// with the most, each with its total, its name, its reads and its writes.
pub proof fn the_io_section_tells_rates(
    prev: Option<Sample>,
    cur: Sample,
    elapsed_ms: u64,
    collected_ns: u64,
    interval_ms: u64,
)
    ensures
        ({
            let elapsed_ns = (match prev {
                Some(p) => over(cur.at_ns, p.at_ns),
                None => 0,
            }) as u64;
            let read = cur.tally.io_total_dr;
            let written = cur.tally.io_total_dw;
            let part = marks("\n\n Task IO/s"@) + (if elapsed_ns > 0 {
                    marks(" "@) + seq![Mark::Number(Reading::IoRateSum { read, written, elapsed_ns })] + marks("M/s (R:"@)
                        + seq![Mark::Number(Reading::IoRate { bytes: read, elapsed_ns })] + marks(" W:"@) + seq![
                        Mark::Number(Reading::IoRate { bytes: written, elapsed_ns }),
                    ] + marks(")"@)
                } else {
                    Seq::empty()
                }) + (if cur.tally.top_io@.len() == 0 {
                    marks("\n  ---"@)
                } else {
                    in_turn(
                        cur.tally.top_io@.len(),
                        |i: int|
                            marks("\n"@) + seq![
                                Mark::Number(Reading::IoRateWide { bytes: cur.tally.top_io@[i].total, elapsed_ns }),
                            ] + marks("M/s  "@) + shown(cur.tally.top_io@[i].name) + marks(" (R:"@) + seq![
                                Mark::Number(Reading::IoRate { bytes: cur.tally.top_io@[i].dr, elapsed_ns }),
                            ] + marks(" W:"@) + seq![
                                Mark::Number(Reading::IoRate { bytes: cur.tally.top_io@[i].dw, elapsed_ns }),
                            ] + marks(")"@),
                    )
                });
            &&& io_section(prev, cur) == part
            &&& shows(tooltip(prev, cur, elapsed_ms, collected_ns, interval_ms), part)
        }),
{
    lemma_sections(prev, cur, elapsed_ms, collected_ns, interval_ms);
    let elapsed_ns = (match prev {
        Some(p) => over(cur.at_ns, p.at_ns),
        None => 0,
    }) as u64;
    let top = cur.tally.top_io@;
    let f = |i: int|
        marks("\n"@) + seq![Mark::Number(Reading::IoRateWide { bytes: cur.tally.top_io@[i].total, elapsed_ns })] + marks(
            "M/s  "@,
        ) + shown(cur.tally.top_io@[i].name) + marks(" (R:"@) + seq![
            Mark::Number(Reading::IoRate { bytes: cur.tally.top_io@[i].dr, elapsed_ns }),
        ] + marks(" W:"@) + seq![Mark::Number(Reading::IoRate { bytes: cur.tally.top_io@[i].dw, elapsed_ns })] + marks(
            ")"@,
        );
    lemma_io_lines(top, elapsed_ns, top.len() as int, f);
    assert(top.take(top.len() as int) =~= top);
    let tail = if top.len() == 0 {
        marks("\n  ---"@)
    } else {
        in_turn(top.len(), f)
    };
    assert(or_dashes(top.len() == 0) + io_lines(top, elapsed_ns) =~= tail);
    assert(io_section(prev, cur) =~= io_header(cur.tally.io_total_dr, cur.tally.io_total_dw, elapsed_ns) + tail);
}

proof fn lemma_io_lines(top: Seq<IoRanked>, elapsed_ns: u64, n: int, f: spec_fn(int) -> Seq<Mark>)
    requires
        0 <= n <= top.len(),
        forall|i: int|
            0 <= i < top.len() ==> #[trigger] f(i) == marks("\n"@) + seq![
                Mark::Number(Reading::IoRateWide { bytes: top[i].total, elapsed_ns }),
            ] + marks("M/s  "@) + shown(top[i].name) + marks(" (R:"@) + seq![
                Mark::Number(Reading::IoRate { bytes: top[i].dr, elapsed_ns }),
            ] + marks(" W:"@) + seq![Mark::Number(Reading::IoRate { bytes: top[i].dw, elapsed_ns })] + marks(")"@),
    ensures
        io_lines(top.take(n), elapsed_ns) == in_turn(n as nat, f),
    decreases n,
{
    if n > 0 {
        lemma_io_lines(top, elapsed_ns, n - 1, f);
        assert(top.take(n).drop_last() =~= top.take(n - 1));
        assert(top.take(n).last() == top[n - 1]);
        assert(f(n - 1) =~= io_line(top[n - 1], elapsed_ns));
    }
}

/// The tooltip begins with the three load averages and the number of cores, how busy the GPU was
/// and its frequencies, the power profile, and the throttle reasons where there are any. The GPU
/// was busy for what it did not sleep since the previous sample.
pub proof fn the_head_tells_load_gpu_and_profile(
    prev: Option<Sample>,
    cur: Sample,
    elapsed_ms: u64,
    collected_ns: u64,
    interval_ms: u64,
)
    ensures
        ({
            let all = tooltip(prev, cur, elapsed_ms, collected_ns, interval_ms);
            let load = marks("Load: "@) + seq![Mark::Number(Reading::Load(cur.loads@[0]))] + marks(" "@) + seq![
                Mark::Number(Reading::Load(cur.loads@[1])),
            ] + marks(" "@) + seq![Mark::Number(Reading::Load(cur.loads@[2]))] + marks(" ("@) + marks(
                text::decimal(cur.cores as nat),
            ) + marks(" cores)"@);
            let gpu = marks("\niGPU: "@) + match (cur.gpu_freq, cur.gpu_max) {
                (Some(freq), Some(max)) => (if elapsed_ms > 0 && prev is Some && cur.gpu_rc6_ms is Some
                    && prev->0.gpu_rc6_ms is Some {
                    seq![
                        Mark::Number(
                            Reading::IgpuBusy {
                                asleep_ms: over(cur.gpu_rc6_ms->0, prev->0.gpu_rc6_ms->0) as u64,
                                elapsed_ms,
                            },
                        ),
                    ] + marks("% @ "@)
                } else {
                    Seq::empty()
                }) + marks(text::decimal(freq as nat)) + marks("/"@) + marks(text::decimal(max as nat)) + marks(" MHz"@),
                _ => marks("n/a"@),
            };
            let profile = marks("\nProfile: "@) + (if cur.profile_len > 0 {
                shown(cur.profile@.take(cur.profile_len as int))
            } else {
                marks("n/a"@)
            }) + (if cur.throttle.1 > 0 {
                marks("\n⚠ Throttled: "@) + shown(cur.throttle.0@.take(cur.throttle.1 as int))
            } else {
                Seq::empty()
            });
            &&& load_line(cur) == load
            &&& igpu_line(prev, cur, elapsed_ms) == gpu
            &&& profile_lines(cur) == profile
            &&& (load + gpu + profile).len() <= all.len()
            &&& all.take((load + gpu + profile).len() as int) == load + gpu + profile
        }),
{
    lemma_front(
        load_line(cur) + igpu_line(prev, cur, elapsed_ms) + profile_lines(cur),
        cpu_section(prev, cur),
        memory_section(prev, cur),
        io_section(prev, cur),
        footer(cur, collected_ns, interval_ms),
    );
}

proof fn lemma_front(a: Seq<Mark>, b: Seq<Mark>, c: Seq<Mark>, d: Seq<Mark>, e: Seq<Mark>)
    ensures
        (a + b + c + d + e).len() >= a.len(),
        (a + b + c + d + e).take(a.len() as int) == a,
        (a + b + c + d + e).skip((a + b + c + d).len() as int) == e,
{
    assert((a + b + c + d + e).take(a.len() as int) =~= a);
    assert((a + b + c + d + e).skip((a + b + c + d).len() as int) =~= e);
}

/// The tooltip ends with how long the sample took, how often one is taken, and whether kernel
/// threads are in it. Before that stand its sections, one behind the other, with nothing between
/// them.
pub proof fn the_foot_tells_the_interval(
    prev: Option<Sample>,
    cur: Sample,
    elapsed_ms: u64,
    collected_ns: u64,
    interval_ms: u64,
)
    ensures
        ({
            let all = tooltip(prev, cur, elapsed_ms, collected_ns, interval_ms);
            let foot = marks("\n\nCollected in "@) + seq![Mark::Number(Reading::Milliseconds(collected_ns))] + marks(
                "ms (every "@,
            ) + marks(text::decimal(interval_ms as nat)) + marks("ms)"@) + marks("\nKernel threads "@) + marks(
                if cur.include_kthreads {
                    "included"@
                } else {
                    "excluded"@
                },
            );
            &&& footer(cur, collected_ns, interval_ms) == foot
            &&& foot.len() <= all.len()
            &&& all.skip(all.len() - foot.len()) == foot
            &&& all == (load_line(cur) + igpu_line(prev, cur, elapsed_ms) + profile_lines(cur)) + cpu_section(prev, cur)
                + memory_section(prev, cur) + io_section(prev, cur) + foot
        }),
{
    lemma_front(
        load_line(cur) + igpu_line(prev, cur, elapsed_ms) + profile_lines(cur),
        cpu_section(prev, cur),
        memory_section(prev, cur),
        io_section(prev, cur),
        footer(cur, collected_ns, interval_ms),
    );
}

/// The lists are shown in order: blocked tasks before dead ones, and in every ranking the larger
/// before the smaller, with the same entries as before.
pub proof fn lists_are_shown_in_order(a: Sample, b: Sample)
    requires
        arranged(a, b),
    ensures
        forall|i: int, j: int|
            0 <= i < j < b.tally.blocked@.len() ==> (#[trigger] b.tally.blocked@[i]).state <= (
            #[trigger] b.tally.blocked@[j]).state,
        forall|i: int, j: int|
            0 <= i < j < b.tally.top_cpu@.len() ==> (#[trigger] b.tally.top_cpu@[i]).val >= (
            #[trigger] b.tally.top_cpu@[j]).val,
        forall|i: int, j: int|
            0 <= i < j < b.tally.top_mem@.len() ==> (#[trigger] b.tally.top_mem@[i]).val >= (
            #[trigger] b.tally.top_mem@[j]).val,
        forall|i: int, j: int|
            0 <= i < j < b.tally.top_io@.len() ==> (#[trigger] b.tally.top_io@[i]).total >= (
            #[trigger] b.tally.top_io@[j]).total,
        b.tally.blocked@.to_multiset() == a.tally.blocked@.to_multiset(),
        b.tally.top_cpu@.to_multiset() == a.tally.top_cpu@.to_multiset(),
        b.tally.top_mem@.to_multiset() == a.tally.top_mem@.to_multiset(),
        b.tally.top_io@.to_multiset() == a.tally.top_io@.to_multiset(),
        b == (Sample { tally: b.tally, ..a }),
        b.tally.io_total_dr == a.tally.io_total_dr,
        b.tally.io_total_dw == a.tally.io_total_dw,
{
    assert forall|i: int, j: int| 0 <= i < j < b.tally.top_cpu@.len() implies (#[trigger] b.tally.top_cpu@[i]).val >= (
    #[trigger] b.tally.top_cpu@[j]).val by {
        assert(ranking::by_val()(b.tally.top_cpu@[i]) >= ranking::by_val()(b.tally.top_cpu@[j]));
    }
    assert forall|i: int, j: int| 0 <= i < j < b.tally.top_mem@.len() implies (#[trigger] b.tally.top_mem@[i]).val >= (
    #[trigger] b.tally.top_mem@[j]).val by {
        assert(ranking::by_val()(b.tally.top_mem@[i]) >= ranking::by_val()(b.tally.top_mem@[j]));
    }
    assert forall|i: int, j: int| 0 <= i < j < b.tally.top_io@.len() implies (#[trigger] b.tally.top_io@[i]).total >= (
    #[trigger] b.tally.top_io@[j]).total by {
        assert(ranking::by_total()(b.tally.top_io@[i]) >= ranking::by_total()(b.tally.top_io@[j]));
    }
}

/// The class is critical from a load of two per core on, a warning from one per core on, and
/// normal below; without cores it goes as with one.
pub proof fn the_class_goes_by_load_per_core(load: u64, cores: u32, n: int)
    requires
        n == cores || (cores == 0 && n == 1),
        n > 0,
    ensures
        class_of(load, cores) == "critical"@ || class_of(load, cores) == "warning"@ || class_of(load, cores) == "normal"@,
        load as int / 65536 >= 2 * n <==> class_of(load, cores) == "critical"@,
        load as int / 65536 < n <==> class_of(load, cores) == "normal"@,
{
    reveal_strlit("critical");
    reveal_strlit("warning");
    reveal_strlit("normal");
    assert("critical"@.len() == 8 && "warning"@.len() == 7 && "normal"@.len() == 6);
}

/// Written out, every character stands as it is and every number as its text, in order.
pub proof fn numbers_are_written_in_their_places(m: Seq<Mark>, numbers: Seq<Seq<char>>, c: char, r: Reading, t: Seq<char>)
    ensures
        written(m.push(Mark::Char(c)), numbers) == written(m, numbers).push(c),
        written(m.push(Mark::Number(r)), numbers.push(t)) == written(m, numbers) + t,
        written(Seq::empty(), numbers).len() == 0,
        readings(m.push(Mark::Char(c))) == readings(m),
        readings(m.push(Mark::Number(r))) == readings(m).push(r),
        readings(Seq::empty()).len() == 0,
{
    assert(m.push(Mark::Char(c)).drop_last() =~= m);
    assert(m.push(Mark::Number(r)).drop_last() =~= m);
    assert(numbers.push(t).drop_last() =~= numbers);
}

} // verus!
